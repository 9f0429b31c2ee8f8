//! IPv6 addresses and their text.
//!
//! An address is eight groups of sixteen bits. Its text writes each group as
//! a hexadecimal numeral of one to four digits, with a colon between
//! neighbours. One run of zero groups may be left out and marked by a double
//! colon, and the last two groups may be written as an IPv4 dotted quad.
//!
//! Writing picks one text for each address: an address whose first five
//! groups are zero and whose sixth is `ffff` is written as `::ffff:` and a
//! dotted quad; in any other, the first of the longest runs of two or more
//! zero groups is left out, and the numerals are in lower case without
//! leading zeros.

use crate::ipv4::{ipv4_text, ipv4_value, lemma_ipv4_text, Ipv4Addr};
use crate::number::{
    append_hex, hex_digit_of, hex_text, hex_value, is_decimal_digit, is_hex, is_hex_digit,
    lemma_hex_text,
};
use crate::text::{
    join, lemma_holds_none, lemma_join_chars, lemma_join_push, lemma_split_first,
    lemma_split_join, lemma_split_pieces, lemma_split_single, split, split_ranges,
};
use vstd::prelude::*;
use vstd::slice::slice_subrange;
use vstd::string::*;

verus! {

/// An IPv6 address: eight groups, the first one first.
#[derive(Clone, Copy, Debug, PartialEq, Eq, Hash)]
pub struct Ipv6Addr {
    pub segments: [u16; 8],
}

impl View for Ipv6Addr {
    type V = Seq<u16>;

    /// The eight groups.
    open spec fn view(&self) -> Seq<u16> {
        self.segments@
    }
}

/// The group that `s` writes: a hexadecimal numeral of at most four digits.
pub open spec fn group_value(s: Seq<char>) -> Option<u16> {
    if is_hex(s) && s.len() <= 4 {
        Some(hex_value(s) as u16)
    } else {
        None
    }
}

/// Whether every one of `parts` writes a group.
pub open spec fn all_groups(parts: Seq<Seq<char>>) -> bool {
    forall|i: int| 0 <= i < parts.len() ==> group_value(#[trigger] parts[i]) is Some
}

/// The groups that `parts` write, in order.
pub open spec fn group_values(parts: Seq<Seq<char>>) -> Seq<u16> {
    Seq::new(parts.len(), |i: int| group_value(parts[i]).unwrap())
}

/// The two groups that hold the four octets of a dotted quad.
pub open spec fn quad_groups(octets: Seq<u8>) -> Seq<u16> {
    seq![(octets[0] * 256 + octets[1]) as u16, (octets[2] * 256 + octets[3]) as u16]
}

/// The four octets held in the last two of eight groups.
pub open spec fn embedded_quad(groups: Seq<u16>) -> Seq<u8> {
    seq![
        (groups[6] / 256) as u8,
        (groups[6] % 256) as u8,
        (groups[7] / 256) as u8,
        (groups[7] % 256) as u8,
    ]
}

/// The groups that `s` lists: numerals with a colon between neighbours. The
/// empty text lists no group. Where `quad_allowed` holds, the last item may
/// be a dotted quad, which stands for two groups.
///
/// The definition is opaque: a proof that needs it reveals it.
#[verifier::opaque]
pub open spec fn group_list(s: Seq<char>, quad_allowed: bool) -> Option<Seq<u16>> {
    if s.len() == 0 {
        Some(Seq::empty())
    } else {
        let parts = split(s, ':');
        let quad = ipv4_value(parts.last());
        if quad_allowed && quad is Some {
            if all_groups(parts.drop_last()) {
                Some(group_values(parts.drop_last()) + quad_groups(quad.unwrap()))
            } else {
                None
            }
        } else if all_groups(parts) {
            Some(group_values(parts))
        } else {
            None
        }
    }
}

/// Index of the first colon that is directly followed by another; `s.len()`
/// when there is none.
pub open spec fn first_double_colon(s: Seq<char>) -> nat
    decreases s.len(),
{
    if s.len() < 2 {
        s.len()
    } else if s[0] == ':' && s[1] == ':' {
        0
    } else {
        1 + first_double_colon(s.drop_first())
    }
}

/// `n` zero groups.
pub open spec fn zero_groups(n: int) -> Seq<u16> {
    Seq::new(n as nat, |i: int| 0u16)
}

/// The eight groups that `s` writes, if it is the text of an address.
/// Without a double colon, `s` lists all eight. With one, the groups before
/// it and those after it are seven at most, and zero groups fill the gap; no
/// dotted quad stands before the double colon.
pub open spec fn ipv6_value(s: Seq<char>) -> Option<Seq<u16>> {
    let p = first_double_colon(s);
    if p >= s.len() {
        match group_list(s, true) {
            Some(groups) => if groups.len() == 8 {
                Some(groups)
            } else {
                None
            },
            None => None,
        }
    } else {
        match (group_list(s.take(p as int), false), group_list(s.skip(p as int + 2), true)) {
            (Some(head), Some(tail)) => if head.len() + tail.len() <= 7 {
                Some(head + zero_groups(8 - head.len() - tail.len()) + tail)
            } else {
                None
            },
            _ => None,
        }
    }
}

/// Number of zero groups in a row from index `i` on.
pub open spec fn zero_run(groups: Seq<u16>, i: int) -> nat
    decreases groups.len() - i,
{
    if 0 <= i < groups.len() && groups[i] == 0 {
        1 + zero_run(groups, i + 1)
    } else {
        0
    }
}

/// Among the indices below `n`, the first one at which the longest run of
/// zero groups starts.
pub open spec fn longest_zero_run(groups: Seq<u16>, n: int) -> int
    decreases n,
{
    if n <= 1 {
        0
    } else {
        let best = longest_zero_run(groups, n - 1);
        if zero_run(groups, n - 1) > zero_run(groups, best) {
            n - 1
        } else {
            best
        }
    }
}

/// Whether the groups hold an IPv4 address in the mapped form.
pub open spec fn is_v4_mapped(groups: Seq<u16>) -> bool {
    &&& groups[0] == 0
    &&& groups[1] == 0
    &&& groups[2] == 0
    &&& groups[3] == 0
    &&& groups[4] == 0
    &&& groups[5] == 0xffff
}

/// The numerals of the groups, in order.
pub open spec fn group_texts(groups: Seq<u16>) -> Seq<Seq<char>> {
    Seq::new(groups.len(), |i: int| hex_text(groups[i] as nat))
}

/// The numerals of the groups with a colon between neighbours.
pub open spec fn groups_text(groups: Seq<u16>) -> Seq<char> {
    join(group_texts(groups), ':')
}

/// The text of an address in the mapped form: `::ffff:` and the dotted quad
/// of its last two groups.
pub open spec fn mapped_text(groups: Seq<u16>) -> Seq<char> {
    seq![':', ':', 'f', 'f', 'f', 'f', ':'] + ipv4_text(embedded_quad(groups))
}

/// The text of the groups with the `len` groups from index `start` on left
/// out and a double colon in their place.
pub open spec fn compressed_text(groups: Seq<u16>, start: int, len: int) -> Seq<char> {
    groups_text(groups.take(start)) + seq![':', ':'] + groups_text(groups.skip(start + len))
}

/// The text of the address with the given eight groups.
pub open spec fn ipv6_text(groups: Seq<u16>) -> Seq<char> {
    if is_v4_mapped(groups) {
        mapped_text(groups)
    } else {
        let start = longest_zero_run(groups, 8);
        let len = zero_run(groups, start);
        if len >= 2 {
            compressed_text(groups, start, len as int)
        } else {
            groups_text(groups)
        }
    }
}

/// Whether `c` can occur in the text that this library writes for an
/// address: a digit, a lower-case hexadecimal letter, a colon or a dot.
pub open spec fn is_address_char(c: char) -> bool {
    '0' <= c <= '9' || 'a' <= c <= 'f' || c == ':' || c == '.'
}

/// Whether every colon of `s` is followed, within `s`, by a character other
/// than a colon.
pub open spec fn colons_apart(s: Seq<char>) -> bool {
    forall|i: int| 0 <= i < s.len() && #[trigger] s[i] == ':' ==> i + 1 < s.len() && s[i + 1] != ':'
}

/// The position that `first_double_colon` describes is the only one of its kind.
pub proof fn lemma_first_double_colon_unique(s: Seq<char>, p: int)
    requires
        0 <= p <= s.len(),
        forall|j: int|
            0 <= j < p && j + 1 < s.len() ==> !(#[trigger] s[j] == ':' && s[j + 1] == ':'),
        p < s.len() ==> p + 1 < s.len() && s[p] == ':' && s[p + 1] == ':',
    ensures
        first_double_colon(s) == p,
    decreases s.len(),
{
    if s.len() < 2 {
    } else if s[0] == ':' && s[1] == ':' {
    } else {
        let t = s.drop_first();
        assert forall|j: int| 0 <= j < p - 1 && j + 1 < t.len() implies !(#[trigger] t[j] == ':'
            && t[j + 1] == ':') by {
            assert(t[j] == s[j + 1]);
            assert(t[j + 1] == s[j + 2]);
            assert(!(s[j + 1] == ':' && s[j + 2] == ':'));
        }
        lemma_first_double_colon_unique(t, p - 1);
    }
}

/// A run of zero groups stays inside the sequence and holds zeros only.
pub proof fn lemma_zero_run(groups: Seq<u16>, i: int)
    requires
        0 <= i <= groups.len(),
    ensures
        i + zero_run(groups, i) <= groups.len(),
        forall|j: int| i <= j < i + zero_run(groups, i) ==> groups[j] == 0,
    decreases groups.len() - i,
{
    if i < groups.len() && groups[i] == 0 {
        lemma_zero_run(groups, i + 1);
    }
}

/// The start of the longest run is an index below `n`; no run that starts
/// below `n` is longer, and none that starts before it is as long.
pub proof fn lemma_longest_zero_run(groups: Seq<u16>, n: int)
    requires
        n >= 1,
    ensures
        0 <= longest_zero_run(groups, n) < n,
        forall|i: int|
            0 <= i < n ==> #[trigger] zero_run(groups, i) <= zero_run(
                groups,
                longest_zero_run(groups, n),
            ),
        forall|i: int|
            0 <= i < longest_zero_run(groups, n) ==> #[trigger] zero_run(groups, i) < zero_run(
                groups,
                longest_zero_run(groups, n),
            ),
    decreases n,
{
    if n > 1 {
        lemma_longest_zero_run(groups, n - 1);
    }
}

/// Reading the numeral of a group gives the group back; the numeral holds
/// neither colon nor dot.
pub proof fn lemma_group_text(x: u16)
    ensures
        group_value(hex_text(x as nat)) == Some(x),
        !hex_text(x as nat).contains(':'),
        !hex_text(x as nat).contains('.'),
        hex_text(x as nat).len() > 0,
{
    let t = hex_text(x as nat);
    lemma_hex_text(x as nat);
    lemma_holds_none(t, |c: char| is_hex_digit(c), ':');
    lemma_holds_none(t, |c: char| is_hex_digit(c), '.');
}

/// The text of a list of groups: its colons stand apart, it is empty only
/// for the empty list, it is made of digits, lower-case letters and colons,
/// and it reads back as the same groups, whether or not a dotted quad is
/// allowed at its end.
pub proof fn lemma_groups_text(groups: Seq<u16>, quad_allowed: bool)
    ensures
        group_list(groups_text(groups), quad_allowed) == Some(groups),
        colons_apart(groups_text(groups)),
        groups.len() > 0 ==> groups_text(groups).len() > 0,
        groups.len() > 1 ==> groups_text(groups).contains(':'),
        forall|i: int|
            0 <= i < groups_text(groups).len() ==> is_address_char(
                #[trigger] groups_text(groups)[i],
            ) && groups_text(groups)[i] != '.',
{
    reveal(group_list);
    let parts = group_texts(groups);
    let t = groups_text(groups);
    assert forall|k: int| 0 <= k < parts.len() implies !(#[trigger] parts[k]).contains(':')
        && parts[k].len() > 0 by {
        lemma_group_text(groups[k]);
    }
    lemma_join_colons(parts);
    let allowed = |c: char| is_address_char(c) && c != '.';
    assert forall|k: int, i: int| 0 <= k < parts.len() && 0 <= i < parts[k].len() implies allowed(
        #[trigger] parts[k][i],
    ) by {
        lemma_hex_text(groups[k] as nat);
    }
    lemma_join_chars(parts, ':', allowed);
    if groups.len() == 0 {
        assert(groups == Seq::<u16>::empty());
    } else {
        lemma_split_join(parts, ':');
        assert forall|i: int| 0 <= i < parts.len() implies group_value(#[trigger] parts[i])
            == Some(groups[i]) by {
            lemma_group_text(groups[i]);
        }
        assert(group_values(parts) == groups);
        assert(ipv4_value(parts.last()) is None) by {
            lemma_group_text(groups[groups.len() - 1]);
            lemma_split_single(parts.last(), '.');
        }
    }
}

/// Colons stand apart in a joined text whose pieces are not empty and hold no
/// colon. The text is empty only where there is no piece, and holds a colon
/// where there are two pieces or more.
proof fn lemma_join_colons(parts: Seq<Seq<char>>)
    requires
        forall|k: int|
            0 <= k < parts.len() ==> !(#[trigger] parts[k]).contains(':') && parts[k].len() > 0,
    ensures
        colons_apart(join(parts, ':')),
        parts.len() > 0 ==> join(parts, ':').len() > 0 && join(parts, ':')[0] != ':',
        parts.len() > 1 ==> join(parts, ':').contains(':'),
    decreases parts.len(),
{
    let t = join(parts, ':');
    if parts.len() == 0 {
    } else if parts.len() == 1 {
        assert forall|i: int| 0 <= i < t.len() implies t[i] != ':' by {
            assert(parts[0].contains(t[i]));
        }
    } else {
        let first = parts[0];
        let rest = parts.drop_first();
        let r = join(rest, ':');
        assert forall|k: int| 0 <= k < rest.len() implies !(#[trigger] rest[k]).contains(':')
            && rest[k].len() > 0 by {
            assert(rest[k] == parts[k + 1]);
        }
        lemma_join_colons(rest);
        assert(t == first + seq![':'] + r);
        assert forall|i: int| 0 <= i < first.len() implies t[i] != ':' by {
            assert(t[i] == first[i]);
            assert(first.contains(first[i]));
        }
        assert(t[first.len() as int] == ':');
        assert forall|i: int| 0 <= i < t.len() && #[trigger] t[i] == ':' implies i + 1 < t.len()
            && t[i + 1] != ':' by {
            if i == first.len() {
                assert(t[i + 1] == r[0]);
            } else {
                let j = i - first.len() - 1;
                assert(t[i] == r[j]);
                assert(j + 1 < r.len() && r[j + 1] != ':');
                assert(t[i + 1] == r[j + 1]);
            }
        }
    }
}

/// There is no double colon in a text whose colons stand apart.
proof fn lemma_no_double_colon(s: Seq<char>)
    requires
        colons_apart(s),
    ensures
        first_double_colon(s) == s.len(),
{
    lemma_first_double_colon_unique(s, s.len() as int);
}

/// Between two texts, a double colon is the first one if the colons of the
/// text before it stand apart.
proof fn lemma_double_colon_between(a: Seq<char>, b: Seq<char>)
    requires
        colons_apart(a),
    ensures
        first_double_colon(a + seq![':', ':'] + b) == a.len(),
        (a + seq![':', ':'] + b).take(a.len() as int) == a,
        (a + seq![':', ':'] + b).skip(a.len() as int + 2) == b,
{
    let s = a + seq![':', ':'] + b;
    assert forall|j: int| 0 <= j < a.len() && j + 1 < s.len() implies !(#[trigger] s[j] == ':'
        && s[j + 1] == ':') by {
        assert(s[j] == a[j]);
        if a[j] == ':' {
            assert(s[j + 1] == a[j + 1]);
        }
    }
    assert(s[a.len() as int] == ':');
    assert(s[a.len() as int + 1] == ':');
    lemma_first_double_colon_unique(s, a.len() as int);
}

/// The mapped form reads back as the same groups.
proof fn lemma_mapped_text(groups: Seq<u16>)
    requires
        groups.len() == 8,
        is_v4_mapped(groups),
    ensures
        ipv6_value(mapped_text(groups)) == Some(groups),
        mapped_text(groups).contains(':'),
        forall|i: int|
            0 <= i < mapped_text(groups).len() ==> is_address_char(
                #[trigger] mapped_text(groups)[i],
            ),
{
    let t = mapped_text(groups);
    let quad = embedded_quad(groups);
    let q = ipv4_text(quad);
    let ffff = seq!['f', 'f', 'f', 'f'];
    let tail = ffff + seq![':'] + q;
    lemma_ipv4_text(quad);
    assert(t[0] == ':' && t[1] == ':');
    assert(first_double_colon(t) == 0);
    assert(t.take(0) == Seq::<char>::empty());
    assert(t.skip(2) == tail);
    lemma_holds_none(q, |c: char| is_decimal_digit(c) || c == '.', ':');
    let read = seq![0xffffu16] + quad_groups(quad);
    assert(group_list(tail, true) == Some(read)) by {
        reveal(group_list);
        assert(!ffff.contains(':'));
        lemma_split_first(ffff, q, ':');
        lemma_split_single(q, ':');
        let parts = split(tail, ':');
        assert(parts == seq![ffff, q]);
        assert(parts.last() == q);
        assert(parts.drop_last() == seq![ffff]);
        lemma_ffff();
        assert(group_values(seq![ffff]) == seq![0xffffu16]);
    }
    assert(group_list(Seq::<char>::empty(), false) == Some(Seq::<u16>::empty())) by {
        reveal(group_list);
    }
    assert(Seq::<u16>::empty() + zero_groups(5) + read == groups) by {
        assert(quad_groups(quad) == seq![groups[6], groups[7]]);
    }
    assert forall|i: int| 0 <= i < t.len() implies is_address_char(#[trigger] t[i]) by {
        if i >= 7 {
            assert(t[i] == q[i - 7]);
        }
    }
}

/// A text with a run of zero groups left out reads back as the same groups.
proof fn lemma_compressed_text(groups: Seq<u16>, start: int, len: int)
    requires
        groups.len() == 8,
        0 <= start,
        2 <= len,
        start + len <= 8,
        forall|j: int| start <= j < start + len ==> groups[j] == 0,
    ensures
        ipv6_value(compressed_text(groups, start, len)) == Some(groups),
        compressed_text(groups, start, len).contains(':'),
        forall|i: int|
            0 <= i < compressed_text(groups, start, len).len() ==> is_address_char(
                #[trigger] compressed_text(groups, start, len)[i],
            ),
{
    let t = compressed_text(groups, start, len);
    let head = groups.take(start);
    let tail = groups.skip(start + len);
    let h = groups_text(head);
    let l = groups_text(tail);
    lemma_groups_text(head, false);
    lemma_groups_text(tail, true);
    lemma_double_colon_between(h, l);
    assert(head + zero_groups(8 - head.len() - tail.len()) + tail == groups);
    assert(t[h.len() as int] == ':');
    assert forall|i: int| 0 <= i < t.len() implies is_address_char(#[trigger] t[i]) by {
        if i < h.len() {
            assert(t[i] == h[i]);
        } else if i >= h.len() + 2 {
            assert(t[i] == l[i - h.len() - 2]);
        }
    }
}

/// The text that leaves no group out reads back as the same groups.
proof fn lemma_plain_text(groups: Seq<u16>)
    requires
        groups.len() == 8,
    ensures
        ipv6_value(groups_text(groups)) == Some(groups),
        groups_text(groups).contains(':'),
        forall|i: int|
            0 <= i < groups_text(groups).len() ==> is_address_char(
                #[trigger] groups_text(groups)[i],
            ),
{
    lemma_groups_text(groups, true);
    lemma_no_double_colon(groups_text(groups));
}

/// Reading the text of an address gives the address back. The text holds a
/// colon and is made of digits, lower-case letters, colons and dots.
pub proof fn lemma_ipv6_text(groups: Seq<u16>)
    requires
        groups.len() == 8,
    ensures
        ipv6_value(ipv6_text(groups)) == Some(groups),
        ipv6_text(groups).contains(':'),
        forall|i: int|
            0 <= i < ipv6_text(groups).len() ==> is_address_char(#[trigger] ipv6_text(groups)[i]),
{
    if is_v4_mapped(groups) {
        lemma_mapped_text(groups);
    } else {
        let start = longest_zero_run(groups, 8);
        let len = zero_run(groups, start) as int;
        lemma_longest_zero_run(groups, 8);
        lemma_zero_run(groups, start);
        if len >= 2 {
            lemma_compressed_text(groups, start, len);
        } else {
            lemma_plain_text(groups);
        }
    }
}

/// The numeral `ffff` writes the largest group.
proof fn lemma_ffff()
    ensures
        group_value(seq!['f', 'f', 'f', 'f']) == Some(0xffffu16),
{
    let s4 = seq!['f', 'f', 'f', 'f'];
    let s3 = seq!['f', 'f', 'f'];
    let s2 = seq!['f', 'f'];
    let s1 = seq!['f'];
    assert(s4.drop_last() == s3);
    assert(s3.drop_last() == s2);
    assert(s2.drop_last() == s1);
    assert(s1.drop_last() == Seq::<char>::empty());
    assert(hex_value(Seq::<char>::empty()) == 0);
    assert(hex_value(s1) == 15);
    assert(hex_value(s2) == 255);
    assert(hex_value(s3) == 4095);
    assert(hex_value(s4) == 65535);
}

/// The group that `s` writes, if it writes one.
pub fn parse_group(s: &[char]) -> (r: Option<u16>)
    ensures
        r == group_value(s@),
{
    let n = s.len();
    if n == 0 || n > 4 {
        return None;
    }
    let mut acc: u32 = 0;
    let mut i: usize = 0;
    proof {
        assert(s@.take(0) == Seq::<char>::empty());
    }
    while i < n
        invariant
            n == s@.len(),
            0 < n <= 4,
            i <= n,
            forall|j: int| 0 <= j < i ==> is_hex_digit(#[trigger] s@[j]),
            acc == hex_value(s@.take(i as int)),
            i == 0 ==> acc == 0,
            i == 1 ==> acc < 16,
            i == 2 ==> acc < 256,
            i == 3 ==> acc < 4096,
            i == 4 ==> acc < 65536,
        decreases n - i,
    {
        match hex_digit_of(s[i]) {
            Some(d) => {
                proof {
                    let upto = s@.take(i + 1);
                    assert(upto.drop_last() == s@.take(i as int));
                    assert(upto.last() == s@[i as int]);
                }
                acc = acc * 16 + d as u32;
            },
            None => {
                return None;
            },
        }
        i += 1;
    }
    proof {
        assert(s@.take(n as int) == s@);
    }
    Some(acc as u16)
}

/// The groups that `s` lists, if it is a list of groups.
pub fn parse_group_list(s: &[char], quad_allowed: bool) -> (r: Option<Vec<u16>>)
    ensures
        match r {
            Some(groups) => group_list(s@, quad_allowed) == Some(groups@),
            None => group_list(s@, quad_allowed) is None,
        },
{
    proof {
        reveal(group_list);
    }
    let mut out: Vec<u16> = Vec::new();
    if s.len() == 0 {
        return Some(out);
    }
    let ranges = split_ranges(s, ':');
    let ghost parts = split(s@, ':');
    proof {
        lemma_split_pieces(s@, ':');
    }
    let k = ranges.len();
    let (last_from, last_to) = ranges[k - 1];
    let quad = if quad_allowed {
        Ipv4Addr::from_chars(slice_subrange(s, last_from, last_to))
    } else {
        None
    };
    let count = if quad.is_some() {
        k - 1
    } else {
        k
    };
    let ghost front = parts.take(count as int);
    let mut i: usize = 0;
    while i < count
        invariant
            i <= count <= k,
            k == ranges@.len(),
            parts == split(s@, ':'),
            parts.len() == k,
            front == parts.take(count as int),
            forall|j: int|
                0 <= j < k ==> {
                    &&& (#[trigger] ranges@[j]).0 <= ranges@[j].1 <= s@.len()
                    &&& s@.subrange(ranges@[j].0 as int, ranges@[j].1 as int) == parts[j]
                },
            out@.len() == i,
            forall|j: int| 0 <= j < i ==> group_value(#[trigger] front[j]) == Some(out@[j]),
            s@.len() > 0,
            quad_allowed && ipv4_value(parts.last()) is Some <==> count == k - 1,
        decreases count - i,
    {
        let (from, to) = ranges[i];
        match parse_group(slice_subrange(s, from, to)) {
            Some(g) => {
                out.push(g);
            },
            None => {
                proof {
                    reveal(group_list);
                    assert(front[i as int] == parts[i as int]);
                    assert(parts.drop_last() == parts.take(k - 1));
                    assert(parts.take(k as int) == parts);
                }
                return None;
            },
        }
        i += 1;
    }
    proof {
        assert(parts.drop_last() == parts.take(k - 1));
        assert(parts.take(k as int) == parts);
        assert(out@ == group_values(front));
    }
    match quad {
        Some(q) => {
            let o = q.octets();
            let ghost before = out@;
            out.push(o[0] as u16 * 256 + o[1] as u16);
            out.push(o[2] as u16 * 256 + o[3] as u16);
            assert(out@ == before + quad_groups(q@));
        },
        None => {},
    }
    Some(out)
}

/// Position of the first colon that is directly followed by another;
/// `s.len()` if there is none.
pub fn find_double_colon(s: &[char]) -> (p: usize)
    ensures
        p == first_double_colon(s@),
        p == s@.len() || p + 2 <= s@.len(),
{
    let n = s.len();
    let mut p: usize = 0;
    while p < n
        invariant
            n == s@.len(),
            p <= n,
            forall|j: int|
                0 <= j < p && j + 1 < n ==> !(#[trigger] s@[j] == ':' && s@[j + 1] == ':'),
        decreases n - p,
    {
        if p + 1 < n && s[p] == ':' && s[p + 1] == ':' {
            proof {
                lemma_first_double_colon_unique(s@, p as int);
            }
            return p;
        }
        p += 1;
    }
    proof {
        lemma_first_double_colon_unique(s@, n as int);
    }
    n
}

/// Where the first of the longest runs of zero groups starts, and how long
/// it is.
fn longest_zero_span(groups: &[u16; 8]) -> (r: (usize, usize))
    ensures
        r.0 == longest_zero_run(groups@, 8),
        r.1 == zero_run(groups@, r.0 as int),
        r.0 + r.1 <= 8,
{
    let mut runs: [usize; 8] = [0; 8];
    let mut i: usize = 8;
    while i > 0
        invariant
            i <= 8,
            forall|j: int| i <= j < 8 ==> runs@[j] == zero_run(groups@, j),
        decreases i,
    {
        i -= 1;
        proof {
            lemma_zero_run(groups@, i + 1);
        }
        if groups[i] == 0 {
            let next = if i + 1 < 8 {
                runs[i + 1]
            } else {
                0
            };
            runs[i] = next + 1;
        } else {
            runs[i] = 0;
        }
    }
    let mut start: usize = 0;
    let mut n: usize = 1;
    while n < 8
        invariant
            1 <= n <= 8,
            start == longest_zero_run(groups@, n as int),
            0 <= start < n,
            forall|j: int| 0 <= j < 8 ==> runs@[j] == zero_run(groups@, j),
        decreases 8 - n,
    {
        if runs[n] > runs[start] {
            start = n;
        }
        n += 1;
    }
    proof {
        lemma_zero_run(groups@, start as int);
    }
    (start, runs[start])
}

/// Writes the numerals of the groups `from` up to `to`, with a colon between
/// neighbours, at the end of `out`.
fn append_groups(out: &mut String, groups: &[u16; 8], from: usize, to: usize)
    requires
        from <= to <= 8,
    ensures
        final(out)@ == old(out)@ + groups_text(groups@.subrange(from as int, to as int)),
{
    let ghost parts = group_texts(groups@.subrange(from as int, to as int));
    let mut i: usize = from;
    proof {
        assert(parts.take(0) == Seq::<Seq<char>>::empty());
        assert(out@ + join(parts.take(0), ':') == out@);
    }
    while i < to
        invariant
            from <= i <= to <= 8,
            parts == group_texts(groups@.subrange(from as int, to as int)),
            out@ == old(out)@ + join(parts.take(i - from), ':'),
        decreases to - i,
    {
        proof {
            lemma_join_push(parts.take(i - from), parts[i - from], ':');
            assert(parts.take(i - from).push(parts[i - from]) == parts.take(i - from + 1));
        }
        if i > from {
            proof {
                reveal_strlit(":");
            }
            assert(":"@ == seq![':']);
            out.append(":");
        }
        append_hex(out, groups[i]);
        i += 1;
    }
    proof {
        assert(parts.take(to - from) == parts);
    }
}

impl Ipv6Addr {
    /// The address with the groups `a` to `h`, in this order.
    pub fn new(a: u16, b: u16, c: u16, d: u16, e: u16, f: u16, g: u16, h: u16) -> (r: Ipv6Addr)
        ensures
            r@ == seq![a, b, c, d, e, f, g, h],
    {
        Ipv6Addr { segments: [a, b, c, d, e, f, g, h] }
    }

    /// The eight groups, the first one first.
    pub fn segments(&self) -> (r: [u16; 8])
        ensures
            r@ == self@,
    {
        self.segments
    }

    /// The address that `s` writes, if it is the text of one.
    pub fn from_chars(s: &[char]) -> (r: Option<Ipv6Addr>)
        ensures
            match r {
                Some(a) => ipv6_value(s@) == Some(a@),
                None => ipv6_value(s@) is None,
            },
    {
        let n = s.len();
        let p = find_double_colon(s);
        let mut segments: [u16; 8] = [0; 8];
        if p >= n {
            match parse_group_list(s, true) {
                Some(groups) => {
                    if groups.len() != 8 {
                        return None;
                    }
                    let mut i: usize = 0;
                    while i < 8
                        invariant
                            i <= 8,
                            groups@.len() == 8,
                            forall|j: int| 0 <= j < i ==> segments@[j] == groups@[j],
                        decreases 8 - i,
                    {
                        segments[i] = groups[i];
                        i += 1;
                    }
                    assert(segments@ == groups@);
                },
                None => {
                    return None;
                },
            }
        } else {
            let head = match parse_group_list(slice_subrange(s, 0, p), false) {
                Some(groups) => groups,
                None => {
                    return None;
                },
            };
            let tail = match parse_group_list(slice_subrange(s, p + 2, n), true) {
                Some(groups) => groups,
                None => {
                    return None;
                },
            };
            let h = head.len();
            let t = tail.len();
            if h > 7 || t > 7 - h {
                return None;
            }
            let mut i: usize = 0;
            while i < h
                invariant
                    i <= h <= 7,
                    h == head@.len(),
                    forall|j: int| 0 <= j < i ==> segments@[j] == head@[j],
                    forall|j: int| i <= j < 8 ==> segments@[j] == 0,
                decreases h - i,
            {
                segments[i] = head[i];
                i += 1;
            }
            let mut i: usize = 0;
            while i < t
                invariant
                    i <= t,
                    h + t <= 7,
                    h == head@.len(),
                    t == tail@.len(),
                    forall|j: int| 0 <= j < h ==> segments@[j] == head@[j],
                    forall|j: int| h <= j < 8 - t ==> segments@[j] == 0,
                    forall|j: int| 0 <= j < i ==> segments@[8 - t + j] == tail@[j],
                decreases t - i,
            {
                segments[8 - t + i] = tail[i];
                i += 1;
            }
            assert(segments@ == head@ + zero_groups(8 - h - t) + tail@);
        }
        Some(Ipv6Addr { segments })
    }

    /// Writes the text of the address at the end of `out`.
    pub fn append_to(&self, out: &mut String)
        ensures
            final(out)@ == old(out)@ + ipv6_text(self@),
    {
        let g = &self.segments;
        if g[0] == 0 && g[1] == 0 && g[2] == 0 && g[3] == 0 && g[4] == 0 && g[5] == 0xffff {
            proof {
                reveal_strlit("::ffff:");
            }
            assert("::ffff:"@ == seq![':', ':', 'f', 'f', 'f', 'f', ':']);
            out.append("::ffff:");
            let quad = Ipv4Addr::new(
                (g[6] / 256) as u8,
                (g[6] % 256) as u8,
                (g[7] / 256) as u8,
                (g[7] % 256) as u8,
            );
            quad.append_to(out);
        } else {
            let (start, len) = longest_zero_span(g);
            proof {
                assert(g@.take(start as int) == g@.subrange(0, start as int));
                assert(g@.skip(start + len) == g@.subrange(start + len, 8));
                assert(g@ == g@.subrange(0, 8));
            }
            if len >= 2 {
                append_groups(out, g, 0, start);
                proof {
                    reveal_strlit("::");
                }
                assert("::"@ == seq![':', ':']);
                out.append("::");
                append_groups(out, g, start + len, 8);
            } else {
                append_groups(out, g, 0, 8);
            }
        }
    }
}

} // verus!
