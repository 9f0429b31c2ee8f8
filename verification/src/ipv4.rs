//! IPv4 addresses and their dotted-quad text.
//!
//! The text of an address is four decimal numerals between 0 and 255, with a
//! dot between neighbours. A numeral of more than one digit does not begin
//! with a zero, so that nothing can be mistaken for an octal number.

use crate::number::{
    append_decimal, decimal_text, decimal_value, is_decimal, is_decimal_digit, lemma_decimal_text,
};
use crate::text::{
    join, lemma_holds_none, lemma_join_chars, lemma_join_push, lemma_split_join, split,
    split_ranges,
};
use vstd::prelude::*;
use vstd::slice::slice_subrange;
use vstd::string::*;

verus! {

/// An IPv4 address: four octets, the first one first.
#[derive(Clone, Copy, Debug, PartialEq, Eq, Hash)]
pub struct Ipv4Addr {
    pub octets: [u8; 4],
}

impl View for Ipv4Addr {
    type V = Seq<u8>;

    /// The four octets.
    open spec fn view(&self) -> Seq<u8> {
        self.octets@
    }
}

/// The octet that `s` writes: a decimal numeral of at most three digits,
/// without a leading zero unless it is `0` itself, and worth at most 255.
pub open spec fn octet_value(s: Seq<char>) -> Option<u8> {
    if is_decimal(s) && s.len() <= 3 && (s.len() == 1 || s[0] != '0') && decimal_value(s) <= 255 {
        Some(decimal_value(s) as u8)
    } else {
        None
    }
}

/// The four octets that the dotted quad `s` writes, if it is one.
pub open spec fn ipv4_value(s: Seq<char>) -> Option<Seq<u8>> {
    let parts = split(s, '.');
    if parts.len() == 4 && forall|i: int| 0 <= i < 4 ==> octet_value(#[trigger] parts[i]) is Some {
        Some(Seq::new(4, |i: int| octet_value(parts[i]).unwrap()))
    } else {
        None
    }
}

/// The numerals of the octets, in order.
pub open spec fn octet_texts(octets: Seq<u8>) -> Seq<Seq<char>> {
    Seq::new(octets.len(), |i: int| decimal_text(octets[i] as nat))
}

/// The dotted quad of four octets.
pub open spec fn ipv4_text(octets: Seq<u8>) -> Seq<char> {
    join(octet_texts(octets), '.')
}

/// Reading the numeral of an octet gives the octet back.
pub proof fn lemma_octet_text(x: u8)
    ensures
        octet_value(decimal_text(x as nat)) == Some(x),
        !decimal_text(x as nat).contains('.'),
{
    let t = decimal_text(x as nat);
    lemma_decimal_text(x as nat);
    lemma_holds_none(t, |c: char| is_decimal_digit(c), '.');
}

/// Reading the dotted quad of an address gives the address back. The text
/// is made of digits and dots, and neither begins nor ends with a dot.
pub proof fn lemma_ipv4_text(octets: Seq<u8>)
    requires
        octets.len() == 4,
    ensures
        ipv4_value(ipv4_text(octets)) == Some(octets),
        split(ipv4_text(octets), '.') == octet_texts(octets),
        forall|i: int|
            0 <= i < ipv4_text(octets).len() ==> {
                let c = #[trigger] ipv4_text(octets)[i];
                is_decimal_digit(c) || c == '.'
            },
        ipv4_text(octets).len() > 0,
        is_decimal_digit(ipv4_text(octets)[0]),
        is_decimal_digit(ipv4_text(octets).last()),
{
    let parts = octet_texts(octets);
    let t = ipv4_text(octets);
    assert forall|k: int| 0 <= k < parts.len() implies !(#[trigger] parts[k]).contains('.') by {
        lemma_octet_text(octets[k]);
    }
    lemma_split_join(parts, '.');
    assert forall|i: int| 0 <= i < 4 implies octet_value(#[trigger] parts[i]) == Some(
        octets[i],
    ) by {
        lemma_octet_text(octets[i]);
    }
    assert(Seq::new(4, |i: int| octet_value(parts[i]).unwrap()) == octets);
    let allowed = |c: char| is_decimal_digit(c) || c == '.';
    assert forall|k: int, i: int| 0 <= k < parts.len() && 0 <= i < parts[k].len() implies allowed(
        #[trigger] parts[k][i],
    ) by {
        lemma_decimal_text(octets[k] as nat);
    }
    lemma_join_chars(parts, '.', allowed);
    lemma_decimal_text(octets[0] as nat);
    lemma_decimal_text(octets[3] as nat);
    lemma_join_push(parts.take(3), parts[3], '.');
    assert(parts.take(3).push(parts[3]) == parts);
    assert(t == join(parts.take(3), '.') + seq!['.'] + parts[3]);
    assert(t.last() == parts[3].last());
    assert(t[0] == parts[0][0]) by {
        assert(t == parts[0] + seq!['.'] + join(parts.drop_first(), '.'));
    }
}

/// The octet that `s` writes, if it writes one.
pub fn parse_octet(s: &[char]) -> (r: Option<u8>)
    ensures
        r == octet_value(s@),
{
    let n = s.len();
    if n == 0 || n > 3 {
        return None;
    }
    if n > 1 && s[0] == '0' {
        return None;
    }
    let mut acc: u16 = 0;
    let mut i: usize = 0;
    proof {
        assert(s@.take(0) == Seq::<char>::empty());
    }
    while i < n
        invariant
            n == s@.len(),
            0 < n <= 3,
            i <= n,
            forall|j: int| 0 <= j < i ==> is_decimal_digit(#[trigger] s@[j]),
            acc == decimal_value(s@.take(i as int)),
            i == 0 ==> acc == 0,
            i == 1 ==> acc <= 9,
            i == 2 ==> acc <= 99,
            i == 3 ==> acc <= 999,
            n == 1 || s@[0] != '0',
        decreases n - i,
    {
        let c = s[i];
        if !('0' <= c && c <= '9') {
            return None;
        }
        proof {
            let upto = s@.take(i + 1);
            assert(upto.drop_last() == s@.take(i as int));
            assert(upto.last() == c);
        }
        acc = acc * 10 + (c as u32 - '0' as u32) as u16;
        i += 1;
    }
    proof {
        assert(s@.take(n as int) == s@);
    }
    if acc > 255 {
        None
    } else {
        Some(acc as u8)
    }
}

impl Ipv4Addr {
    /// The address with the octets `a`, `b`, `c` and `d`, in this order.
    pub fn new(a: u8, b: u8, c: u8, d: u8) -> (r: Ipv4Addr)
        ensures
            r@ == seq![a, b, c, d],
    {
        Ipv4Addr { octets: [a, b, c, d] }
    }

    /// The four octets, the first one first.
    pub fn octets(&self) -> (r: [u8; 4])
        ensures
            r@ == self@,
    {
        self.octets
    }

    /// The address that the dotted quad `s` writes, if it is one.
    pub fn from_chars(s: &[char]) -> (r: Option<Ipv4Addr>)
        ensures
            match r {
                Some(a) => ipv4_value(s@) == Some(a@),
                None => ipv4_value(s@) is None,
            },
    {
        let ranges = split_ranges(s, '.');
        if ranges.len() != 4 {
            return None;
        }
        let ghost parts = split(s@, '.');
        let mut octets: [u8; 4] = [0; 4];
        let mut i: usize = 0;
        while i < 4
            invariant
                i <= 4,
                ranges@.len() == 4,
                parts == split(s@, '.'),
                parts.len() == 4,
                forall|k: int|
                    0 <= k < 4 ==> {
                        &&& (#[trigger] ranges@[k]).0 <= ranges@[k].1 <= s@.len()
                        &&& s@.subrange(ranges@[k].0 as int, ranges@[k].1 as int) == parts[k]
                    },
                forall|k: int| 0 <= k < i ==> octet_value(#[trigger] parts[k]) == Some(octets@[k]),
            decreases 4 - i,
        {
            let (from, to) = ranges[i];
            match parse_octet(slice_subrange(s, from, to)) {
                Some(x) => {
                    octets[i] = x;
                },
                None => {
                    return None;
                },
            }
            i += 1;
        }
        let r = Ipv4Addr { octets };
        assert(Seq::new(4, |i: int| octet_value(parts[i]).unwrap()) == r@);
        Some(r)
    }

    /// Writes the dotted quad of the address at the end of `out`.
    pub fn append_to(&self, out: &mut String)
        ensures
            final(out)@ == old(out)@ + ipv4_text(self@),
    {
        let ghost parts = octet_texts(self@);
        let mut i: usize = 0;
        proof {
            assert(parts.take(0) == Seq::<Seq<char>>::empty());
            assert(out@ + join(parts.take(0), '.') == out@);
        }
        while i < 4
            invariant
                i <= 4,
                parts == octet_texts(self@),
                parts.len() == 4,
                out@ == old(out)@ + join(parts.take(i as int), '.'),
            decreases 4 - i,
        {
            proof {
                lemma_join_push(parts.take(i as int), parts[i as int], '.');
                assert(parts.take(i as int).push(parts[i as int]) == parts.take(i + 1));
            }
            if i > 0 {
                proof {
                    reveal_strlit(".");
                }
                assert("."@ == seq!['.']);
                out.append(".");
            }
            append_decimal(out, self.octets[i] as u64);
            i += 1;
        }
        proof {
            assert(parts.take(4) == parts);
        }
    }
}

} // verus!
