//! Character sequences: searching, splitting at a separator, joining, and
//! cutting a text into lines.
//!
//! Every text is modelled as a `Seq<char>`. The executable functions work on
//! `&[char]` and report positions, so that callers can take sub-slices without
//! copying.

use vstd::prelude::*;

verus! {

/// Index of the first occurrence of `c` in `s`; `s.len()` when `c` does not occur.
pub open spec fn first_index(s: Seq<char>, c: char) -> nat
    decreases s.len(),
{
    if s.len() == 0 || s[0] == c {
        0
    } else {
        1 + first_index(s.drop_first(), c)
    }
}

/// The pieces of `s` between occurrences of `sep`. There is always at least
/// one piece; a separator at either end, or two in a row, give an empty piece.
pub open spec fn split(s: Seq<char>, sep: char) -> Seq<Seq<char>>
    decreases s.len(),
{
    let i = first_index(s, sep);
    if i >= s.len() {
        seq![s]
    } else {
        seq![s.take(i as int)] + split(s.skip(i as int + 1), sep)
    }
}

/// The pieces written one after the other with `sep` between neighbours.
pub open spec fn join(parts: Seq<Seq<char>>, sep: char) -> Seq<char>
    decreases parts.len(),
{
    if parts.len() == 0 {
        Seq::empty()
    } else if parts.len() == 1 {
        parts[0]
    } else {
        parts[0] + seq![sep] + join(parts.drop_first(), sep)
    }
}

/// Whether `c` is white space: one of the characters with the Unicode
/// property `White_Space`.
pub open spec fn is_whitespace(c: char) -> bool {
    ||| '\u{9}' <= c <= '\u{d}'
    ||| c == ' '
    ||| c == '\u{85}'
    ||| c == '\u{a0}'
    ||| c == '\u{1680}'
    ||| '\u{2000}' <= c <= '\u{200a}'
    ||| c == '\u{2028}'
    ||| c == '\u{2029}'
    ||| c == '\u{202f}'
    ||| c == '\u{205f}'
    ||| c == '\u{3000}'
}

/// Whether no character of `s` is white space.
pub open spec fn has_no_whitespace(s: Seq<char>) -> bool {
    forall|i: int| 0 <= i < s.len() ==> !is_whitespace(#[trigger] s[i])
}

/// `s` without one carriage return at its end, if it has one there.
pub open spec fn without_trailing_cr(s: Seq<char>) -> Seq<char> {
    if s.len() > 0 && s.last() == '\r' {
        s.drop_last()
    } else {
        s
    }
}

/// The lines of `s`. A line ends at a line feed, or at a carriage return
/// directly followed by a line feed; neither belongs to the line. The last
/// line needs no terminator, and a text that ends in a terminator has no
/// empty line after it.
pub open spec fn lines(s: Seq<char>) -> Seq<Seq<char>>
    decreases s.len(),
{
    if s.len() == 0 {
        Seq::empty()
    } else {
        let i = first_index(s, '\n');
        if i >= s.len() {
            seq![s]
        } else {
            seq![without_trailing_cr(s.take(i as int))] + lines(s.skip(i as int + 1))
        }
    }
}

/// `first_index` is in range, nothing before it equals `c`, and it points at
/// `c` unless it is the length.
pub proof fn lemma_first_index(s: Seq<char>, c: char)
    ensures
        first_index(s, c) <= s.len(),
        forall|j: int| 0 <= j < first_index(s, c) ==> s[j] != c,
        first_index(s, c) < s.len() ==> s[first_index(s, c) as int] == c,
        first_index(s, c) == s.len() <==> !s.contains(c),
    decreases s.len(),
{
    if s.len() == 0 || s[0] == c {
    } else {
        let t = s.drop_first();
        lemma_first_index(t, c);
        assert forall|j: int| 0 <= j < first_index(s, c) implies s[j] != c by {
            if j > 0 {
                assert(s[j] == t[j - 1]);
            }
        }
        if first_index(s, c) < s.len() {
            assert(s[first_index(s, c) as int] == t[first_index(t, c) as int]);
        }
    }
}

/// The position that `first_index` describes is the only one of its kind.
pub proof fn lemma_first_index_unique(s: Seq<char>, c: char, i: int)
    requires
        0 <= i <= s.len(),
        forall|j: int| 0 <= j < i ==> s[j] != c,
        i < s.len() ==> s[i] == c,
    ensures
        first_index(s, c) == i,
{
    lemma_first_index(s, c);
    let k = first_index(s, c) as int;
    if k < i {
        assert(s[k] == c);
    } else if i < k {
        assert(s[i] == c);
    }
}

/// A text without the separator is a single piece.
pub proof fn lemma_split_single(s: Seq<char>, sep: char)
    requires
        !s.contains(sep),
    ensures
        split(s, sep) == seq![s],
{
    lemma_first_index(s, sep);
}

/// Splitting after a first piece that is free of the separator.
pub proof fn lemma_split_first(a: Seq<char>, b: Seq<char>, sep: char)
    requires
        !a.contains(sep),
    ensures
        split(a + seq![sep] + b, sep) == seq![a] + split(b, sep),
{
    let s = a + seq![sep] + b;
    assert forall|j: int| 0 <= j < a.len() implies s[j] != sep by {
        assert(s[j] == a[j]);
        assert(a.contains(a[j]));
    }
    lemma_first_index_unique(s, sep, a.len() as int);
    assert(s.take(a.len() as int) == a);
    assert(s.skip(a.len() as int + 1) == b);
}

/// Splitting undoes joining, as long as no piece holds the separator.
pub proof fn lemma_split_join(parts: Seq<Seq<char>>, sep: char)
    requires
        parts.len() > 0,
        forall|k: int| 0 <= k < parts.len() ==> !(#[trigger] parts[k]).contains(sep),
    ensures
        split(join(parts, sep), sep) == parts,
    decreases parts.len(),
{
    if parts.len() == 1 {
        lemma_split_single(parts[0], sep);
        assert(seq![parts[0]] == parts);
    } else {
        let rest = parts.drop_first();
        assert forall|k: int| 0 <= k < rest.len() implies !(#[trigger] rest[k]).contains(sep) by {
            assert(rest[k] == parts[k + 1]);
        }
        lemma_split_join(rest, sep);
        lemma_split_first(parts[0], join(rest, sep), sep);
        assert(seq![parts[0]] + rest == parts);
    }
}

/// No piece of a split holds the separator.
pub proof fn lemma_split_pieces(s: Seq<char>, sep: char)
    ensures
        split(s, sep).len() > 0,
        forall|k: int|
            0 <= k < split(s, sep).len() ==> !(#[trigger] split(s, sep)[k]).contains(sep),
    decreases s.len(),
{
    lemma_first_index(s, sep);
    let i = first_index(s, sep);
    if i >= s.len() {
    } else {
        let head = s.take(i as int);
        let rest = s.skip(i as int + 1);
        lemma_split_pieces(rest, sep);
        if head.contains(sep) {
            let j = choose|j: int| 0 <= j < head.len() && head[j] == sep;
            assert(s[j] == sep);
        }
        assert forall|k: int| 0 <= k < split(s, sep).len() implies !(#[trigger] split(
            s,
            sep,
        )[k]).contains(sep) by {
            if k > 0 {
                assert(split(s, sep)[k] == split(rest, sep)[k - 1]);
            }
        }
    }
}

/// A text made of allowed characters holds no character that is not allowed.
pub proof fn lemma_holds_none(s: Seq<char>, allowed: spec_fn(char) -> bool, c: char)
    requires
        forall|i: int| 0 <= i < s.len() ==> allowed(#[trigger] s[i]),
        !allowed(c),
    ensures
        !s.contains(c),
{
}

/// A character that does not occur in a text occurs in none of its pieces.
pub proof fn lemma_split_keeps_out(s: Seq<char>, sep: char, c: char)
    requires
        !s.contains(c),
    ensures
        forall|k: int| 0 <= k < split(s, sep).len() ==> !(#[trigger] split(s, sep)[k]).contains(c),
    decreases s.len(),
{
    lemma_first_index(s, sep);
    let i = first_index(s, sep);
    if i >= s.len() {
    } else {
        let head = s.take(i as int);
        let rest = s.skip(i as int + 1);
        if head.contains(c) {
            let j = choose|j: int| 0 <= j < head.len() && head[j] == c;
            assert(s[j] == c);
        }
        if rest.contains(c) {
            let j = choose|j: int| 0 <= j < rest.len() && rest[j] == c;
            assert(s[j + i + 1] == c);
        }
        lemma_split_keeps_out(rest, sep, c);
        assert forall|k: int| 0 <= k < split(s, sep).len() implies !(#[trigger] split(
            s,
            sep,
        )[k]).contains(c) by {
            if k > 0 {
                assert(split(s, sep)[k] == split(rest, sep)[k - 1]);
            }
        }
    }
}

/// Joining one more piece puts the separator and the piece at the end.
pub proof fn lemma_join_push(parts: Seq<Seq<char>>, last: Seq<char>, sep: char)
    ensures
        join(parts.push(last), sep) == if parts.len() == 0 {
            last
        } else {
            join(parts, sep) + seq![sep] + last
        },
    decreases parts.len(),
{
    let all = parts.push(last);
    if parts.len() == 0 {
    } else {
        let rest = parts.drop_first();
        lemma_join_push(rest, last, sep);
        assert(all.drop_first() == rest.push(last));
        assert(all[0] == parts[0]);
        if parts.len() > 1 {
            assert(join(all, sep) == join(parts, sep) + seq![sep] + last) by {
                assert(parts[0] + seq![sep] + (join(rest, sep) + seq![sep] + last) == parts[0]
                    + seq![sep] + join(rest, sep) + seq![sep] + last);
            }
        }
    }
}

/// Every character of a joined text is the separator or comes from a piece.
pub proof fn lemma_join_chars(parts: Seq<Seq<char>>, sep: char, allowed: spec_fn(char) -> bool)
    requires
        allowed(sep),
        forall|k: int, i: int|
            0 <= k < parts.len() && 0 <= i < parts[k].len() ==> allowed(#[trigger] parts[k][i]),
    ensures
        forall|i: int| 0 <= i < join(parts, sep).len() ==> allowed(#[trigger] join(parts, sep)[i]),
    decreases parts.len(),
{
    if parts.len() == 0 {
    } else if parts.len() == 1 {
    } else {
        let rest = parts.drop_first();
        assert forall|k: int, i: int| 0 <= k < rest.len() && 0 <= i < rest[k].len() implies allowed(
            #[trigger] rest[k][i],
        ) by {
            assert(rest[k][i] == parts[k + 1][i]);
        }
        lemma_join_chars(rest, sep, allowed);
        let t = join(parts, sep);
        let r = join(rest, sep);
        assert forall|i: int| 0 <= i < t.len() implies allowed(#[trigger] t[i]) by {
            if i < parts[0].len() {
                assert(t[i] == parts[0][i]);
            } else if i == parts[0].len() {
            } else {
                assert(t[i] == r[i - parts[0].len() - 1]);
            }
        }
    }
}

/// A line that holds no line feed and does not end in a carriage return,
/// written with a line feed after it, is the first line of the text.
pub proof fn lemma_lines_first(line: Seq<char>, rest: Seq<char>)
    requires
        !line.contains('\n'),
        line.len() > 0 ==> line.last() != '\r',
    ensures
        lines(line + seq!['\n'] + rest) == seq![line] + lines(rest),
{
    let s = line + seq!['\n'] + rest;
    assert forall|j: int| 0 <= j < line.len() implies s[j] != '\n' by {
        assert(s[j] == line[j]);
        assert(line.contains(line[j]));
    }
    lemma_first_index_unique(s, '\n', line.len() as int);
    assert(s.take(line.len() as int) == line);
    assert(s.skip(line.len() as int + 1) == rest);
}

/// No line of a text holds a line feed.
pub proof fn lemma_lines_hold_no_line_feed(s: Seq<char>)
    ensures
        forall|k: int| 0 <= k < lines(s).len() ==> !(#[trigger] lines(s)[k]).contains('\n'),
    decreases s.len(),
{
    if s.len() > 0 {
        lemma_first_index(s, '\n');
        let i = first_index(s, '\n');
        if i < s.len() {
            let whole = s.take(i as int);
            let first = without_trailing_cr(whole);
            let rest = s.skip(i as int + 1);
            if first.contains('\n') {
                let j = choose|j: int| 0 <= j < first.len() && first[j] == '\n';
                assert(s[j] == '\n');
            }
            lemma_lines_hold_no_line_feed(rest);
            assert forall|k: int| 0 <= k < lines(s).len() implies !(#[trigger] lines(
                s,
            )[k]).contains('\n') by {
                if k > 0 {
                    assert(lines(s)[k] == lines(rest)[k - 1]);
                }
            }
        }
    }
}

/// The characters of `s`, in order.
pub fn to_chars(s: &str) -> (out: Vec<char>)
    ensures
        out@ == s@,
{
    let mut out: Vec<char> = Vec::new();
    for c in it: s.chars()
        invariant
            out@ == it.seq().take(it.index()),
            it.seq() == s@,
    {
        out.push(c);
    }
    out
}

/// Position of the first `c` at or after `from`; `s.len()` if there is none.
pub fn find_char(s: &[char], from: usize, c: char) -> (at: usize)
    requires
        from <= s@.len(),
    ensures
        from <= at <= s@.len(),
        at == from + first_index(s@.skip(from as int), c),
{
    let n = s.len();
    let mut at: usize = from;
    while at < n && s[at] != c
        invariant
            n == s@.len(),
            from <= at <= n,
            forall|j: int| from <= j < at ==> s@[j] != c,
        decreases n - at,
    {
        at += 1;
    }
    proof {
        let t = s@.skip(from as int);
        assert forall|j: int| 0 <= j < at - from implies t[j] != c by {
            assert(t[j] == s@[from + j]);
        }
        lemma_first_index_unique(t, c, at - from);
    }
    at
}

/// Whether `c` is white space.
pub fn is_whitespace_char(c: char) -> (r: bool)
    ensures
        r == is_whitespace(c),
{
    ('\u{9}' <= c && c <= '\u{d}') || c == ' ' || c == '\u{85}' || c == '\u{a0}' || c == '\u{1680}'
        || ('\u{2000}' <= c && c <= '\u{200a}') || c == '\u{2028}' || c == '\u{2029}' || c
        == '\u{202f}' || c == '\u{205f}' || c == '\u{3000}'
}

/// Whether no character of `s` is white space.
pub fn is_free_of_whitespace(s: &[char]) -> (r: bool)
    ensures
        r == has_no_whitespace(s@),
{
    let n = s.len();
    let mut i: usize = 0;
    while i < n
        invariant
            n == s@.len(),
            i <= n,
            forall|j: int| 0 <= j < i ==> !is_whitespace(#[trigger] s@[j]),
        decreases n - i,
    {
        if is_whitespace_char(s[i]) {
            return false;
        }
        i += 1;
    }
    true
}

/// Whether `s` holds `c`.
pub fn has_char(s: &[char], c: char) -> (r: bool)
    ensures
        r == s@.contains(c),
{
    let at = find_char(s, 0, c);
    proof {
        assert(s@.skip(0) == s@);
        lemma_first_index(s@, c);
    }
    at < s.len()
}

/// The pieces of `s` between occurrences of `sep`, each as the pair of its
/// start and its end in `s`.
pub fn split_ranges(s: &[char], sep: char) -> (out: Vec<(usize, usize)>)
    ensures
        out@.len() == split(s@, sep).len(),
        forall|k: int|
            0 <= k < out@.len() ==> {
                &&& (#[trigger] out@[k]).0 <= out@[k].1 <= s@.len()
                &&& s@.subrange(out@[k].0 as int, out@[k].1 as int) == split(s@, sep)[k]
            },
{
    let n = s.len();
    let mut out: Vec<(usize, usize)> = Vec::new();
    let mut start: usize = 0;
    let mut done = false;
    proof {
        assert(s@.skip(0) == s@);
    }
    while !done
        invariant
            n == s@.len(),
            start <= n,
            !done ==> split(s@, sep) == Seq::new(
                out@.len(),
                |k: int| s@.subrange(out@[k].0 as int, out@[k].1 as int),
            ) + split(s@.skip(start as int), sep),
            done ==> split(s@, sep) == Seq::new(
                out@.len(),
                |k: int| s@.subrange(out@[k].0 as int, out@[k].1 as int),
            ),
            forall|k: int| 0 <= k < out@.len() ==> (#[trigger] out@[k]).0 <= out@[k].1 <= n,
        decreases (if done { 0int } else { n - start + 1 }),
    {
        let end = find_char(s, start, sep);
        let ghost before = Seq::new(
            out@.len(),
            |k: int| s@.subrange(out@[k].0 as int, out@[k].1 as int),
        );
        let ghost tail = s@.skip(start as int);
        out.push((start, end));
        let ghost after = Seq::new(
            out@.len(),
            |k: int| s@.subrange(out@[k].0 as int, out@[k].1 as int),
        );
        proof {
            assert(tail.take(end - start) == s@.subrange(start as int, end as int));
            assert(after == before + seq![s@.subrange(start as int, end as int)]);
        }
        if end == n {
            done = true;
        } else {
            proof {
                assert(tail.skip(end - start + 1) == s@.skip(end + 1));
            }
            start = end + 1;
        }
    }
    out
}

} // verus!
