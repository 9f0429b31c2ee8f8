//! Reading a whole text.
//!
//! The text is cut into lines, and the lines go through the assembler in
//! their order. No text is refused: a line that does not fit is reported in
//! the outcome, and the lines around it are read as if it were not there.

use crate::assembler::{
    lemma_feed_all_in_session, lemma_feed_all_well_formed, Assembler, AssemblerView,
};
use crate::grammar::rejected_lines;
use crate::model::SessionDescription;
use crate::report::{ParseResult, ParseResultView};
use crate::text::{
    find_char, lemma_lines_hold_no_line_feed, lines, to_chars, without_trailing_cr,
};
use vstd::prelude::*;
use vstd::string::*;

verus! {

/// The outcome of reading the lines `lines`, in their order, from the
/// initial state.
pub open spec fn report_of(lines: Seq<Seq<char>>) -> ParseResultView {
    AssemblerView::initial().feed_all(lines).finish()
}

/// The outcome of reading the text `text`.
pub open spec fn sdp_value(text: Seq<char>) -> ParseResultView {
    report_of(lines(text))
}

impl SessionDescription {
    /// Reads a description from the text `sdp`. A line ends at a line feed,
    /// or at a carriage return directly followed by a line feed; an empty
    /// line is read as any other, and is not accepted.
    ///
    /// The outcome is the one that the assembler reaches from its initial
    /// state over the lines of the text. No line is set aside as ignored,
    /// the unparsed lines are the lines that the grammar does not accept,
    /// and the description can be written and read back.
    pub fn from_sdp(sdp: &str) -> (r: ParseResult)
        ensures
            r@ == sdp_value(sdp@),
            r@.ignored_lines.len() == 0,
            r@.unparsed_lines == rejected_lines(lines(sdp@)),
            r@.desc.only_version_and_origin(),
            r@.desc.wf(),
    {
        let chars = to_chars(sdp);
        let s = chars.as_slice();
        let n = s.len();
        let mut machine = Assembler::new();
        let mut pos: usize = 0;
        proof {
            assert(s@.skip(0) == s@);
        }
        while pos < n
            invariant
                n == s@.len(),
                pos <= n,
                s@ == sdp@,
                machine@.feed_all(lines(s@.skip(pos as int))) == AssemblerView::initial().feed_all(
                    lines(s@),
                ),
            decreases n - pos,
        {
            let ghost rest = s@.skip(pos as int);
            let ghost before = machine@;
            let newline = find_char(s, pos, '\n');
            if newline == n {
                proof {
                    assert(sdp@.subrange(pos as int, n as int) == rest);
                    assert(lines(rest) == seq![rest]);
                    assert(lines(rest).drop_first() == Seq::<Seq<char>>::empty());
                    assert(s@.skip(n as int) == Seq::<char>::empty());
                }
                machine.feed(sdp.substring_char(pos, n));
                pos = n;
            } else {
                let end = if newline > pos && s[newline - 1] == '\r' {
                    newline - 1
                } else {
                    newline
                };
                proof {
                    let whole = rest.take(newline - pos);
                    assert(whole == sdp@.subrange(pos as int, newline as int));
                    assert(sdp@.subrange(pos as int, end as int) == without_trailing_cr(whole));
                    assert(rest.skip(newline - pos + 1) == s@.skip(newline + 1));
                    assert(lines(rest) == seq![without_trailing_cr(whole)] + lines(
                        s@.skip(newline + 1),
                    ));
                    assert(lines(rest).drop_first() == lines(s@.skip(newline + 1)));
                }
                machine.feed(sdp.substring_char(pos, end));
                pos = newline + 1;
            }
        }
        proof {
            assert(s@.skip(n as int) == Seq::<char>::empty());
            lemma_feed_all_in_session(AssemblerView::initial(), lines(sdp@));
            lemma_lines_hold_no_line_feed(sdp@);
            lemma_feed_all_well_formed(AssemblerView::initial(), lines(sdp@));
            assert(Seq::<Seq<char>>::empty() + rejected_lines(lines(sdp@)) == rejected_lines(
                lines(sdp@),
            ));
        }
        machine.finish()
    }
}

} // verus!
