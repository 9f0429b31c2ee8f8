//! The outcome of reading a text: the description that was assembled, and
//! the lines that did not go into it.

use crate::grammar::{SdpLine, SdpLineView};
use crate::model::{SessionDescription, SessionDescriptionView};
use vstd::prelude::*;

verus! {

/// What reading a text gave.
#[derive(Clone, Debug, PartialEq, Eq)]
pub struct ParseResult {
    /// The description assembled from the lines that were read and applied.
    pub desc: SessionDescription,
    /// The lines that were read but not applied, because they do not belong
    /// to the section in which they stand; in the order of the text.
    pub ignored_lines: Vec<SdpLine>,
    /// The lines that were not accepted; as they stand in the text and in
    /// its order.
    pub unparsed_lines: Vec<String>,
}

/// What the outcome of reading a text is.
pub struct ParseResultView {
    pub desc: SessionDescriptionView,
    pub ignored_lines: Seq<SdpLineView>,
    pub unparsed_lines: Seq<Seq<char>>,
}

impl View for ParseResult {
    type V = ParseResultView;

    open spec fn view(&self) -> ParseResultView {
        ParseResultView {
            desc: self.desc@,
            ignored_lines: self.ignored_lines@.map_values(|l: SdpLine| l@),
            unparsed_lines: self.unparsed_lines@.map_values(|s: String| s@),
        }
    }
}

impl ParseResultView {
    /// The outcome that holds an empty description and no line.
    pub open spec fn empty() -> ParseResultView {
        ParseResultView {
            desc: SessionDescriptionView::empty(),
            ignored_lines: Seq::empty(),
            unparsed_lines: Seq::empty(),
        }
    }
}

impl ParseResult {
    /// An outcome that holds an empty description and no line.
    pub fn new() -> (r: ParseResult)
        ensures
            r@ == ParseResultView::empty(),
    {
        let r = ParseResult {
            desc: SessionDescription::new(),
            ignored_lines: Vec::new(),
            unparsed_lines: Vec::new(),
        };
        assert(r@.ignored_lines == Seq::<SdpLineView>::empty());
        assert(r@.unparsed_lines == Seq::<Seq<char>>::empty());
        r
    }
}

} // verus!
