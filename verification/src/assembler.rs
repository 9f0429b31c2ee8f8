//! The assembler: a state machine that takes the lines of a text one by one
//! and builds the description.
//!
//! The assembler is in the session section until a media section is opened,
//! and in a media section from then on. Every line that the grammar reads
//! belongs to the session section: in the session section such a line is
//! applied to the description, and a later line of the same kind replaces an
//! earlier one; in a media section it is set aside as ignored. A line that
//! the grammar does not accept is set aside as unparsed. Nothing stops the
//! assembler: every input moves it to a next state.

use crate::grammar::{
    is_rejected, lemma_line_value_wf, line_value, parse_line, rejected_lines, SdpLine,
    SdpLineView,
};
use crate::model::{MediaDescription, SessionDescriptionView};
use crate::report::{ParseResult, ParseResultView};
use vstd::prelude::*;
use vstd::string::*;

verus! {

/// The section that the assembler is in.
#[derive(Clone, Copy, Debug, PartialEq, Eq)]
pub enum Context {
    /// The session section, before any media section.
    Session,
    /// A media section. Its record is open: it joins the description when
    /// the next media section opens or the text ends.
    Media(MediaDescription),
}

/// The state of the assembler.
pub struct Assembler {
    context: Context,
    report: ParseResult,
}

/// What the state of the assembler is.
pub struct AssemblerView {
    pub context: Context,
    pub desc: SessionDescriptionView,
    pub ignored_lines: Seq<SdpLineView>,
    pub unparsed_lines: Seq<Seq<char>>,
}

impl View for Assembler {
    type V = AssemblerView;

    closed spec fn view(&self) -> AssemblerView {
        AssemblerView {
            context: self.context,
            desc: self.report@.desc,
            ignored_lines: self.report@.ignored_lines,
            unparsed_lines: self.report@.unparsed_lines,
        }
    }
}

/// The description `desc` with the media record `media` after its others.
pub open spec fn with_media(
    desc: SessionDescriptionView,
    media: MediaDescription,
) -> SessionDescriptionView {
    SessionDescriptionView { media: desc.media.push(media), ..desc }
}

/// The description `desc` with the field that `field` holds set to its
/// value, in place of what was there.
pub open spec fn with_field(
    desc: SessionDescriptionView,
    field: SdpLineView,
) -> SessionDescriptionView {
    match field {
        SdpLineView::ProtocolVersion(v) => SessionDescriptionView {
            protocol_version: Some(v),
            ..desc
        },
        SdpLineView::Origin(o) => SessionDescriptionView { origin: Some(o), ..desc },
    }
}

/// The description `desc` with the record of the section `context`, if it
/// is a media section, after its other media records.
pub open spec fn sealed(desc: SessionDescriptionView, context: Context) -> SessionDescriptionView {
    match context {
        Context::Session => desc,
        Context::Media(media) => with_media(desc, media),
    }
}

impl AssemblerView {
    /// The state before any line: the session section, an empty description
    /// and no line set aside.
    pub open spec fn initial() -> AssemblerView {
        AssemblerView {
            context: Context::Session,
            desc: SessionDescriptionView::empty(),
            ignored_lines: Seq::empty(),
            unparsed_lines: Seq::empty(),
        }
    }

    /// The state after a line that the grammar has read.
    pub open spec fn accept(self, field: SdpLineView) -> AssemblerView {
        match self.context {
            Context::Session => AssemblerView { desc: with_field(self.desc, field), ..self },
            Context::Media(_) => AssemblerView {
                ignored_lines: self.ignored_lines.push(field),
                ..self
            },
        }
    }

    /// The state after a line that the grammar has not accepted.
    pub open spec fn reject(self, line: Seq<char>) -> AssemblerView {
        AssemblerView { unparsed_lines: self.unparsed_lines.push(line), ..self }
    }

    /// The state after the start of a media section: the record of the
    /// section that was open joins the description, and `media` is the open
    /// record from now on.
    pub open spec fn start_media(self, media: MediaDescription) -> AssemblerView {
        AssemblerView {
            context: Context::Media(media),
            desc: sealed(self.desc, self.context),
            ..self
        }
    }

    /// The state after the line `line`, given without its terminator.
    pub open spec fn feed(self, line: Seq<char>) -> AssemblerView {
        match line_value(line) {
            Ok(field) => self.accept(field),
            Err(_) => self.reject(line),
        }
    }

    /// The state after the lines `lines`, taken in their order.
    pub open spec fn feed_all(self, lines: Seq<Seq<char>>) -> AssemblerView
        decreases lines.len(),
    {
        if lines.len() == 0 {
            self
        } else {
            self.feed(lines[0]).feed_all(lines.drop_first())
        }
    }

    /// The outcome at the end of the text: the record of an open media
    /// section joins the description.
    pub open spec fn finish(self) -> ParseResultView {
        ParseResultView {
            desc: sealed(self.desc, self.context),
            ignored_lines: self.ignored_lines,
            unparsed_lines: self.unparsed_lines,
        }
    }
}

/// Feeding a run of one line is feeding that line.
pub proof fn lemma_feed_one(state: AssemblerView, line: Seq<char>)
    ensures
        state.feed_all(seq![line]) == state.feed(line),
{
    assert(seq![line].drop_first() == Seq::<Seq<char>>::empty());
    assert(state.feed(line).feed_all(Seq::<Seq<char>>::empty()) == state.feed(line));
}

/// Feeding two runs of lines one after the other is feeding them as one run.
pub proof fn lemma_feed_all_concat(state: AssemblerView, a: Seq<Seq<char>>, b: Seq<Seq<char>>)
    ensures
        state.feed_all(a + b) == state.feed_all(a).feed_all(b),
    decreases a.len(),
{
    if a.len() == 0 {
        assert(a + b == b);
    } else {
        assert((a + b)[0] == a[0]);
        assert((a + b).drop_first() == a.drop_first() + b);
        lemma_feed_all_concat(state.feed(a[0]), a.drop_first(), b);
    }
}

/// Feeding lines never leaves the session section, sets no line aside as
/// ignored there, and adds to the unparsed lines those that the grammar does
/// not accept, in their order.
pub proof fn lemma_feed_all_in_session(state: AssemblerView, lines: Seq<Seq<char>>)
    requires
        state.context is Session,
    ensures
        state.feed_all(lines).context is Session,
        state.feed_all(lines).ignored_lines == state.ignored_lines,
        state.feed_all(lines).unparsed_lines == state.unparsed_lines + rejected_lines(lines),
    decreases lines.len(),
{
    let pred = |line: Seq<char>| is_rejected(line);
    if lines.len() == 0 {
        assert(lines.filter(pred) == Seq::<Seq<char>>::empty()) by {
            reveal(Seq::filter);
        }
    } else {
        let front = lines.drop_last();
        let last = lines.last();
        assert(lines == front.push(last));
        assert(front.push(last) == front + seq![last]);
        lemma_feed_all_in_session(state, front);
        lemma_feed_all_concat(state, front, seq![last]);
        let mid = state.feed_all(front);
        lemma_feed_one(mid, last);
        front.lemma_filter_push(last, pred);
    }
}

/// In the session section, lines without a line feed leave the description
/// well formed and with nothing set but protocol version and origin, if it
/// was so before.
pub proof fn lemma_feed_all_well_formed(state: AssemblerView, lines: Seq<Seq<char>>)
    requires
        state.context is Session,
        state.desc.wf(),
        state.desc.only_version_and_origin(),
        forall|k: int| 0 <= k < lines.len() ==> !(#[trigger] lines[k]).contains('\n'),
    ensures
        state.feed_all(lines).desc.wf(),
        state.feed_all(lines).desc.only_version_and_origin(),
    decreases lines.len(),
{
    if lines.len() > 0 {
        let rest = lines.drop_first();
        lemma_line_value_wf(lines[0]);
        assert forall|k: int| 0 <= k < rest.len() implies !(#[trigger] rest[k]).contains('\n') by {
            assert(rest[k] == lines[k + 1]);
        }
        lemma_feed_all_well_formed(state.feed(lines[0]), rest);
    }
}

/// Two states that agree but for their unparsed lines still agree so after
/// the same lines.
pub proof fn lemma_feed_all_frame(a: AssemblerView, b: AssemblerView, lines: Seq<Seq<char>>)
    requires
        a.context == b.context,
        a.desc == b.desc,
        a.ignored_lines == b.ignored_lines,
    ensures
        a.feed_all(lines).context == b.feed_all(lines).context,
        a.feed_all(lines).desc == b.feed_all(lines).desc,
        a.feed_all(lines).ignored_lines == b.feed_all(lines).ignored_lines,
    decreases lines.len(),
{
    if lines.len() > 0 {
        lemma_feed_all_frame(a.feed(lines[0]), b.feed(lines[0]), lines.drop_first());
    }
}

impl Assembler {
    /// An assembler in its initial state.
    pub fn new() -> (r: Assembler)
        ensures
            r@ == AssemblerView::initial(),
    {
        Assembler { context: Context::Session, report: ParseResult::new() }
    }

    /// The section that the assembler is in.
    pub fn context(&self) -> (r: Context)
        ensures
            r == self@.context,
    {
        self.context
    }

    /// Takes a line that the grammar has read.
    pub fn accept(&mut self, field: SdpLine)
        ensures
            final(self)@ == old(self)@.accept(field@),
    {
        match self.context {
            Context::Session => {
                match field {
                    SdpLine::ProtocolVersion(v) => {
                        self.report.desc.protocol_version = Some(v);
                    },
                    SdpLine::Origin(o) => {
                        self.report.desc.origin = Some(o);
                    },
                }
            },
            Context::Media(_) => {
                self.report.ignored_lines.push(field);
                assert(self@.ignored_lines == old(self)@.ignored_lines.push(field@));
            },
        }
    }

    /// Takes a line that the grammar has not accepted.
    pub fn reject(&mut self, line: String)
        ensures
            final(self)@ == old(self)@.reject(line@),
    {
        self.report.unparsed_lines.push(line);
        assert(self@.unparsed_lines == old(self)@.unparsed_lines.push(line@));
    }

    /// Opens a media section with the record `media`.
    pub fn start_media(&mut self, media: MediaDescription)
        ensures
            final(self)@ == old(self)@.start_media(media),
    {
        match self.context {
            Context::Session => {},
            Context::Media(open) => {
                self.report.desc.media.push(open);
            },
        }
        self.context = Context::Media(media);
    }

    /// Reads the line `line`, given without its terminator, and takes it.
    pub fn feed(&mut self, line: &str)
        ensures
            final(self)@ == old(self)@.feed(line@),
    {
        match parse_line(line) {
            Ok(field) => {
                self.accept(field);
            },
            Err(_) => {
                self.reject(String::from_str(line));
            },
        }
    }

    /// Ends the text and hands out the outcome.
    pub fn finish(self) -> (r: ParseResult)
        ensures
            r@ == self@.finish(),
    {
        let mut report = self.report;
        match self.context {
            Context::Session => {},
            Context::Media(open) => {
                report.desc.media.push(open);
            },
        }
        report
    }
}

} // verus!
