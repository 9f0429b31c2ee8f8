//! What holds of reading and writing as a whole.
//!
//! The statements are about the mathematical outcome of reading,
//! `sdp_value` and `report_of`, which is what `SessionDescription::from_sdp`
//! returns, and about the text `sdp_text`, which is what
//! `SessionDescription::render` returns.

use crate::assembler::{
    lemma_feed_all_concat, lemma_feed_all_frame, lemma_feed_all_in_session,
    lemma_feed_all_well_formed, lemma_feed_one, with_field, AssemblerView,
};
use crate::grammar::{
    is_known_tag, lemma_origin_line, lemma_unknown_tag, lemma_version_line, line_value,
    origin_line, rejected_lines, tag_of, version_line, SdpLineView,
};
use crate::model::{MediaDescription, SessionDescriptionView};
use crate::parse::{report_of, sdp_value};
use crate::render::sdp_text;
use crate::report::ParseResultView;
use crate::text::{lemma_lines_first, lemma_lines_hold_no_line_feed, lines};
use vstd::prelude::*;

verus! {

/// One input of the assembler: a line that was read, a line that was not
/// accepted, or the start of a media section.
pub enum Input {
    Field(SdpLineView),
    Unparsed(Seq<char>),
    MediaStart(MediaDescription),
}

/// The state after one input.
pub open spec fn after_input(state: AssemblerView, input: Input) -> AssemblerView {
    match input {
        Input::Field(field) => state.accept(field),
        Input::Unparsed(line) => state.reject(line),
        Input::MediaStart(media) => state.start_media(media),
    }
}

/// The state after the inputs `inputs`, taken in their order.
pub open spec fn after_inputs(state: AssemblerView, inputs: Seq<Input>) -> AssemblerView
    decreases inputs.len(),
{
    if inputs.len() == 0 {
        state
    } else {
        after_inputs(after_input(state, inputs[0]), inputs.drop_first())
    }
}

/// The lines among `inputs` that were read while a media section was open,
/// in their order; `in_media` says whether one is open at the start.
pub open spec fn ignored_among(inputs: Seq<Input>, in_media: bool) -> Seq<SdpLineView>
    decreases inputs.len(),
{
    if inputs.len() == 0 {
        Seq::empty()
    } else {
        let rest = inputs.drop_first();
        match inputs[0] {
            Input::Field(field) => if in_media {
                seq![field] + ignored_among(rest, true)
            } else {
                ignored_among(rest, false)
            },
            Input::Unparsed(_) => ignored_among(rest, in_media),
            Input::MediaStart(_) => ignored_among(rest, true),
        }
    }
}

/// The lines among `inputs` that were not accepted, in their order.
pub open spec fn unparsed_among(inputs: Seq<Input>) -> Seq<Seq<char>>
    decreases inputs.len(),
{
    if inputs.len() == 0 {
        Seq::empty()
    } else {
        let rest = inputs.drop_first();
        match inputs[0] {
            Input::Unparsed(line) => seq![line] + unparsed_among(rest),
            _ => unparsed_among(rest),
        }
    }
}

/// Round trip: a description that holds nothing but a protocol version and
/// a well-formed origin, either of which may be absent, is read back from
/// its text as it was, and no line of that text is set aside.
pub proof fn lemma_round_trip(d: SessionDescriptionView)
    requires
        d.only_version_and_origin(),
        d.wf(),
    ensures
        sdp_value(sdp_text(d)) == (ParseResultView {
            desc: d,
            ignored_lines: Seq::empty(),
            unparsed_lines: Seq::empty(),
        }),
{
    let none = Seq::<char>::empty();
    let start = AssemblerView::initial();
    assert(lines(none) == Seq::<Seq<char>>::empty());
    assert(d.session_information == Seq::<Seq<char>>::empty());
    assert(d.media == Seq::<MediaDescription>::empty());
    match (d.protocol_version, d.origin) {
        (Some(v), Some(o)) => {
            let vl = version_line(v);
            let ol = origin_line(o);
            lemma_version_line(v);
            lemma_origin_line(o);
            let rest = ol + seq!['\n'];
            assert(rest == ol + seq!['\n'] + none);
            lemma_lines_first(ol, none);
            assert(sdp_text(d) == vl + seq!['\n'] + rest);
            lemma_lines_first(vl, rest);
            let ls = lines(sdp_text(d));
            assert(ls == seq![vl, ol]);
            assert(ls.drop_first() == seq![ol]);
            assert(seq![ol].drop_first() == Seq::<Seq<char>>::empty());
            let s1 = start.feed(vl);
            let s2 = s1.feed(ol);
            assert(s2.feed_all(Seq::<Seq<char>>::empty()) == s2);
            assert(s1.feed_all(seq![ol]) == s2);
            assert(start.feed_all(ls) == s2);
            assert(s2.desc == d);
        },
        (Some(v), None) => {
            let vl = version_line(v);
            lemma_version_line(v);
            assert(sdp_text(d) == vl + seq!['\n'] + none);
            lemma_lines_first(vl, none);
            let ls = lines(sdp_text(d));
            assert(ls == seq![vl]);
            assert(ls.drop_first() == Seq::<Seq<char>>::empty());
            let s1 = start.feed(vl);
            assert(s1.feed_all(Seq::<Seq<char>>::empty()) == s1);
            assert(start.feed_all(ls) == s1);
            assert(s1.desc == d);
        },
        (None, Some(o)) => {
            let ol = origin_line(o);
            lemma_origin_line(o);
            assert(sdp_text(d) == ol + seq!['\n'] + none);
            lemma_lines_first(ol, none);
            let ls = lines(sdp_text(d));
            assert(ls == seq![ol]);
            assert(ls.drop_first() == Seq::<Seq<char>>::empty());
            let s1 = start.feed(ol);
            assert(s1.feed_all(Seq::<Seq<char>>::empty()) == s1);
            assert(start.feed_all(ls) == s1);
            assert(s1.desc == d);
        },
        (None, None) => {
            assert(sdp_text(d) == none);
            assert(start.desc == d);
        },
    }
}

/// A line with a tag that is not known goes to the unparsed lines and
/// changes nothing else, in whatever state it arrives.
pub proof fn lemma_unknown_tag_is_unparsed(state: AssemblerView, line: Seq<char>)
    requires
        !is_known_tag(tag_of(line)),
    ensures
        state.feed(line) == (AssemblerView {
            unparsed_lines: state.unparsed_lines.push(line),
            ..state
        }),
{
    lemma_unknown_tag(line);
}

/// A line with a tag that is not known, anywhere among the lines of a text,
/// stands among the unparsed lines at its place, and the description is the
/// one that the other lines give without it.
pub proof fn lemma_unknown_tag_line(
    before: Seq<Seq<char>>,
    line: Seq<char>,
    after: Seq<Seq<char>>,
)
    requires
        !is_known_tag(tag_of(line)),
    ensures
        report_of(before + seq![line] + after).desc == report_of(before + after).desc,
        report_of(before + seq![line] + after).ignored_lines == report_of(
            before + after,
        ).ignored_lines,
        report_of(before + seq![line] + after).unparsed_lines == rejected_lines(before).push(line)
            + rejected_lines(after),
{
    let start = AssemblerView::initial();
    let mid = start.feed_all(before);
    lemma_unknown_tag(line);
    lemma_feed_all_concat(start, before + seq![line], after);
    lemma_feed_all_concat(start, before, seq![line]);
    lemma_feed_all_concat(start, before, after);
    lemma_feed_one(mid, line);
    lemma_feed_all_frame(mid.feed(line), mid, after);
    lemma_feed_all_in_session(start, before);
    lemma_feed_all_in_session(mid.feed(line), after);
    assert(start.unparsed_lines + rejected_lines(before) == rejected_lines(before));
}

/// Once a media section is open, the assembler stays in a media section
/// whatever comes.
pub proof fn lemma_media_section_persists(state: AssemblerView, inputs: Seq<Input>)
    requires
        state.context is Media,
    ensures
        after_inputs(state, inputs).context is Media,
    decreases inputs.len(),
{
    if inputs.len() > 0 {
        lemma_media_section_persists(after_input(state, inputs[0]), inputs.drop_first());
    }
}

/// Context gating: after the start of a media section, and whatever inputs
/// follow it, a line that the grammar has read is put at the end of the
/// ignored lines, and the description, the open media record and the
/// unparsed lines stay as they are.
pub proof fn lemma_context_gating(
    state: AssemblerView,
    media: MediaDescription,
    inputs: Seq<Input>,
    field: SdpLineView,
)
    ensures
        ({
            let then = after_inputs(state.start_media(media), inputs);
            then.accept(field) == (AssemblerView {
                ignored_lines: then.ignored_lines.push(field),
                ..then
            })
        }),
{
    lemma_media_section_persists(state.start_media(media), inputs);
}

/// Order in the assembler: whatever the inputs, the lines set aside grow at
/// their end only. The ignored lines gain the lines read while a media
/// section was open, the unparsed lines gain the lines that were not
/// accepted, each in the order of the inputs.
pub proof fn lemma_inputs_in_order(state: AssemblerView, inputs: Seq<Input>)
    ensures
        after_inputs(state, inputs).ignored_lines == state.ignored_lines + ignored_among(
            inputs,
            state.context is Media,
        ),
        after_inputs(state, inputs).unparsed_lines == state.unparsed_lines + unparsed_among(
            inputs,
        ),
    decreases inputs.len(),
{
    if inputs.len() > 0 {
        lemma_inputs_in_order(after_input(state, inputs[0]), inputs.drop_first());
    }
}

/// In a text, every line that the grammar reads is applied to the
/// description as it is at that point, and none is set aside as ignored: the
/// lines of a text never open a media section.
pub proof fn lemma_fields_apply(lines: Seq<Seq<char>>, line: Seq<char>)
    ensures
        report_of(lines).ignored_lines == Seq::<SdpLineView>::empty(),
        line_value(line) matches Ok(field) ==> report_of(lines.push(line)).desc == with_field(
            report_of(lines).desc,
            field,
        ),
{
    let start = AssemblerView::initial();
    let mid = start.feed_all(lines);
    lemma_feed_all_in_session(start, lines);
    assert(lines.push(line) == lines + seq![line]);
    lemma_feed_all_concat(start, lines, seq![line]);
    lemma_feed_one(mid, line);
}

/// Order: the unparsed lines of a text are those of its lines that the
/// grammar does not accept, in the order of the text, and no line is set
/// aside as ignored.
pub proof fn lemma_lines_in_order(text: Seq<char>)
    ensures
        sdp_value(text).unparsed_lines == rejected_lines(lines(text)),
        sdp_value(text).ignored_lines == Seq::<SdpLineView>::empty(),
{
    let start = AssemblerView::initial();
    lemma_feed_all_in_session(start, lines(text));
    assert(start.unparsed_lines + rejected_lines(lines(text)) == rejected_lines(lines(text)));
}

/// What was read can be written: the description read from any text holds
/// nothing but a protocol version and an origin, and its origin is well
/// formed.
pub proof fn lemma_read_is_well_formed(text: Seq<char>)
    ensures
        sdp_value(text).desc.only_version_and_origin(),
        sdp_value(text).desc.wf(),
{
    let start = AssemblerView::initial();
    lemma_lines_hold_no_line_feed(text);
    lemma_feed_all_well_formed(start, lines(text));
    lemma_feed_all_in_session(start, lines(text));
}

/// Reading is stable: the description read from any text is read back from
/// its own text as it is.
pub proof fn lemma_read_write_read(text: Seq<char>)
    ensures
        sdp_value(sdp_text(sdp_value(text).desc)).desc == sdp_value(text).desc,
{
    lemma_read_is_well_formed(text);
    lemma_round_trip(sdp_value(text).desc);
}

/// The empty text gives the empty outcome.
pub proof fn lemma_empty_text()
    ensures
        sdp_value(Seq::<char>::empty()) == ParseResultView::empty(),
{
    assert(lines(Seq::<char>::empty()) == Seq::<Seq<char>>::empty());
}

} // verus!
