//! The grammar of single lines.
//!
//! A line is a tag, an equals sign and a value. Two tags are known: `v` for
//! the protocol version and `o` for the origin. Reading a line never fails
//! the caller: a line that does not fit gives the reason as an error value.

use crate::address::{ip_text, ip_value, lemma_ip_text, lemma_ip_value_wf, IpAddr, IpAddrView};
use crate::ipv6::is_address_char;
use crate::model::{is_username, Origin, OriginView};
use crate::number::{
    i32_value, i64_value, is_decimal_digit, lemma_signed_text, parse_i32, parse_i64, signed_text,
};
use crate::text::{
    find_char, first_index, is_free_of_whitespace, is_whitespace, join, lemma_first_index,
    lemma_first_index_unique, lemma_holds_none, lemma_join_chars, lemma_join_push,
    lemma_split_join, lemma_split_keeps_out, lemma_split_pieces, split, split_ranges, to_chars,
};
use vstd::prelude::*;
use vstd::slice::slice_subrange;
use vstd::string::*;

verus! {

/// Why the value of an origin line was not accepted. The reasons are tested
/// in the order in which they stand here.
#[derive(Clone, Copy, Debug, PartialEq, Eq)]
pub enum OriginError {
    /// The value is not made of exactly six items with one space between
    /// neighbours.
    FieldCount,
    /// The user name is empty or holds white space.
    Username,
    /// The session version is not an integer of 64 bits.
    SessionVersion,
    /// The address type is neither `IP4` nor `IP6`.
    AddressType,
    /// The address is not the text of an address.
    Address,
    /// The address is of another family than the address type names.
    FamilyMismatch,
}

/// Why a line was not accepted. The reasons are tested in the order in which
/// they stand here.
#[derive(Clone, Copy, Debug, PartialEq, Eq)]
pub enum LineError {
    /// The line holds no equals sign.
    NoSeparator,
    /// Nothing stands before the first equals sign.
    EmptyTag,
    /// Nothing stands after the first equals sign.
    EmptyValue,
    /// The tag is not one that this library reads.
    UnknownTag,
    /// The value of a `v` line is not an integer of 32 bits.
    InvalidVersion,
    /// The value of an `o` line is not an origin.
    InvalidOrigin(OriginError),
}

/// A line that was read: its tag decides the variant, its value is held in
/// typed form.
#[derive(Clone, Debug, PartialEq, Eq)]
pub enum SdpLine {
    ProtocolVersion(i32),
    Origin(Origin),
}

/// What a line that was read is.
pub enum SdpLineView {
    ProtocolVersion(i32),
    Origin(OriginView),
}

impl View for SdpLine {
    type V = SdpLineView;

    open spec fn view(&self) -> SdpLineView {
        match self {
            SdpLine::ProtocolVersion(v) => SdpLineView::ProtocolVersion(*v),
            SdpLine::Origin(o) => SdpLineView::Origin(o@),
        }
    }
}

/// The address type `IP4`.
pub open spec fn ip4_tag() -> Seq<char> {
    seq!['I', 'P', '4']
}

/// The address type `IP6`.
pub open spec fn ip6_tag() -> Seq<char> {
    seq!['I', 'P', '6']
}

/// The address type that goes with an address.
pub open spec fn family_tag(a: IpAddrView) -> Seq<char> {
    match a {
        IpAddrView::V4(_) => ip4_tag(),
        IpAddrView::V6(_) => ip6_tag(),
    }
}

/// The origin that the value `s` of an `o` line writes, or the reason why it
/// writes none. The six items are user name, session identifier, session
/// version, network type, address type and address. The network type is not
/// examined.
///
/// The definition is opaque: a proof that needs it reveals it.
#[verifier::opaque]
pub open spec fn origin_value(s: Seq<char>) -> Result<OriginView, OriginError> {
    let items = split(s, ' ');
    if items.len() != 6 {
        Err(OriginError::FieldCount)
    } else if !is_username(items[0]) {
        Err(OriginError::Username)
    } else if i64_value(items[2]) is None {
        Err(OriginError::SessionVersion)
    } else if items[4] != ip4_tag() && items[4] != ip6_tag() {
        Err(OriginError::AddressType)
    } else {
        match ip_value(items[5]) {
            None => Err(OriginError::Address),
            Some(a) => if items[4] != family_tag(a) {
                Err(OriginError::FamilyMismatch)
            } else {
                Ok(
                    OriginView {
                        username: items[0],
                        session_id: items[1],
                        session_version: i64_value(items[2]).unwrap(),
                        ip_address: a,
                    },
                )
            },
        }
    }
}

/// The six items of the line of an origin. The network type is always `IN`.
pub open spec fn origin_items(o: OriginView) -> Seq<Seq<char>> {
    seq![
        o.username,
        o.session_id,
        signed_text(o.session_version as int),
        seq!['I', 'N'],
        family_tag(o.ip_address),
        ip_text(o.ip_address),
    ]
}

/// The value of the `o` line of an origin.
pub open spec fn origin_text(o: OriginView) -> Seq<char> {
    join(origin_items(o), ' ')
}

/// What stands before the first equals sign of a line; the whole line where
/// it holds none.
pub open spec fn tag_of(line: Seq<char>) -> Seq<char> {
    line.take(first_index(line, '=') as int)
}

/// What stands after the first equals sign of a line.
pub open spec fn value_of(line: Seq<char>) -> Seq<char> {
    line.skip(first_index(line, '=') as int + 1)
}

/// Whether `tag` is one of the tags that this library reads.
pub open spec fn is_known_tag(tag: Seq<char>) -> bool {
    tag == seq!['v'] || tag == seq!['o']
}

/// What the line writes, or the reason why it is not accepted. The line is
/// cut at its first equals sign; tag and value must not be empty.
pub open spec fn line_value(line: Seq<char>) -> Result<SdpLineView, LineError> {
    let tag = tag_of(line);
    let value = value_of(line);
    if tag.len() == line.len() {
        Err(LineError::NoSeparator)
    } else if tag.len() == 0 {
        Err(LineError::EmptyTag)
    } else if value.len() == 0 {
        Err(LineError::EmptyValue)
    } else if tag == seq!['v'] {
        match i32_value(value) {
            Some(v) => Ok(SdpLineView::ProtocolVersion(v)),
            None => Err(LineError::InvalidVersion),
        }
    } else if tag == seq!['o'] {
        match origin_value(value) {
            Ok(o) => Ok(SdpLineView::Origin(o)),
            Err(e) => Err(LineError::InvalidOrigin(e)),
        }
    } else {
        Err(LineError::UnknownTag)
    }
}

/// Whether the grammar does not accept the line.
pub open spec fn is_rejected(line: Seq<char>) -> bool {
    line_value(line) is Err
}

/// The lines among `lines` that the grammar does not accept, in their order.
pub open spec fn rejected_lines(lines: Seq<Seq<char>>) -> Seq<Seq<char>> {
    lines.filter(|line: Seq<char>| is_rejected(line))
}

/// The line that writes a protocol version.
pub open spec fn version_line(v: i32) -> Seq<char> {
    seq!['v', '='] + signed_text(v as int)
}

/// The line that writes an origin.
pub open spec fn origin_line(o: OriginView) -> Seq<char> {
    seq!['o', '='] + origin_text(o)
}

/// Reading the value of the line of an origin gives the origin back.
pub proof fn lemma_origin_text(o: OriginView)
    requires
        o.wf(),
    ensures
        origin_value(origin_text(o)) == Ok::<OriginView, OriginError>(o),
        origin_text(o).len() > 0,
        !origin_text(o).contains('\n'),
        origin_text(o).last() != '\r',
{
    reveal(origin_value);
    let items = origin_items(o);
    let t = origin_text(o);
    let version = signed_text(o.session_version as int);
    let address = ip_text(o.ip_address);
    lemma_signed_text(o.session_version as int);
    lemma_ip_text(o.ip_address);
    let in_username = |c: char| !is_whitespace(c);
    let in_version = |c: char| c == '-' || is_decimal_digit(c);
    let in_address = |c: char| is_address_char(c);
    lemma_holds_none(o.username, in_username, ' ');
    lemma_holds_none(o.username, in_username, '\n');
    lemma_holds_none(version, in_version, ' ');
    lemma_holds_none(version, in_version, '\n');
    lemma_holds_none(address, in_address, ' ');
    lemma_holds_none(address, in_address, '\n');
    assert(!items[3].contains(' ') && !items[3].contains('\n'));
    assert(!items[4].contains(' ') && !items[4].contains('\n'));
    assert forall|k: int| 0 <= k < items.len() implies !(#[trigger] items[k]).contains(' ') by {}
    lemma_split_join(items, ' ');
    assert(ip4_tag() != ip6_tag()) by {
        assert(ip4_tag()[2] != ip6_tag()[2]);
    }
    let allowed = |c: char| c != '\n';
    assert forall|k: int, i: int| 0 <= k < items.len() && 0 <= i < items[k].len() implies allowed(
        #[trigger] items[k][i],
    ) by {
        assert(items[k].contains(items[k][i]));
    }
    lemma_join_chars(items, ' ', allowed);
    assert(!t.contains('\n'));
    lemma_join_push(items.take(5), items[5], ' ');
    assert(items.take(5).push(items[5]) == items);
    assert(t == join(items.take(5), ' ') + seq![' '] + address);
    assert(t.last() == address.last());
    assert(is_address_char(address[address.len() - 1]));
}

/// Reading the line of a protocol version gives the version back.
pub proof fn lemma_version_line(v: i32)
    ensures
        line_value(version_line(v)) == Ok::<SdpLineView, LineError>(
            SdpLineView::ProtocolVersion(v),
        ),
        !version_line(v).contains('\n'),
        version_line(v).last() != '\r',
{
    let line = version_line(v);
    let value = signed_text(v as int);
    lemma_signed_text(v as int);
    lemma_first_index_unique(line, '=', 1);
    assert(line.take(1) == seq!['v']);
    assert(line.skip(2) == value);
    assert(line.last() == value.last());
    if line.contains('\n') {
        let j = choose|j: int| 0 <= j < line.len() && line[j] == '\n';
        if j >= 2 {
            assert(line[j] == value[j - 2]);
        }
    }
}

/// Reading the line of an origin gives the origin back.
pub proof fn lemma_origin_line(o: OriginView)
    requires
        o.wf(),
    ensures
        line_value(origin_line(o)) == Ok::<SdpLineView, LineError>(SdpLineView::Origin(o)),
        !origin_line(o).contains('\n'),
        origin_line(o).last() != '\r',
{
    let line = origin_line(o);
    let value = origin_text(o);
    lemma_origin_text(o);
    lemma_first_index_unique(line, '=', 1);
    assert(line.take(1) == seq!['o']);
    assert(line.skip(2) == value);
    assert(line.last() == value.last());
    assert(seq!['o'] != seq!['v']) by {
        assert(seq!['o'][0] != seq!['v'][0]);
    }
    if line.contains('\n') {
        let j = choose|j: int| 0 <= j < line.len() && line[j] == '\n';
        if j >= 2 {
            assert(line[j] == value[j - 2]);
            assert(value.contains(value[j - 2]));
        }
    }
}

/// An origin that was read from a value without a line feed is well formed.
pub proof fn lemma_origin_value_wf(s: Seq<char>)
    requires
        !s.contains('\n'),
    ensures
        origin_value(s) matches Ok(o) ==> o.wf(),
{
    reveal(origin_value);
    let items = split(s, ' ');
    if items.len() == 6 {
        lemma_split_pieces(s, ' ');
        lemma_split_keeps_out(s, ' ', '\n');
        lemma_ip_value_wf(items[5]);
    }
}

/// An origin that was read from a line without a line feed is well formed.
pub proof fn lemma_line_value_wf(line: Seq<char>)
    requires
        !line.contains('\n'),
    ensures
        line_value(line) matches Ok(SdpLineView::Origin(o)) ==> o.wf(),
{
    lemma_first_index(line, '=');
    let eq = first_index(line, '=');
    let value = value_of(line);
    if eq < line.len() {
        if value.contains('\n') {
            let j = choose|j: int| 0 <= j < value.len() && value[j] == '\n';
            assert(line[j + eq + 1] == '\n');
        }
        lemma_origin_value_wf(value);
    }
}

/// A line whose tag is not known is not accepted, whatever its value.
pub proof fn lemma_unknown_tag(line: Seq<char>)
    requires
        !is_known_tag(tag_of(line)),
    ensures
        line_value(line) is Err,
{
}

/// Whether `s` is the address type `IP4`.
fn is_ip4(s: &[char]) -> (r: bool)
    ensures
        r == (s@ == ip4_tag()),
{
    let r = s.len() == 3 && s[0] == 'I' && s[1] == 'P' && s[2] == '4';
    assert(r == (s@ =~= ip4_tag()));
    r
}

/// Whether `s` is the address type `IP6`.
fn is_ip6(s: &[char]) -> (r: bool)
    ensures
        r == (s@ == ip6_tag()),
{
    let r = s.len() == 3 && s[0] == 'I' && s[1] == 'P' && s[2] == '6';
    assert(r == (s@ =~= ip6_tag()));
    r
}

/// Reads the value of an `o` line.
pub fn parse_origin(text: &str) -> (r: Result<Origin, OriginError>)
    ensures
        match r {
            Ok(o) => origin_value(text@) == Ok::<OriginView, OriginError>(o@),
            Err(e) => origin_value(text@) == Err::<OriginView, OriginError>(e),
        },
{
    proof {
        reveal(origin_value);
    }
    let chars = to_chars(text);
    let s = chars.as_slice();
    let ranges = split_ranges(s, ' ');
    if ranges.len() != 6 {
        return Err(OriginError::FieldCount);
    }
    let ghost items = split(s@, ' ');
    let (name_from, name_to) = ranges[0];
    let (id_from, id_to) = ranges[1];
    let (version_from, version_to) = ranges[2];
    let (type_from, type_to) = ranges[4];
    let (address_from, address_to) = ranges[5];
    if name_from == name_to || !is_free_of_whitespace(slice_subrange(s, name_from, name_to)) {
        return Err(OriginError::Username);
    }
    let session_version = match parse_i64(slice_subrange(s, version_from, version_to)) {
        Some(v) => v,
        None => {
            return Err(OriginError::SessionVersion);
        },
    };
    let address_type = slice_subrange(s, type_from, type_to);
    let v4_named = is_ip4(address_type);
    if !v4_named && !is_ip6(address_type) {
        return Err(OriginError::AddressType);
    }
    let ip_address = match IpAddr::from_chars(slice_subrange(s, address_from, address_to)) {
        Some(a) => a,
        None => {
            return Err(OriginError::Address);
        },
    };
    proof {
        assert(ip4_tag() != ip6_tag()) by {
            assert(ip4_tag()[2] != ip6_tag()[2]);
        }
    }
    if ip_address.is_ipv4() != v4_named {
        return Err(OriginError::FamilyMismatch);
    }
    let username = String::from_str(text.substring_char(name_from, name_to));
    let session_id = String::from_str(text.substring_char(id_from, id_to));
    Ok(Origin { username, session_id, session_version, ip_address })
}

/// Reads one line, without its terminator.
pub fn parse_line(line: &str) -> (r: Result<SdpLine, LineError>)
    ensures
        match r {
            Ok(l) => line_value(line@) == Ok::<SdpLineView, LineError>(l@),
            Err(e) => line_value(line@) == Err::<SdpLineView, LineError>(e),
        },
{
    let chars = to_chars(line);
    let s = chars.as_slice();
    let n = s.len();
    let eq = find_char(s, 0, '=');
    proof {
        assert(s@.skip(0) == s@);
    }
    if eq == n {
        return Err(LineError::NoSeparator);
    }
    if eq == 0 {
        return Err(LineError::EmptyTag);
    }
    if eq + 1 == n {
        return Err(LineError::EmptyValue);
    }
    proof {
        assert(s@.skip(eq + 1) == s@.subrange(eq + 1, n as int));
    }
    let is_version = eq == 1 && s[0] == 'v';
    let is_origin = eq == 1 && s[0] == 'o';
    proof {
        assert(is_version == (tag_of(line@) =~= seq!['v']));
        assert(is_origin == (tag_of(line@) =~= seq!['o']));
    }
    if is_version {
        match parse_i32(slice_subrange(s, eq + 1, n)) {
            Some(v) => Ok(SdpLine::ProtocolVersion(v)),
            None => Err(LineError::InvalidVersion),
        }
    } else if is_origin {
        match parse_origin(line.substring_char(eq + 1, n)) {
            Ok(o) => Ok(SdpLine::Origin(o)),
            Err(e) => Err(LineError::InvalidOrigin(e)),
        }
    } else {
        Err(LineError::UnknownTag)
    }
}

} // verus!
