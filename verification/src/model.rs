//! The records of a session description.
//!
//! Each record has a view that holds its texts as sequences of characters;
//! the contracts of the library speak of the views. The fields are public and
//! may be set freely: what reading a description accepts and what writing
//! one produces is decided where lines are read and written.

use crate::address::{lemma_address_wf, IpAddr, IpAddrView};
use crate::text::{has_char, has_no_whitespace, is_free_of_whitespace, to_chars};
use vstd::prelude::*;

verus! {

/// The origin of a session: who created it and where.
#[derive(Clone, Debug, PartialEq, Eq)]
pub struct Origin {
    /// The user's login on the originating host.
    pub username: String,
    /// The identifier of the session.
    pub session_id: String,
    /// The version of this description of the session.
    pub session_version: i64,
    /// The address of the machine that created the session.
    pub ip_address: IpAddr,
}

/// What an origin is.
pub struct OriginView {
    pub username: Seq<char>,
    pub session_id: Seq<char>,
    pub session_version: i64,
    pub ip_address: IpAddrView,
}

impl View for Origin {
    type V = OriginView;

    open spec fn view(&self) -> OriginView {
        OriginView {
            username: self.username@,
            session_id: self.session_id@,
            session_version: self.session_version,
            ip_address: self.ip_address@,
        }
    }
}

/// Whether `s` can stand as one item of an origin line: it holds neither a
/// space nor a line feed.
pub open spec fn is_token(s: Seq<char>) -> bool {
    !s.contains(' ') && !s.contains('\n')
}

/// Whether `s` can be a user name: it is not empty and holds no white space.
pub open spec fn is_username(s: Seq<char>) -> bool {
    s.len() > 0 && has_no_whitespace(s)
}

impl OriginView {
    /// Whether the origin can be written as a line and read back: the user
    /// name is not empty and holds no white space, the session identifier
    /// holds neither a space nor a line feed, and the address has the parts
    /// of its family.
    pub open spec fn wf(self) -> bool {
        &&& is_username(self.username)
        &&& is_token(self.session_id)
        &&& self.ip_address.wf()
    }
}

impl Origin {
    /// Whether the origin is well formed, which is to say that its line can
    /// be written and read back.
    pub fn is_well_formed(&self) -> (r: bool)
        ensures
            r == self@.wf(),
    {
        proof {
            lemma_address_wf(self.ip_address);
        }
        let name = to_chars(self.username.as_str());
        let id = to_chars(self.session_id.as_str());
        name.len() > 0 && is_free_of_whitespace(name.as_slice()) && !has_char(id.as_slice(), ' ')
            && !has_char(id.as_slice(), '\n')
    }
}

/// Where the session is reached.
#[derive(Clone, Debug, PartialEq, Eq)]
pub struct ConnectionData {
    /// The address of the connection.
    pub ip_address: IpAddr,
    /// The time to live of a multicast address.
    pub ttl: Option<u8>,
    /// The number of addresses that follow the first one.
    pub num_addresses: Option<u8>,
}

/// What connection data is.
pub struct ConnectionDataView {
    pub ip_address: IpAddrView,
    pub ttl: Option<u8>,
    pub num_addresses: Option<u8>,
}

impl View for ConnectionData {
    type V = ConnectionDataView;

    open spec fn view(&self) -> ConnectionDataView {
        ConnectionDataView {
            ip_address: self.ip_address@,
            ttl: self.ttl,
            num_addresses: self.num_addresses,
        }
    }
}

/// One media section of a session. The lines that this library reads say
/// nothing about media, so the record carries a single octet for its owner
/// to use.
#[derive(Clone, Copy, Debug, PartialEq, Eq)]
pub struct MediaDescription {
    pub todo: u8,
}

/// A session description: the fields of the session section, then the media
/// sections in their order.
#[derive(Clone, Debug, PartialEq, Eq)]
pub struct SessionDescription {
    pub protocol_version: Option<i32>,
    pub origin: Option<Origin>,
    pub session_name: Option<String>,
    pub session_information: Vec<String>,
    pub uri: Option<String>,
    pub connection_data: Option<ConnectionData>,
    pub media: Vec<MediaDescription>,
}

/// What a session description is.
pub struct SessionDescriptionView {
    pub protocol_version: Option<i32>,
    pub origin: Option<OriginView>,
    pub session_name: Option<Seq<char>>,
    pub session_information: Seq<Seq<char>>,
    pub uri: Option<Seq<char>>,
    pub connection_data: Option<ConnectionDataView>,
    pub media: Seq<MediaDescription>,
}

impl View for SessionDescription {
    type V = SessionDescriptionView;

    open spec fn view(&self) -> SessionDescriptionView {
        SessionDescriptionView {
            protocol_version: self.protocol_version,
            origin: match self.origin {
                Some(o) => Some(o@),
                None => None,
            },
            session_name: match self.session_name {
                Some(s) => Some(s@),
                None => None,
            },
            session_information: self.session_information@.map_values(|s: String| s@),
            uri: match self.uri {
                Some(s) => Some(s@),
                None => None,
            },
            connection_data: match self.connection_data {
                Some(c) => Some(c@),
                None => None,
            },
            media: self.media@,
        }
    }
}

impl SessionDescriptionView {
    /// Whether the origin, if there is one, is well formed.
    pub open spec fn wf(self) -> bool {
        self.origin matches Some(o) ==> o.wf()
    }

    /// The description in which every field is absent and every list empty.
    pub open spec fn empty() -> SessionDescriptionView {
        SessionDescriptionView {
            protocol_version: None,
            origin: None,
            session_name: None,
            session_information: Seq::empty(),
            uri: None,
            connection_data: None,
            media: Seq::empty(),
        }
    }

    /// Whether nothing but the protocol version and the origin is set.
    pub open spec fn only_version_and_origin(self) -> bool {
        &&& self.session_name is None
        &&& self.session_information.len() == 0
        &&& self.uri is None
        &&& self.connection_data is None
        &&& self.media.len() == 0
    }
}

impl SessionDescription {
    /// A description in which every field is absent and every list empty.
    pub fn new() -> (r: SessionDescription)
        ensures
            r@ == SessionDescriptionView::empty(),
    {
        let r = SessionDescription {
            protocol_version: None,
            origin: None,
            session_name: None,
            session_information: Vec::new(),
            uri: None,
            connection_data: None,
            media: Vec::new(),
        };
        assert(r@.session_information == Seq::<Seq<char>>::empty());
        r
    }
}

} // verus!
