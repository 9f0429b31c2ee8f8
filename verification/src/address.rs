//! Network addresses of either family, and their text.
//!
//! A text that holds a colon is read as an IPv6 address, any other as an
//! IPv4 dotted quad.

use crate::ipv4::{ipv4_text, ipv4_value, lemma_ipv4_text, Ipv4Addr};
use crate::ipv6::{ipv6_text, ipv6_value, is_address_char, lemma_ipv6_text, Ipv6Addr};
use crate::number::is_decimal_digit;
use crate::text::{has_char, lemma_holds_none, to_chars};
use vstd::prelude::*;
use vstd::string::*;

verus! {

/// An address of one of the two families.
#[derive(Clone, Copy, Debug, PartialEq, Eq, Hash)]
pub enum IpAddr {
    V4(Ipv4Addr),
    V6(Ipv6Addr),
}

/// What an address is: four octets, or eight groups of sixteen bits.
pub enum IpAddrView {
    V4(Seq<u8>),
    V6(Seq<u16>),
}

impl IpAddrView {
    /// Whether the address has as many parts as its family asks for.
    pub open spec fn wf(self) -> bool {
        match self {
            IpAddrView::V4(octets) => octets.len() == 4,
            IpAddrView::V6(groups) => groups.len() == 8,
        }
    }
}

impl View for IpAddr {
    type V = IpAddrView;

    open spec fn view(&self) -> IpAddrView {
        match self {
            IpAddr::V4(a) => IpAddrView::V4(a@),
            IpAddr::V6(a) => IpAddrView::V6(a@),
        }
    }
}

/// Every address that a program holds has the parts of its family.
pub proof fn lemma_address_wf(a: IpAddr)
    ensures
        a@.wf(),
{
}

/// The address that `s` writes, if it is the text of one: a text that holds
/// a colon is read as an IPv6 address, any other as a dotted quad.
///
/// The definition is opaque: a proof that needs it reveals it.
#[verifier::opaque]
pub open spec fn ip_value(s: Seq<char>) -> Option<IpAddrView> {
    if s.contains(':') {
        match ipv6_value(s) {
            Some(groups) => Some(IpAddrView::V6(groups)),
            None => None,
        }
    } else {
        match ipv4_value(s) {
            Some(octets) => Some(IpAddrView::V4(octets)),
            None => None,
        }
    }
}

/// An address that was read has as many parts as its family asks for.
pub proof fn lemma_ip_value_wf(s: Seq<char>)
    ensures
        ip_value(s) matches Some(a) ==> a.wf(),
{
    reveal(ip_value);
}

/// The text of an address.
pub open spec fn ip_text(a: IpAddrView) -> Seq<char> {
    match a {
        IpAddrView::V4(octets) => ipv4_text(octets),
        IpAddrView::V6(groups) => ipv6_text(groups),
    }
}

/// Reading the text of an address gives the address back. The text is not
/// empty and is made of digits, lower-case letters, colons and dots.
pub proof fn lemma_ip_text(a: IpAddrView)
    requires
        a.wf(),
    ensures
        ip_value(ip_text(a)) == Some(a),
        ip_text(a).len() > 0,
        forall|i: int| 0 <= i < ip_text(a).len() ==> is_address_char(#[trigger] ip_text(a)[i]),
{
    reveal(ip_value);
    let t = ip_text(a);
    match a {
        IpAddrView::V4(octets) => {
            lemma_ipv4_text(octets);
            lemma_holds_none(t, |c: char| is_decimal_digit(c) || c == '.', ':');
        },
        IpAddrView::V6(groups) => {
            lemma_ipv6_text(groups);
        },
    }
}

impl IpAddr {
    /// Whether the address is an IPv4 address.
    pub fn is_ipv4(&self) -> (r: bool)
        ensures
            r == (self@ is V4),
    {
        match self {
            IpAddr::V4(_) => true,
            IpAddr::V6(_) => false,
        }
    }

    /// Whether the address is an IPv6 address.
    pub fn is_ipv6(&self) -> (r: bool)
        ensures
            r == (self@ is V6),
    {
        match self {
            IpAddr::V4(_) => false,
            IpAddr::V6(_) => true,
        }
    }

    /// The address that `s` writes, if it is the text of one.
    pub fn from_chars(s: &[char]) -> (r: Option<IpAddr>)
        ensures
            match r {
                Some(a) => ip_value(s@) == Some(a@),
                None => ip_value(s@) is None,
            },
    {
        proof {
            reveal(ip_value);
        }
        if has_char(s, ':') {
            match Ipv6Addr::from_chars(s) {
                Some(a) => Some(IpAddr::V6(a)),
                None => None,
            }
        } else {
            match Ipv4Addr::from_chars(s) {
                Some(a) => Some(IpAddr::V4(a)),
                None => None,
            }
        }
    }

    /// The address that `text` writes, if it is the text of one.
    pub fn parse(text: &str) -> (r: Option<IpAddr>)
        ensures
            match r {
                Some(a) => ip_value(text@) == Some(a@),
                None => ip_value(text@) is None,
            },
    {
        let chars = to_chars(text);
        IpAddr::from_chars(chars.as_slice())
    }

    /// Writes the text of the address at the end of `out`.
    pub fn append_to(&self, out: &mut String)
        ensures
            final(out)@ == old(out)@ + ip_text(self@),
    {
        match self {
            IpAddr::V4(a) => a.append_to(out),
            IpAddr::V6(a) => a.append_to(out),
        }
    }

    /// The text of the address.
    pub fn render(&self) -> (r: String)
        ensures
            r@ == ip_text(self@),
    {
        let mut out = String::new();
        self.append_to(&mut out);
        assert(Seq::<char>::empty() + ip_text(self@) == ip_text(self@));
        out
    }
}

} // verus!
