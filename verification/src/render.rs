//! Writing a description as text.
//!
//! Each field that is set gives one line, ended by a line feed: first the
//! protocol version, then the origin. A field that is absent gives nothing.
//! The address type of the origin line is that of the address that is
//! stored.

use crate::grammar::{ip4_tag, ip6_tag, origin_items, origin_line, origin_text, version_line};
use crate::model::{Origin, SessionDescription, SessionDescriptionView};
use crate::number::append_signed;
use crate::text::{join, lemma_join_push};
use vstd::prelude::*;
use vstd::string::*;

verus! {

/// The text of a description: the lines of the fields that are set, each
/// ended by a line feed.
pub open spec fn sdp_text(d: SessionDescriptionView) -> Seq<char> {
    (match d.protocol_version {
        Some(v) => version_line(v) + seq!['\n'],
        None => Seq::empty(),
    }) + (match d.origin {
        Some(o) => origin_line(o) + seq!['\n'],
        None => Seq::empty(),
    })
}

impl Origin {
    /// Writes the value of the `o` line of the origin at the end of `out`.
    pub fn append_to(&self, out: &mut String)
        ensures
            final(out)@ == old(out)@ + origin_text(self@),
    {
        let ghost items = origin_items(self@);
        let ghost start = out@;
        proof {
            reveal_strlit(" ");
            reveal_strlit(" IN ");
            reveal_strlit("IP4 ");
            reveal_strlit("IP6 ");
            assert(" "@ == seq![' ']);
            assert(" IN "@ == seq![' '] + seq!['I', 'N'] + seq![' ']);
            assert("IP4 "@ == ip4_tag() + seq![' ']);
            assert("IP6 "@ == ip6_tag() + seq![' ']);
            assert(items.take(0) == Seq::<Seq<char>>::empty());
            lemma_join_push(items.take(0), items[0], ' ');
            lemma_join_push(items.take(1), items[1], ' ');
            lemma_join_push(items.take(2), items[2], ' ');
            lemma_join_push(items.take(3), items[3], ' ');
            lemma_join_push(items.take(4), items[4], ' ');
            lemma_join_push(items.take(5), items[5], ' ');
            assert(items.take(0).push(items[0]) == items.take(1));
            assert(items.take(1).push(items[1]) == items.take(2));
            assert(items.take(2).push(items[2]) == items.take(3));
            assert(items.take(3).push(items[3]) == items.take(4));
            assert(items.take(4).push(items[4]) == items.take(5));
            assert(items.take(5).push(items[5]) == items);
        }
        out.append(self.username.as_str());
        assert(out@ == start + join(items.take(1), ' '));
        out.append(" ");
        out.append(self.session_id.as_str());
        assert(out@ == start + join(items.take(2), ' '));
        out.append(" ");
        append_signed(out, self.session_version);
        assert(out@ == start + join(items.take(3), ' '));
        out.append(" IN ");
        assert(out@ == start + join(items.take(4), ' ') + seq![' ']);
        if self.ip_address.is_ipv4() {
            out.append("IP4 ");
        } else {
            out.append("IP6 ");
        }
        assert(out@ == start + join(items.take(5), ' ') + seq![' ']);
        self.ip_address.append_to(out);
    }
}

impl SessionDescription {
    /// The text of the description.
    pub fn render(&self) -> (r: String)
        ensures
            r@ == sdp_text(self@),
    {
        let mut out = String::new();
        proof {
            reveal_strlit("v=");
            reveal_strlit("o=");
            reveal_strlit("\n");
            assert("v="@ == seq!['v', '=']);
            assert("o="@ == seq!['o', '=']);
            assert("\n"@ == seq!['\n']);
        }
        match &self.protocol_version {
            Some(v) => {
                out.append("v=");
                append_signed(&mut out, *v as i64);
                out.append("\n");
                assert(out@ == version_line(*v) + seq!['\n']);
            },
            None => {},
        }
        let ghost first = out@;
        match &self.origin {
            Some(o) => {
                out.append("o=");
                o.append_to(&mut out);
                out.append("\n");
                assert(out@ == first + (origin_line(o@) + seq!['\n']));
            },
            None => {
                assert(out@ == first + Seq::<char>::empty());
            },
        }
        out
    }
}

} // verus!
