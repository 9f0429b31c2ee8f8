use sdp::{
    IpAddr, Ipv4Addr, Ipv6Addr, LineError, Origin, OriginError, ParseResult, SdpLine,
    SessionDescription,
};

fn sample_origin() -> Origin {
    Origin {
        username: "me".to_string(),
        session_id: "sessA".to_string(),
        session_version: 11,
        ip_address: IpAddr::V6(Ipv6Addr::new(0, 0, 0, 0, 0, 0xffff, 5, 2)),
    }
}

#[test]
fn version_then_line_without_separator() {
    let res = SessionDescription::from_sdp("v=17\no");
    assert_eq!(res.desc.protocol_version, Some(17));
    assert_eq!(res.unparsed_lines, vec!["o".to_string()]);
    assert_eq!(res.desc.origin, None);
    assert!(res.ignored_lines.is_empty());
}

#[test]
fn version_and_ipv6_origin() {
    let res = SessionDescription::from_sdp("v=1\no=me sessA 11 IN IP6 ::ffff:5:2");
    assert_eq!(res.desc.protocol_version, Some(1));
    assert_eq!(res.desc.origin, Some(sample_origin()));
    assert!(res.unparsed_lines.is_empty());
    assert!(res.ignored_lines.is_empty());
}

#[test]
fn address_family_mismatch_is_unparsed() {
    let text = "o=me sessA 11 IN IP4 ::ffff:5:2";
    let res = SessionDescription::from_sdp(text);
    assert_eq!(res.desc, SessionDescription::new());
    assert_eq!(res.unparsed_lines, vec![text.to_string()]);
    assert_eq!(
        sdp::parse_line(text),
        Err(LineError::InvalidOrigin(OriginError::FamilyMismatch))
    );
}

#[test]
fn address_family_mismatch_the_other_way() {
    let text = "o=me sessA 11 IN IP6 10.0.0.1";
    let res = SessionDescription::from_sdp(text);
    assert_eq!(res.desc.origin, None);
    assert_eq!(res.unparsed_lines, vec![text.to_string()]);
}

#[test]
fn unsupported_tag_is_unparsed() {
    let res = SessionDescription::from_sdp("x=foo");
    assert_eq!(res.unparsed_lines, vec!["x=foo".to_string()]);
    assert_eq!(res.desc, SessionDescription::new());
    assert!(res.ignored_lines.is_empty());
}

#[test]
fn unsupported_tag_between_known_lines() {
    let with = SessionDescription::from_sdp("v=3\nx=foo\no=me sessA 11 IN IP4 10.0.0.1\n");
    let without = SessionDescription::from_sdp("v=3\no=me sessA 11 IN IP4 10.0.0.1\n");
    assert_eq!(with.desc, without.desc);
    assert_eq!(with.unparsed_lines, vec!["x=foo".to_string()]);
    assert!(without.unparsed_lines.is_empty());
}

#[test]
fn render_version_only() {
    let mut d = SessionDescription::new();
    d.protocol_version = Some(1);
    assert_eq!(d.render(), "v=1\n");
}

#[test]
fn render_empty_description() {
    assert_eq!(SessionDescription::new().render(), "");
}

#[test]
fn render_version_and_origin() {
    let mut d = SessionDescription::new();
    d.protocol_version = Some(1);
    d.origin = Some(sample_origin());
    assert_eq!(d.render(), "v=1\no=me sessA 11 IN IP6 ::ffff:0.5.0.2\n");
}

#[test]
fn render_origin_with_ipv4_address() {
    let mut d = SessionDescription::new();
    d.origin = Some(Origin {
        username: "-".to_string(),
        session_id: "2890844526".to_string(),
        session_version: -7,
        ip_address: IpAddr::V4(Ipv4Addr::new(10, 47, 16, 5)),
    });
    assert_eq!(d.render(), "o=- 2890844526 -7 IN IP4 10.47.16.5\n");
}

#[test]
fn render_leaves_out_what_the_grammar_does_not_write() {
    let mut d = SessionDescription::new();
    d.session_name = Some("talk".to_string());
    d.uri = Some("http://example.org".to_string());
    d.session_information.push("about".to_string());
    assert_eq!(d.render(), "");
}

#[test]
fn empty_input() {
    let res = SessionDescription::from_sdp("");
    assert_eq!(res.desc, SessionDescription::new());
    assert!(res.ignored_lines.is_empty());
    assert!(res.unparsed_lines.is_empty());
    assert_eq!(res, ParseResult::new());
}

#[test]
fn new_description_is_empty() {
    let d = SessionDescription::new();
    assert_eq!(d.protocol_version, None);
    assert_eq!(d.origin, None);
    assert_eq!(d.session_name, None);
    assert!(d.session_information.is_empty());
    assert_eq!(d.uri, None);
    assert_eq!(d.connection_data, None);
    assert!(d.media.is_empty());
}

#[test]
fn new_result_is_empty() {
    let r = ParseResult::new();
    assert_eq!(r.desc, SessionDescription::new());
    assert!(r.ignored_lines.is_empty());
    assert!(r.unparsed_lines.is_empty());
}

#[test]
fn last_line_of_a_kind_wins() {
    let res = SessionDescription::from_sdp(
        "v=1\nv=2\no=a b 1 IN IP4 1.2.3.4\no=c d 2 IN IP4 5.6.7.8\n",
    );
    assert_eq!(res.desc.protocol_version, Some(2));
    assert_eq!(
        res.desc.origin,
        Some(Origin {
            username: "c".to_string(),
            session_id: "d".to_string(),
            session_version: 2,
            ip_address: IpAddr::V4(Ipv4Addr::new(5, 6, 7, 8)),
        })
    );
    assert!(res.unparsed_lines.is_empty());
}

#[test]
fn a_bad_line_does_not_undo_a_good_one() {
    let res = SessionDescription::from_sdp("v=1\nv=oops\n");
    assert_eq!(res.desc.protocol_version, Some(1));
    assert_eq!(res.unparsed_lines, vec!["v=oops".to_string()]);
}

#[test]
fn unparsed_lines_keep_the_order_of_the_text() {
    let res = SessionDescription::from_sdp("b=1\nv=4\na\n\nz=9\no=bad\nv=5");
    assert_eq!(
        res.unparsed_lines,
        vec![
            "b=1".to_string(),
            "a".to_string(),
            "".to_string(),
            "z=9".to_string(),
            "o=bad".to_string(),
        ]
    );
    assert_eq!(res.desc.protocol_version, Some(5));
    assert!(res.ignored_lines.is_empty());
}

#[test]
fn blank_lines_are_unparsed() {
    let res = SessionDescription::from_sdp("\n\nv=1\n\n");
    assert_eq!(res.desc.protocol_version, Some(1));
    assert_eq!(
        res.unparsed_lines,
        vec!["".to_string(), "".to_string(), "".to_string()]
    );
}

#[test]
fn lines_end_at_crlf_too() {
    let res = SessionDescription::from_sdp("v=1\r\no=me sessA 11 IN IP4 1.2.3.4\r\n");
    assert_eq!(res.desc.protocol_version, Some(1));
    assert_eq!(
        res.desc.origin,
        Some(Origin {
            username: "me".to_string(),
            session_id: "sessA".to_string(),
            session_version: 11,
            ip_address: IpAddr::V4(Ipv4Addr::new(1, 2, 3, 4)),
        })
    );
    assert!(res.unparsed_lines.is_empty());
}

#[test]
fn a_lone_carriage_return_stays_in_the_line() {
    let res = SessionDescription::from_sdp("v=1\r");
    assert_eq!(res.desc.protocol_version, None);
    assert_eq!(res.unparsed_lines, vec!["v=1\r".to_string()]);
    let res = SessionDescription::from_sdp("v=1\rv=2\n");
    assert_eq!(res.unparsed_lines, vec!["v=1\rv=2".to_string()]);
    let res = SessionDescription::from_sdp("v=1\r\r\n");
    assert_eq!(res.unparsed_lines, vec!["v=1\r".to_string()]);
}

#[test]
fn lines_agree_with_the_standard_line_iterator() {
    let texts = [
        "", "\n", "\r\n", "a", "a\n", "a\r\n", "a\nb", "a\n\nb\n", "\r", "a\r", "a\r\nb\r",
        "\n\r\n\r",
        "x\r\r\ny", "é=1\nü\n",
    ];
    for text in texts {
        let res = SessionDescription::from_sdp(text);
        let expected: Vec<String> = text.lines().map(|l| l.to_string()).collect();
        assert_eq!(res.unparsed_lines, expected, "text {:?}", text);
    }
}

#[test]
fn text_outside_ascii_is_kept_as_it_is() {
    let res = SessionDescription::from_sdp("o=jörg säß 1 IN IP4 1.2.3.4\nñ=1\n");
    let origin = res.desc.origin.unwrap();
    assert_eq!(origin.username, "jörg");
    assert_eq!(origin.session_id, "säß");
    assert_eq!(res.unparsed_lines, vec!["ñ=1".to_string()]);
}

#[test]
fn parse_line_gives_the_typed_field() {
    assert_eq!(sdp::parse_line("v=17"), Ok(SdpLine::ProtocolVersion(17)));
    assert_eq!(
        sdp::parse_line("o=me sessA 11 IN IP6 ::ffff:5:2"),
        Ok(SdpLine::Origin(sample_origin()))
    );
}
