use sdp::text::{find_char, is_free_of_whitespace, is_whitespace_char, split_ranges, to_chars};
use sdp::{
    parse_line, parse_origin, IpAddr, Ipv4Addr, Ipv6Addr, LineError, Origin, OriginError, SdpLine,
};

#[test]
fn to_chars_keeps_every_character() {
    assert_eq!(to_chars(""), Vec::<char>::new());
    assert_eq!(to_chars("v=1"), vec!['v', '=', '1']);
    assert_eq!(to_chars("é\n"), vec!['é', '\n']);
}

#[test]
fn find_char_gives_the_first_position() {
    let s = to_chars("a=b=c");
    assert_eq!(find_char(&s, 0, '='), 1);
    assert_eq!(find_char(&s, 1, '='), 1);
    assert_eq!(find_char(&s, 2, '='), 3);
    assert_eq!(find_char(&s, 4, '='), 5);
    assert_eq!(find_char(&s, 5, '='), 5);
    assert_eq!(find_char(&s, 0, 'x'), 5);
}

#[test]
fn split_ranges_cuts_at_every_separator() {
    let pieces = |text: &str| -> Vec<String> {
        let s = to_chars(text);
        split_ranges(&s, ' ').iter().map(|&(a, b)| s[a..b].iter().collect()).collect()
    };
    assert_eq!(pieces(""), vec![""]);
    assert_eq!(pieces("a"), vec!["a"]);
    assert_eq!(pieces("a b"), vec!["a", "b"]);
    assert_eq!(pieces(" a"), vec!["", "a"]);
    assert_eq!(pieces("a "), vec!["a", ""]);
    assert_eq!(pieces("a  b"), vec!["a", "", "b"]);
    assert_eq!(pieces("  "), vec!["", "", ""]);
    for text in ["", " ", "a b c", "  a  ", "me sessA 11 IN IP4 1.2.3.4"] {
        let expected: Vec<String> = text.split(' ').map(|p| p.to_string()).collect();
        assert_eq!(pieces(text), expected, "text {:?}", text);
    }
}

#[test]
fn line_without_separator() {
    assert_eq!(parse_line("o"), Err(LineError::NoSeparator));
    assert_eq!(parse_line(""), Err(LineError::NoSeparator));
    assert_eq!(parse_line("v 1"), Err(LineError::NoSeparator));
}

#[test]
fn line_with_empty_tag() {
    assert_eq!(parse_line("=5"), Err(LineError::EmptyTag));
    assert_eq!(parse_line("="), Err(LineError::EmptyTag));
    assert_eq!(parse_line("=v=1"), Err(LineError::EmptyTag));
}

#[test]
fn line_with_empty_value() {
    assert_eq!(parse_line("v="), Err(LineError::EmptyValue));
    assert_eq!(parse_line("o="), Err(LineError::EmptyValue));
    assert_eq!(parse_line("x="), Err(LineError::EmptyValue));
}

#[test]
fn line_with_unknown_tag() {
    assert_eq!(parse_line("x=foo"), Err(LineError::UnknownTag));
    assert_eq!(parse_line("V=1"), Err(LineError::UnknownTag));
    assert_eq!(parse_line("vv=1"), Err(LineError::UnknownTag));
    assert_eq!(parse_line(" v=1"), Err(LineError::UnknownTag));
    assert_eq!(parse_line("v =1"), Err(LineError::UnknownTag));
    assert_eq!(parse_line("m=audio 49170 RTP/AVP 0"), Err(LineError::UnknownTag));
    assert_eq!(parse_line("s=talk"), Err(LineError::UnknownTag));
}

#[test]
fn line_with_bad_version() {
    assert_eq!(parse_line("v=x"), Err(LineError::InvalidVersion));
    assert_eq!(parse_line("v= 1"), Err(LineError::InvalidVersion));
    assert_eq!(parse_line("v=1 "), Err(LineError::InvalidVersion));
    assert_eq!(parse_line("v=2147483648"), Err(LineError::InvalidVersion));
    assert_eq!(parse_line("v=1=2"), Err(LineError::InvalidVersion));
    assert_eq!(parse_line("v=="), Err(LineError::InvalidVersion));
}

#[test]
fn line_with_version() {
    assert_eq!(parse_line("v=0"), Ok(SdpLine::ProtocolVersion(0)));
    assert_eq!(parse_line("v=+5"), Ok(SdpLine::ProtocolVersion(5)));
    assert_eq!(parse_line("v=-2147483648"), Ok(SdpLine::ProtocolVersion(i32::MIN)));
    assert_eq!(parse_line("v=0017"), Ok(SdpLine::ProtocolVersion(17)));
}

#[test]
fn line_with_bad_origin() {
    assert_eq!(parse_line("o=me"), Err(LineError::InvalidOrigin(OriginError::FieldCount)));
    assert_eq!(
        parse_line("o=me sessA x IN IP4 1.2.3.4"),
        Err(LineError::InvalidOrigin(OriginError::SessionVersion))
    );
}

#[test]
fn origin_with_wrong_number_of_items() {
    assert_eq!(parse_origin(""), Err(OriginError::FieldCount));
    assert_eq!(parse_origin("me sessA 11 IN IP4"), Err(OriginError::FieldCount));
    assert_eq!(parse_origin("me sessA 11 IN IP4 1.2.3.4 x"), Err(OriginError::FieldCount));
    assert_eq!(parse_origin("me sessA 11 IN IP4 1.2.3.4 "), Err(OriginError::FieldCount));
    assert_eq!(parse_origin("me sessA 11 IN  IP4 1.2.3.4"), Err(OriginError::FieldCount));
    assert_eq!(parse_origin("me\tsessA 11 IN IP4 1.2.3.4"), Err(OriginError::FieldCount));
    assert_eq!(parse_origin("me 11 IN IP4 1.2.3.4"), Err(OriginError::FieldCount));
}

#[test]
fn origin_with_bad_username() {
    assert_eq!(parse_origin(" sessA 11 IN IP4 1.2.3.4"), Err(OriginError::Username));
    assert_eq!(parse_origin(" sessA x IN IP9 nowhere"), Err(OriginError::Username));
    assert_eq!(parse_origin("a\tb sessA 11 IN IP4 1.2.3.4"), Err(OriginError::Username));
    assert_eq!(parse_origin("a\u{a0}b sessA 11 IN IP4 1.2.3.4"), Err(OriginError::Username));
    assert_eq!(parse_origin("ab\r sessA 11 IN IP4 1.2.3.4"), Err(OriginError::Username));
    assert_eq!(parse_origin("\u{3000} sessA 11 IN IP4 1.2.3.4"), Err(OriginError::Username));
}

#[test]
fn origin_with_bad_session_version() {
    assert_eq!(parse_origin("me sessA  IN IP4 1.2.3.4"), Err(OriginError::SessionVersion));
    assert_eq!(parse_origin("me sessA 1.5 IN IP4 1.2.3.4"), Err(OriginError::SessionVersion));
    assert_eq!(
        parse_origin("me sessA 9223372036854775808 IN IP4 1.2.3.4"),
        Err(OriginError::SessionVersion)
    );
    assert_eq!(parse_origin("me sessA x IN IP9 nowhere"), Err(OriginError::SessionVersion));
}

#[test]
fn origin_with_unknown_address_type() {
    assert_eq!(parse_origin("me sessA 11 IN IP5 1.2.3.4"), Err(OriginError::AddressType));
    assert_eq!(parse_origin("me sessA 11 IN ip4 1.2.3.4"), Err(OriginError::AddressType));
    assert_eq!(parse_origin("me sessA 11 IN  1.2.3.4"), Err(OriginError::AddressType));
    assert_eq!(parse_origin("me sessA 11 IN IP44 1.2.3.4"), Err(OriginError::AddressType));
    assert_eq!(parse_origin("me sessA 11 IN IP nowhere"), Err(OriginError::AddressType));
}

#[test]
fn origin_with_bad_address() {
    assert_eq!(parse_origin("me sessA 11 IN IP4 1.2.3"), Err(OriginError::Address));
    assert_eq!(parse_origin("me sessA 11 IN IP4 example.org"), Err(OriginError::Address));
    assert_eq!(parse_origin("me sessA 11 IN IP6 1::2::3"), Err(OriginError::Address));
    assert_eq!(parse_origin("me sessA 11 IN IP6 "), Err(OriginError::Address));
    assert_eq!(parse_origin("me sessA 11 IN IP4 01.2.3.4"), Err(OriginError::Address));
}

#[test]
fn origin_with_family_mismatch() {
    assert_eq!(parse_origin("me sessA 11 IN IP4 ::ffff:5:2"), Err(OriginError::FamilyMismatch));
    assert_eq!(parse_origin("me sessA 11 IN IP4 ::1.2.3.4"), Err(OriginError::FamilyMismatch));
    assert_eq!(parse_origin("me sessA 11 IN IP6 1.2.3.4"), Err(OriginError::FamilyMismatch));
}

#[test]
fn origin_is_read_item_by_item() {
    assert_eq!(
        parse_origin("jdoe 2890844526 2890842807 IN IP4 10.47.16.5"),
        Ok(Origin {
            username: "jdoe".to_string(),
            session_id: "2890844526".to_string(),
            session_version: 2890842807,
            ip_address: IpAddr::V4(Ipv4Addr::new(10, 47, 16, 5)),
        })
    );
    assert_eq!(
        parse_origin("- - -9223372036854775808 IN IP6 2001:db8::1"),
        Ok(Origin {
            username: "-".to_string(),
            session_id: "-".to_string(),
            session_version: i64::MIN,
            ip_address: IpAddr::V6(Ipv6Addr::new(0x2001, 0xdb8, 0, 0, 0, 0, 0, 1)),
        })
    );
}

#[test]
fn origin_with_empty_session_id_or_other_network_type() {
    assert_eq!(
        parse_origin("me  11 IN IP4 1.2.3.4"),
        Ok(Origin {
            username: "me".to_string(),
            session_id: "".to_string(),
            session_version: 11,
            ip_address: IpAddr::V4(Ipv4Addr::new(1, 2, 3, 4)),
        })
    );
    assert_eq!(
        parse_origin("me=you a=b +11 ATM IP4 1.2.3.4"),
        Ok(Origin {
            username: "me=you".to_string(),
            session_id: "a=b".to_string(),
            session_version: 11,
            ip_address: IpAddr::V4(Ipv4Addr::new(1, 2, 3, 4)),
        })
    );
}

#[test]
fn origin_append_to_writes_the_six_items() {
    let o = Origin {
        username: "jdoe".to_string(),
        session_id: "2890844526".to_string(),
        session_version: 2890842807,
        ip_address: IpAddr::V4(Ipv4Addr::new(10, 47, 16, 5)),
    };
    let mut out = String::from("o=");
    o.append_to(&mut out);
    assert_eq!(out, "o=jdoe 2890844526 2890842807 IN IP4 10.47.16.5");
    let o = Origin {
        username: "a".to_string(),
        session_id: "".to_string(),
        session_version: -1,
        ip_address: IpAddr::V6(Ipv6Addr::new(0xfe80, 0, 0, 0, 0, 0, 0, 0x1234)),
    };
    let mut out = String::new();
    o.append_to(&mut out);
    assert_eq!(out, "a  -1 IN IP6 fe80::1234");
}

#[test]
fn white_space_is_what_the_standard_library_calls_so() {
    for code in 0u32..=0x10ffff {
        if let Some(c) = char::from_u32(code) {
            assert_eq!(is_whitespace_char(c), c.is_whitespace(), "character {:?}", c);
        }
    }
}

#[test]
fn text_free_of_white_space() {
    assert!(is_free_of_whitespace(&to_chars("")));
    assert!(is_free_of_whitespace(&to_chars("jdoe")));
    assert!(is_free_of_whitespace(&to_chars("a\u{200b}b")));
    assert!(!is_free_of_whitespace(&to_chars("a b")));
    assert!(!is_free_of_whitespace(&to_chars("ab\n")));
    assert!(!is_free_of_whitespace(&to_chars("\u{2003}ab")));
}
