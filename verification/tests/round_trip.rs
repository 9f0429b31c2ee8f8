use sdp::{IpAddr, Ipv4Addr, Ipv6Addr, Origin, SessionDescription};

fn description(version: Option<i32>, origin: Option<Origin>) -> SessionDescription {
    let mut d = SessionDescription::new();
    d.protocol_version = version;
    d.origin = origin;
    d
}

fn origin(name: &str, id: &str, version: i64, address: IpAddr) -> Origin {
    Origin {
        username: name.to_string(),
        session_id: id.to_string(),
        session_version: version,
        ip_address: address,
    }
}

fn addresses() -> Vec<IpAddr> {
    vec![
        IpAddr::V4(Ipv4Addr::new(0, 0, 0, 0)),
        IpAddr::V4(Ipv4Addr::new(10, 47, 16, 5)),
        IpAddr::V4(Ipv4Addr::new(255, 255, 255, 255)),
        IpAddr::V6(Ipv6Addr::new(0, 0, 0, 0, 0, 0, 0, 0)),
        IpAddr::V6(Ipv6Addr::new(0, 0, 0, 0, 0, 0, 0, 1)),
        IpAddr::V6(Ipv6Addr::new(0, 0, 0, 0, 0, 0xffff, 5, 2)),
        IpAddr::V6(Ipv6Addr::new(0x2001, 0xdb8, 0, 0, 1, 0, 0, 1)),
        IpAddr::V6(Ipv6Addr::new(1, 2, 3, 4, 5, 6, 7, 8)),
        IpAddr::V6(Ipv6Addr::new(0xfe80, 0, 0, 0, 0, 0, 0, 0)),
    ]
}

#[test]
fn round_trip_of_the_demonstration_session() {
    let d = description(
        Some(1),
        Some(origin("me", "sessA", 11, IpAddr::V6(Ipv6Addr::new(0, 0, 0, 0, 0, 0xffff, 5, 2)))),
    );
    let res = SessionDescription::from_sdp(&d.render());
    assert_eq!(res.desc, d);
    assert!(res.ignored_lines.is_empty());
    assert!(res.unparsed_lines.is_empty());
}

#[test]
fn round_trip_over_versions_and_origins() {
    let versions = [None, Some(0), Some(1), Some(-1), Some(i32::MAX), Some(i32::MIN)];
    let names = ["me", "-", "jörg", "a=b", "x\u{200b}y", "q:"];
    let ids = ["", "sessA", "2890844526", "==", "\r", "a\tb"];
    let session_versions = [0, 11, -11, i64::MAX, i64::MIN];
    let mut count = 0;
    for version in versions {
        let d = description(version, None);
        let res = SessionDescription::from_sdp(&d.render());
        assert_eq!(res.desc, d);
        assert!(res.unparsed_lines.is_empty());
        for (k, address) in addresses().into_iter().enumerate() {
            let name = names[(k + count) % names.len()];
            let id = ids[(k + count) % ids.len()];
            let sv = session_versions[(k + count) % session_versions.len()];
            let d = description(version, Some(origin(name, id, sv, address)));
            let text = d.render();
            let res = SessionDescription::from_sdp(&text);
            assert_eq!(res.desc, d, "text {:?}", text);
            assert!(res.ignored_lines.is_empty());
            assert!(res.unparsed_lines.is_empty(), "text {:?}", text);
            count += 1;
        }
    }
}

#[test]
fn text_that_was_written_is_written_again_unchanged() {
    let text = "v=0\no=jdoe 2890844526 2890842807 IN IP4 10.47.16.5\n";
    assert_eq!(SessionDescription::from_sdp(text).desc.render(), text);
    let text = "o=- 1 2 IN IP6 2001:db8::1\n";
    assert_eq!(SessionDescription::from_sdp(text).desc.render(), text);
}

#[test]
fn an_origin_that_is_not_well_formed_does_not_come_back() {
    let d = description(
        Some(1),
        Some(origin("two words", "s", 1, IpAddr::V4(Ipv4Addr::new(1, 2, 3, 4)))),
    );
    let res = SessionDescription::from_sdp(&d.render());
    assert_eq!(res.desc.protocol_version, Some(1));
    assert_eq!(res.desc.origin, None);
    assert_eq!(res.unparsed_lines, vec!["o=two words s 1 IN IP4 1.2.3.4".to_string()]);

    let d = description(None, Some(origin("", "s", 1, IpAddr::V4(Ipv4Addr::new(1, 2, 3, 4)))));
    let res = SessionDescription::from_sdp(&d.render());
    assert_eq!(res.desc.origin, None);
    assert_eq!(res.unparsed_lines, vec!["o= s 1 IN IP4 1.2.3.4".to_string()]);
}

#[test]
fn what_was_read_is_read_back_from_its_own_text() {
    let texts = [
        "",
        "v=1",
        "v=1\nv=x\n",
        "o=me sessA 11 IN IP6 ::FFFF:5:2\nnoise\n",
        "o=a\u{200b} b\r 007 ATM IP4 1.2.3.4\r\nv=+0012\r\n",
        "x=1\no=u  -0 IN IP6 0:0:0:0:0:0:0:0\n\n",
        "o=u s 1 IN IP6 1:2:3:4:5:6:77.88.99.110",
    ];
    for text in texts {
        let first = SessionDescription::from_sdp(text);
        let written = first.desc.render();
        let second = SessionDescription::from_sdp(&written);
        assert_eq!(second.desc, first.desc, "text {:?}", text);
        assert!(second.unparsed_lines.is_empty(), "text {:?}", text);
        assert_eq!(second.desc.render(), written);
    }
}

#[test]
fn well_formed_origins() {
    let address = IpAddr::V4(Ipv4Addr::new(1, 2, 3, 4));
    assert!(origin("me", "sessA", 11, address).is_well_formed());
    assert!(origin("m", "", 0, address).is_well_formed());
    assert!(origin("a=b", "x\ry", -1, address).is_well_formed());
    assert!(!origin("", "sessA", 11, address).is_well_formed());
    assert!(!origin("two words", "sessA", 11, address).is_well_formed());
    assert!(!origin("tab\t", "sessA", 11, address).is_well_formed());
    assert!(!origin("me", "two words", 11, address).is_well_formed());
    assert!(!origin("me", "two\nlines", 11, address).is_well_formed());
}

#[test]
fn an_origin_comes_back_exactly_if_it_is_well_formed() {
    let address = IpAddr::V6(Ipv6Addr::new(0xfe80, 0, 0, 0, 0, 0, 0, 1));
    let names = ["me", "", " ", "a b", "a\nb", "a\tb", "ab\r", "ok"];
    let ids = ["", "s", " ", "a b", "a\nb", "a\tb", "ab\r", "a\r\nb"];
    for name in names {
        for id in ids {
            let o = origin(name, id, 5, address);
            let d = description(Some(2), Some(o.clone()));
            let back = SessionDescription::from_sdp(&d.render());
            assert_eq!(back.desc == d, o.is_well_formed(), "origin {:?}", o);
        }
    }
}
