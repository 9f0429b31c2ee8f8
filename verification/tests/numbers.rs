use sdp::number::{append_decimal, append_hex, append_signed, parse_i32, parse_i64};

fn chars(s: &str) -> Vec<char> {
    s.chars().collect()
}

#[test]
fn parse_i32_reads_signed_decimals() {
    assert_eq!(parse_i32(&chars("0")), Some(0));
    assert_eq!(parse_i32(&chars("17")), Some(17));
    assert_eq!(parse_i32(&chars("+17")), Some(17));
    assert_eq!(parse_i32(&chars("-17")), Some(-17));
    assert_eq!(parse_i32(&chars("-0")), Some(0));
    assert_eq!(parse_i32(&chars("+0")), Some(0));
    assert_eq!(parse_i32(&chars("007")), Some(7));
    assert_eq!(parse_i32(&chars("-007")), Some(-7));
}

#[test]
fn parse_i32_at_the_ends_of_its_range() {
    assert_eq!(parse_i32(&chars("2147483647")), Some(i32::MAX));
    assert_eq!(parse_i32(&chars("-2147483648")), Some(i32::MIN));
    assert_eq!(parse_i32(&chars("2147483648")), None);
    assert_eq!(parse_i32(&chars("-2147483649")), None);
    assert_eq!(parse_i32(&chars("00000000000000000000002147483647")), Some(i32::MAX));
    assert_eq!(parse_i32(&chars("99999999999999999999999999999")), None);
}

#[test]
fn parse_i32_refuses_what_is_no_integer() {
    let texts = [
        "", "+", "-", "--1", "+-1", "1-", "1 ", " 1", "1.0", "1e3", "0x10", "a", "١", "1_000", "1\n",
    ];
    for text in texts {
        assert_eq!(parse_i32(&chars(text)), None, "text {:?}", text);
    }
}

#[test]
fn parse_i64_at_the_ends_of_its_range() {
    assert_eq!(parse_i64(&chars("9223372036854775807")), Some(i64::MAX));
    assert_eq!(parse_i64(&chars("+9223372036854775807")), Some(i64::MAX));
    assert_eq!(parse_i64(&chars("-9223372036854775808")), Some(i64::MIN));
    assert_eq!(parse_i64(&chars("9223372036854775808")), None);
    assert_eq!(parse_i64(&chars("-9223372036854775809")), None);
    assert_eq!(parse_i64(&chars("18446744073709551616")), None);
    assert_eq!(parse_i64(&chars("-000009223372036854775808")), Some(i64::MIN));
    assert_eq!(parse_i64(&chars("2147483648")), Some(2147483648));
}

#[test]
fn parse_agrees_with_the_standard_parser() {
    let texts = [
        "", "0", "-0", "+0", "5", "-5", "+5", "++5", "05", "2147483647", "2147483648",
        "-2147483648",
        "-2147483649", "9223372036854775807", "9223372036854775808", "-9223372036854775808",
        "-9223372036854775809", "12a", "a12", " 12", "12 ", "-", "+", "1-1",
    ];
    for text in texts {
        assert_eq!(parse_i32(&chars(text)), text.parse::<i32>().ok(), "text {:?}", text);
        assert_eq!(parse_i64(&chars(text)), text.parse::<i64>().ok(), "text {:?}", text);
    }
}

#[test]
fn append_signed_writes_the_shortest_text() {
    let cases: [(i64, &str); 9] = [
        (0, "0"),
        (7, "7"),
        (10, "10"),
        (-1, "-1"),
        (-120, "-120"),
        (1234567890, "1234567890"),
        (i64::MAX, "9223372036854775807"),
        (i64::MIN, "-9223372036854775808"),
        (-9223372036854775807, "-9223372036854775807"),
    ];
    for (v, text) in cases {
        let mut out = String::new();
        append_signed(&mut out, v);
        assert_eq!(out, text);
        assert_eq!(out, v.to_string());
        assert_eq!(parse_i64(&chars(&out)), Some(v));
    }
}

#[test]
fn append_decimal_writes_after_what_is_there() {
    let mut out = String::from("n=");
    append_decimal(&mut out, 0);
    append_decimal(&mut out, 905);
    append_decimal(&mut out, u64::MAX);
    assert_eq!(out, "n=090518446744073709551615");
}

#[test]
fn append_hex_writes_lower_case_without_leading_zeros() {
    let cases: [(u16, &str); 8] = [
        (0, "0"),
        (9, "9"),
        (10, "a"),
        (15, "f"),
        (16, "10"),
        (0x0abc, "abc"),
        (0xffff, "ffff"),
        (0x1000, "1000"),
    ];
    for (v, text) in cases {
        let mut out = String::new();
        append_hex(&mut out, v);
        assert_eq!(out, text);
        assert_eq!(out, format!("{:x}", v));
    }
}
