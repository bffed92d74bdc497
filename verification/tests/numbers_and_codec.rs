use ls_web::decimal::{format_decimal, parse_port};
use ls_web::urlcodec::{decode_or_keep, encode_component};

#[test]
fn decimal_of_small_and_large_numbers() {
    assert_eq!(format_decimal(0), "0");
    assert_eq!(format_decimal(7), "7");
    assert_eq!(format_decimal(10), "10");
    assert_eq!(format_decimal(7878), "7878");
    assert_eq!(format_decimal(usize::MAX), usize::MAX.to_string());
}

#[test]
fn port_accepts_what_u16_parse_accepts() {
    assert_eq!(parse_port("80"), Some(80));
    assert_eq!(parse_port("+80"), Some(80));
    assert_eq!(parse_port("0080"), Some(80));
    assert_eq!(parse_port("0"), Some(0));
    assert_eq!(parse_port("65535"), Some(65535));
}

#[test]
fn port_refuses_what_u16_parse_refuses() {
    assert_eq!(parse_port(""), None);
    assert_eq!(parse_port("+"), None);
    assert_eq!(parse_port("-1"), None);
    assert_eq!(parse_port("65536"), None);
    assert_eq!(parse_port("99999999999999999999"), None);
    assert_eq!(parse_port("8a"), None);
    assert_eq!(parse_port(" 80"), None);
    assert_eq!(parse_port("++1"), None);
    assert_eq!(parse_port("٣"), None);
}

#[test]
fn port_agrees_with_std_parse() {
    let samples = ["1", "+1", "", "+", "-0", "65535", "65536", "00000000000065535", "12x", "7878", "0x10"];
    for s in samples {
        assert_eq!(parse_port(s), s.parse::<u16>().ok(), "{s}");
    }
}

#[test]
fn port_numeral_roundtrip() {
    for p in [0u16, 1, 9, 10, 80, 443, 7878, 65535] {
        assert_eq!(parse_port(&format_decimal(p as usize)), Some(p));
    }
}

#[test]
fn encode_escapes_all_but_unreserved_bytes() {
    assert_eq!(encode_component("abcXYZ019-._~"), "abcXYZ019-._~");
    assert_eq!(encode_component("a b"), "a%20b");
    assert_eq!(encode_component("a/b&c=d"), "a%2Fb%26c%3Dd");
    assert_eq!(encode_component("ü"), "%C3%BC");
    assert_eq!(encode_component(""), "");
}

#[test]
fn decode_percent_escapes() {
    assert_eq!(decode_or_keep("a%20b"), "a b");
    assert_eq!(decode_or_keep("%C3%bc"), "ü");
    assert_eq!(decode_or_keep("plain"), "plain");
    assert_eq!(decode_or_keep("a+b"), "a+b");
}

#[test]
fn decode_keeps_broken_escapes() {
    assert_eq!(decode_or_keep("%zz"), "%zz");
    assert_eq!(decode_or_keep("%4"), "%4");
    assert_eq!(decode_or_keep("%"), "%");
    assert_eq!(decode_or_keep("%4g1"), "%4g1");
    assert_eq!(decode_or_keep("100%"), "100%");
}

#[test]
fn decode_keeps_text_whose_decoding_is_not_utf8() {
    assert_eq!(decode_or_keep("%ff"), "%ff");
    assert_eq!(decode_or_keep("a%C3"), "a%C3");
}

#[test]
fn decode_of_encode_gives_the_text_back() {
    for s in ["", "a b", "ü/ä?&=#%", "file name (1).txt", "日本語"] {
        assert_eq!(decode_or_keep(&encode_component(s)), s);
    }
}
