use suho::api::v1alpha1::Port;
use suho::bytes::{
    frame_len, next_frame, nlmsg_align, put_u16, put_u32, read_i32, read_u16, read_u32, ByteOrder,
};
use suho::text::{
    chars_of, decimal_text, join, parse_unsigned, same, split, split_once, string_of,
    strip_prefix, text_less, to_lower, trim_leading, trim_prefixes,
};

fn owned(parts: &[&str]) -> Vec<String> {
    parts.iter().map(|p| (*p).to_owned()).collect()
}

#[test]
fn texts_compare() {
    assert!(text_less("a", "b") && text_less("a", "aa") && text_less("", "a"));
    assert!(!text_less("b", "a") && !text_less("a", "a") && !text_less("aa", "a"));
    assert!(text_less("z", "é"));
    assert!(same("x", "x") && !same("x", "y"));
}

#[test]
fn texts_are_cut_and_joined() {
    assert_eq!(split("a;;b", ';'), owned(&["a", "", "b"]));
    assert_eq!(split("", ';'), owned(&[""]));
    assert_eq!(join(&owned(&["a", "b"]), ", "), "a, b");
    assert_eq!(join(&Vec::new(), ", "), "");
    assert_eq!(
        split_once("a/b/c", '/'),
        Some(("a".to_owned(), "b/c".to_owned()))
    );
    assert_eq!(split_once("abc", '/'), None);
    assert_eq!(strip_prefix("abc", "ab").as_deref(), Some("c"));
    assert_eq!(strip_prefix("abc", "b"), None);
    assert_eq!(trim_leading("//a/", '/'), "a/");
    assert_eq!(trim_prefixes("xyxyz", "xy"), "z");
    assert_eq!(to_lower("TcP É"), "tcp É");
    assert_eq!(string_of(&chars_of("héllo"), 1, 3), "él");
}

#[test]
fn numbers_as_text() {
    assert_eq!(decimal_text(0), "0");
    assert_eq!(decimal_text(u64::MAX), "18446744073709551615");
    assert_eq!(parse_unsigned("65535", 65535), Some(65535));
    assert_eq!(parse_unsigned("65536", 65535), None);
    assert_eq!(parse_unsigned("+7", 9), Some(7));
    assert_eq!(parse_unsigned("007", 9), Some(7));
    assert_eq!(parse_unsigned("", 9), None);
    assert_eq!(parse_unsigned("+", 9), None);
    assert_eq!(parse_unsigned("-1", 9), None);
}

#[test]
fn ports_round_trip() {
    for text in ["443/tcp", "53/udp", "32000-32768/tcp", "*/udp"] {
        let port = Port::from_str(text).unwrap();
        assert_eq!(port.to_string(), text);
        assert_eq!(Port::from_str(&port.to_string()), Ok(port));
    }
}

#[test]
fn words_round_trip() {
    for order in [ByteOrder::Little, ByteOrder::Big] {
        let mut out = Vec::new();
        put_u16(&mut out, order, 0x1234);
        put_u32(&mut out, order, 0xfffffffe);
        assert_eq!(read_u16(order, &out, 0), 0x1234);
        assert_eq!(read_u32(order, &out, 2), 0xfffffffe);
        assert_eq!(read_i32(order, &out, 2), -2);
    }
}

#[test]
fn byte_orders_are_told_by_a_word() {
    assert_eq!(ByteOrder::of_word(1), ByteOrder::Little);
    assert_eq!(ByteOrder::of_word(256), ByteOrder::Big);
}

#[test]
fn messages_are_aligned() {
    assert_eq!(
        [0, 1, 4, 5, 16].map(nlmsg_align),
        [0, 4, 4, 8, 16]
    );
    let mut buf = vec![0; 20];
    buf[0] = 17;
    assert_eq!(frame_len(ByteOrder::Little, &buf, 0), Some(17));
    assert_eq!(frame_len(ByteOrder::Big, &buf, 0), None);
    assert_eq!(next_frame(&buf, 0, 17), None);
    buf.resize(36, 0);
    assert_eq!(next_frame(&buf, 0, 17), Some(20));
}
