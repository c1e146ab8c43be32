use p2p_ft::decimal::{parse_unsigned_bounded, push_decimal};
use p2p_ft::endpoint::encode_endpoint;
use p2p_ft::fields::{bytes_eq, copy_bytes, join_bytes, push_bytes, split_bytes};

fn decimal_of(n: u64) -> Vec<u8> {
    let mut out = Vec::new();
    push_decimal(&mut out, n);
    out
}

#[test]
fn decimal_writes_like_display() {
    assert_eq!(decimal_of(0), b"0".to_vec());
    assert_eq!(decimal_of(7), b"7".to_vec());
    assert_eq!(decimal_of(10), b"10".to_vec());
    assert_eq!(decimal_of(65535), b"65535".to_vec());
    assert_eq!(decimal_of(u64::MAX), u64::MAX.to_string().into_bytes());
}

#[test]
fn decimal_appends_to_what_is_there() {
    let mut out = b"port=".to_vec();
    push_decimal(&mut out, 4242);
    assert_eq!(out, b"port=4242".to_vec());
}

#[test]
fn parse_accepts_what_from_str_accepts() {
    assert_eq!(parse_unsigned_bounded(b"8080", 65535), Some(8080));
    assert_eq!(parse_unsigned_bounded(b"+12", 65535), Some(12));
    assert_eq!(parse_unsigned_bounded(b"007", 65535), Some(7));
    assert_eq!(parse_unsigned_bounded(b"65535", 65535), Some(65535));
    assert_eq!(
        parse_unsigned_bounded(b"18446744073709551615", u64::MAX),
        Some(u64::MAX)
    );
}

#[test]
fn parse_refuses_what_from_str_refuses() {
    assert_eq!(parse_unsigned_bounded(b"", 65535), None);
    assert_eq!(parse_unsigned_bounded(b"+", 65535), None);
    assert_eq!(parse_unsigned_bounded(b"-1", 65535), None);
    assert_eq!(parse_unsigned_bounded(b"++1", 65535), None);
    assert_eq!(parse_unsigned_bounded(b"12a", 65535), None);
    assert_eq!(parse_unsigned_bounded(b" 12", 65535), None);
    assert_eq!(parse_unsigned_bounded(b"65536", 65535), None);
    assert_eq!(parse_unsigned_bounded(b"18446744073709551616", u64::MAX), None);
    assert_eq!(parse_unsigned_bounded(b"99999999999999999999999", u64::MAX), None);
}

#[test]
fn parse_agrees_with_std_on_samples() {
    for text in ["0", "1", "+0", "00", "65535", "65536", "x", "", "+", "1+", "4294967296"] {
        let ours = parse_unsigned_bounded(text.as_bytes(), 65535).map(|v| v as u16);
        assert_eq!(ours, text.parse::<u16>().ok(), "on {:?}", text);
    }
}

#[test]
fn decimal_roundtrip_on_values() {
    for n in [0u64, 1, 9, 10, 99, 100, 12345, 65535] {
        assert_eq!(parse_unsigned_bounded(&decimal_of(n), 65535), Some(n));
    }
}

#[test]
fn split_yields_every_field() {
    assert_eq!(split_bytes(b"a:b", b':'), vec![b"a".to_vec(), b"b".to_vec()]);
    assert_eq!(split_bytes(b"", b':'), vec![Vec::<u8>::new()]);
    assert_eq!(
        split_bytes(b"a::", b':'),
        vec![b"a".to_vec(), Vec::new(), Vec::new()]
    );
    assert_eq!(split_bytes(b":x", b':'), vec![Vec::new(), b"x".to_vec()]);
    assert_eq!(split_bytes(b"plain", b':'), vec![b"plain".to_vec()]);
}

#[test]
fn split_agrees_with_str_split() {
    for text in ["", "a", "a|b", "|", "||", "a|b|c", "1.2.3.4:5|6.7.8.9:10,x:1|y:2"] {
        let ours = split_bytes(text.as_bytes(), b'|');
        let std: Vec<Vec<u8>> = text.split('|').map(|f| f.as_bytes().to_vec()).collect();
        assert_eq!(ours, std, "on {:?}", text);
    }
}

#[test]
fn join_puts_separator_between_fields() {
    let parts = vec![b"a".to_vec(), b"bc".to_vec(), Vec::new()];
    assert_eq!(join_bytes(&parts, b','), b"a,bc,".to_vec());
    assert_eq!(join_bytes(&Vec::new(), b','), Vec::<u8>::new());
    assert_eq!(join_bytes(&vec![b"one".to_vec()], b','), b"one".to_vec());
}

#[test]
fn split_then_join_gives_back_the_text() {
    for text in ["", "a,b", ",,", "x,,y"] {
        let parts = split_bytes(text.as_bytes(), b',');
        assert_eq!(join_bytes(&parts, b','), text.as_bytes().to_vec());
    }
}

#[test]
fn bytes_helpers() {
    assert!(bytes_eq(b"abc", b"abc"));
    assert!(!bytes_eq(b"abc", b"abd"));
    assert!(!bytes_eq(b"abc", b"ab"));
    assert!(bytes_eq(b"", b""));
    assert_eq!(copy_bytes(b"xyz"), b"xyz".to_vec());
    let mut out = b"ab".to_vec();
    push_bytes(&mut out, b"cd");
    assert_eq!(out, b"abcd".to_vec());
}

#[test]
fn endpoint_is_address_colon_port() {
    assert_eq!(encode_endpoint(b"1.2.3.4", 80), b"1.2.3.4:80".to_vec());
    assert_eq!(encode_endpoint(b"0.0.0.0", 0), b"0.0.0.0:0".to_vec());
    assert_eq!(encode_endpoint(b"10.0.0.7", 65535), b"10.0.0.7:65535".to_vec());
}
