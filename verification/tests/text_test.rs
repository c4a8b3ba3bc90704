use rust_redis::text::{decimal_bytes, parse_u64_prefix, str_eq};

#[test]
fn decimal_numerals() {
    assert_eq!(decimal_bytes(0), b"0".to_vec());
    assert_eq!(decimal_bytes(907), b"907".to_vec());
    assert_eq!(decimal_bytes(u64::MAX), b"18446744073709551615".to_vec());
}

#[test]
fn numbers_at_start() {
    assert_eq!(parse_u64_prefix(b"42 is the answer"), Some(42));
    assert_eq!(parse_u64_prefix(b"0042"), Some(42));
    assert_eq!(parse_u64_prefix(b"+"), Some(0));
    assert_eq!(parse_u64_prefix(b"-00"), Some(0));
    assert_eq!(parse_u64_prefix(b"-1"), None);
    assert_eq!(parse_u64_prefix(b""), None);
    assert_eq!(parse_u64_prefix(b"x1"), None);
}

#[test]
fn string_equality() {
    assert!(str_eq("get", "get"));
    assert!(!str_eq("get", "GET"));
    assert!(!str_eq("ge", "get"));
}
