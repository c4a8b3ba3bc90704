use bytes::Bytes;
use rust_redis::frame::Frame;
use rust_redis::parse::{Parse, ParseError, ProtocolError};

#[test]
fn parse_next_string() {
    let frame = Frame::Array(vec![
        Frame::Bulk("hello".into()),
        Frame::Bulk("world".into()),
    ]);
    let mut parse = Parse::new(frame).unwrap();
    assert_eq!(parse.next_string().unwrap(), "hello");
    assert_eq!(parse.next_string().unwrap(), "world");
    assert!(parse.next_string().is_err());
}

#[test]
fn parse_next_bytes() {
    let frame = Frame::Array(vec![
        Frame::Simple("hello".into()),
        Frame::Bulk("world".into()),
        Frame::Integer(42),
    ]);
    let mut parse = Parse::new(frame).unwrap();
    assert_eq!(parse.next_bytes().unwrap(), "hello");
    assert_eq!(parse.next_bytes().unwrap(), "world");
    assert!(parse.next_bytes().is_err());
}

#[test]
fn parse_next_int() {
    let frame = Frame::Array(vec![
        Frame::Integer(42),
        Frame::Simple("43".into()),
        Frame::Bulk("44".into()),
        Frame::Bulk("not a number".into()),
    ]);
    let mut parse = Parse::new(frame).unwrap();
    assert_eq!(parse.next_int().unwrap(), 42);
    assert_eq!(parse.next_int().unwrap(), 43);
    assert_eq!(parse.next_int().unwrap(), 44);
    assert!(parse.next_int().is_err());
}

#[test]
fn parse_finish_ok() {
    let frame = Frame::Array(vec![
        Frame::Bulk("hello".into()),
        Frame::Bulk("world".into()),
    ]);
    let mut parse = Parse::new(frame).unwrap();
    let _ = parse.next_string().unwrap();
    let _ = parse.next_string().unwrap();
    assert!(parse.finish().is_ok());
}

#[test]
fn parse_finish_err() {
    let frame = Frame::Array(vec![
        Frame::Bulk("hello".into()),
        Frame::Bulk("world".into()),
    ]);
    let mut parse = Parse::new(frame).unwrap();
    let _ = parse.next_string().unwrap();
    // let _ = parse.next_string().unwrap();
    assert!(parse.finish().is_err());
}

#[test]
fn parse_non_array_err() {
    let frame = Frame::Simple("not an array".into());
    assert!(Parse::new(frame).is_err());
}

#[test]
fn parse_end_of_stream_error() {
    let mut parse = Parse::new(Frame::Array(vec![])).unwrap();
    assert!(matches!(parse.next_string(), Err(ParseError::EndOfStream)));
    assert!(matches!(parse.next_bytes(), Err(ParseError::EndOfStream)));
    assert!(matches!(parse.next_int(), Err(ParseError::EndOfStream)));
    assert!(matches!(parse.next(), Err(ParseError::EndOfStream)));
    assert!(parse.finish().is_ok());
}

#[test]
fn parse_error_variants() {
    let frame = Frame::Array(vec![
        Frame::Bulk(Bytes::from(vec![0xff, 0xfe])),
        Frame::Integer(7),
        Frame::Null,
        Frame::Simple("x12".into()),
        Frame::Null,
    ]);
    let mut parse = Parse::new(frame).unwrap();
    assert!(matches!(parse.next_string(), Err(ParseError::Other(ProtocolError::InvalidString))));
    assert!(matches!(
        parse.next_string(),
        Err(ParseError::Other(ProtocolError::ExpectedString(Frame::Integer(7))))
    ));
    assert!(matches!(
        parse.next_bytes(),
        Err(ParseError::Other(ProtocolError::ExpectedString(Frame::Null)))
    ));
    assert!(matches!(parse.next_int(), Err(ParseError::Other(ProtocolError::InvalidNumber))));
    assert!(matches!(
        parse.next_int(),
        Err(ParseError::Other(ProtocolError::ExpectedInt(Frame::Null)))
    ));
    assert!(parse.finish().is_ok());
}

#[test]
fn parse_non_array_keeps_frame() {
    match Parse::new(Frame::Integer(5)) {
        Err(ParseError::Other(ProtocolError::ExpectedArray(Frame::Integer(5)))) => {}
        _ => panic!("expected the frame back in the error"),
    }
}

#[test]
fn parse_finish_reports_extra_parts() {
    let mut parse = Parse::new(Frame::Array(vec![Frame::Integer(1)])).unwrap();
    assert!(matches!(parse.finish(), Err(ParseError::Other(ProtocolError::ExpectedEnd))));
    assert!(parse.finish().is_ok());
}

#[test]
fn parse_int_with_sign_and_suffix() {
    let frame = Frame::Array(vec![
        Frame::Bulk("+17abc".into()),
        Frame::Bulk("-0".into()),
        Frame::Bulk("-3".into()),
        Frame::Bulk("18446744073709551616".into()),
        Frame::Bulk("18446744073709551615".into()),
    ]);
    let mut parse = Parse::new(frame).unwrap();
    assert_eq!(parse.next_int().unwrap(), 17);
    assert_eq!(parse.next_int().unwrap(), 0);
    assert!(parse.next_int().is_err());
    assert!(parse.next_int().is_err());
    assert_eq!(parse.next_int().unwrap(), u64::MAX);
}

#[test]
fn parse_simple_to_bytes_is_utf8() {
    let mut parse = Parse::new(Frame::Array(vec![Frame::Simple("é".into())])).unwrap();
    assert_eq!(parse.next_bytes().unwrap(), Bytes::from(vec![0xc3, 0xa9]));
}
