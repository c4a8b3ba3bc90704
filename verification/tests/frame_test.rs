use bytes::Bytes;
use rust_redis::frame::{Frame, FrameError};

fn encoded(f: &Frame) -> Vec<u8> {
    let mut out = Vec::new();
    f.encode(&mut out);
    out
}

#[test]
fn encode_each_kind() {
    assert_eq!(encoded(&Frame::Simple("OK".into())), b"+OK\r\n".to_vec());
    assert_eq!(encoded(&Frame::Error("bad".into())), b"-bad\r\n".to_vec());
    assert_eq!(encoded(&Frame::Integer(1234)), b":1234\r\n".to_vec());
    assert_eq!(encoded(&Frame::Bulk(Bytes::from("hey"))), b"$3\r\nhey\r\n".to_vec());
    assert_eq!(encoded(&Frame::Null), b"$-1\r\n".to_vec());
    let arr = Frame::Array(vec![Frame::Bulk(Bytes::from("get")), Frame::Integer(0)]);
    assert_eq!(encoded(&arr), b"*2\r\n$3\r\nget\r\n:0\r\n".to_vec());
}

#[test]
fn parse_each_kind() {
    let (f, n) = Frame::parse(b"+PONG\r\nrest").unwrap();
    assert!(matches!(f, Frame::Simple(s) if s == "PONG"));
    assert_eq!(n, 7);
    let (f, n) = Frame::parse(b":42\r\n").unwrap();
    assert!(matches!(f, Frame::Integer(42)));
    assert_eq!(n, 5);
    let (f, n) = Frame::parse(b"$-1\r\n").unwrap();
    assert!(matches!(f, Frame::Null));
    assert_eq!(n, 5);
    let (f, n) = Frame::parse(b"$5\r\nhello\r\n").unwrap();
    assert!(matches!(f, Frame::Bulk(b) if b == "hello"));
    assert_eq!(n, 11);
    let (f, n) = Frame::parse(b"*2\r\n$3\r\nget\r\n$1\r\nk\r\n").unwrap();
    match f {
        Frame::Array(items) => {
            assert_eq!(items.len(), 2);
            assert!(matches!(&items[1], Frame::Bulk(b) if b == "k"));
        }
        _ => panic!("expected an array"),
    }
    assert_eq!(n, 20);
}

#[test]
fn parse_incomplete_and_invalid() {
    assert_eq!(Frame::parse(b"").unwrap_err(), FrameError::Incomplete);
    assert_eq!(Frame::parse(b"+OK").unwrap_err(), FrameError::Incomplete);
    assert_eq!(Frame::parse(b"$5\r\nhel").unwrap_err(), FrameError::Incomplete);
    assert_eq!(Frame::parse(b"*2\r\n:1\r\n").unwrap_err(), FrameError::Incomplete);
    assert_eq!(Frame::parse(b"$-1").unwrap_err(), FrameError::Incomplete);
    assert_eq!(Frame::parse(b"?x\r\n").unwrap_err(), FrameError::InvalidTypeByte(b'?'));
    assert_eq!(Frame::parse(b":x\r\n").unwrap_err(), FrameError::InvalidFormat);
    assert_eq!(Frame::parse(b"$-2\r\n").unwrap_err(), FrameError::InvalidFormat);
    assert_eq!(Frame::parse(b"+\xff\r\n").unwrap_err(), FrameError::InvalidUtf8);
}

#[test]
fn encoded_frames_read_back() {
    let frames = vec![
        Frame::Simple("hello world".into()),
        Frame::Error("ERR nope".into()),
        Frame::Integer(u64::MAX),
        Frame::Bulk(Bytes::from(vec![0u8, 13, 10, 255])),
        Frame::Null,
        Frame::Array(vec![Frame::Array(vec![Frame::Integer(1)]), Frame::Bulk(Bytes::new())]),
    ];
    for f in &frames {
        let mut bytes = encoded(f);
        let len = bytes.len();
        bytes.extend_from_slice(b"+trailing\r\n");
        let (back, n) = Frame::parse(&bytes).unwrap();
        assert_eq!(n, len);
        assert_eq!(encoded(&back), encoded(f));
    }
}

#[test]
fn parse_at_offset() {
    let data = b"+a\r\n:7\r\n";
    let (f, n) = Frame::parse_at(data, 4).unwrap();
    assert!(matches!(f, Frame::Integer(7)));
    assert_eq!(n, 8);
}

#[test]
fn array_builders() {
    let mut f = Frame::array();
    f.push_bulk(Bytes::from("x"));
    assert_eq!(encoded(&f), b"*1\r\n$1\r\nx\r\n".to_vec());
}
