use tokio_redis::connection::{Connection, ConnectionError};
use tokio_redis::frame::Frame;
use tokio_redis::parse::{decode_at, Parsed};

fn bulk(s: &str) -> Frame {
    Frame::Bulk(s.as_bytes().to_vec())
}

fn sample_frames() -> Vec<Frame> {
    vec![
        Frame::Simple(b"OK".to_vec()),
        Frame::Simple(b"a\rb\nc\r".to_vec()),
        Frame::Error(b"ERR boom".to_vec()),
        Frame::Integer(0),
        Frame::Integer(-42),
        Frame::Integer(i64::MAX),
        Frame::Integer(i64::MIN),
        bulk(""),
        Frame::Bulk(b"bin\r\nary\x00".to_vec()),
        Frame::Null,
        Frame::Array(vec![]),
        Frame::Array(vec![bulk("SET"), bulk("foo"), bulk("bar")]),
        Frame::Array(vec![Frame::Integer(7), Frame::Array(vec![Frame::Null, Frame::Simple(b"x".to_vec())])]),
    ]
}

#[test]
fn encodes_exact_bytes() {
    assert_eq!(Frame::Simple(b"OK".to_vec()).encode(), b"+OK\r\n".to_vec());
    assert_eq!(Frame::Error(b"ERR x".to_vec()).encode(), b"-ERR x\r\n".to_vec());
    assert_eq!(Frame::Integer(-42).encode(), b":-42\r\n".to_vec());
    assert_eq!(Frame::Integer(1000).encode(), b":1000\r\n".to_vec());
    assert_eq!(bulk("hi").encode(), b"$2\r\nhi\r\n".to_vec());
    assert_eq!(Frame::Null.encode(), b"$-1\r\n".to_vec());
    assert_eq!(
        Frame::Array(vec![bulk("GET"), bulk("foo")]).encode(),
        b"*2\r\n$3\r\nGET\r\n$3\r\nfoo\r\n".to_vec()
    );
}

#[test]
fn round_trip_every_sample() {
    for f in sample_frames() {
        let mut bytes = f.encode();
        let n = bytes.len();
        bytes.extend_from_slice(b"+next\r\n");
        assert_eq!(decode_at(&bytes, 0), Parsed::Complete(f, n));
    }
}

#[test]
fn split_at_every_point_decodes_the_same() {
    for f in sample_frames() {
        let bytes = f.encode();
        for k in 0..bytes.len() {
            let mut conn = Connection::new();
            conn.extend(&bytes[..k]);
            assert_eq!(conn.parse_frame(), Ok(None));
            assert_eq!(conn.buffered(), &bytes[..k]);
            conn.extend(&bytes[k..]);
            let got = conn.parse_frame().unwrap().unwrap();
            assert_eq!(got, f);
            assert!(conn.buffered().is_empty());
        }
    }
}

#[test]
fn connection_keeps_bytes_after_a_frame() {
    let mut conn = Connection::new();
    conn.extend(b"+A\r\n:5\r\n$3\r\nab");
    assert_eq!(conn.parse_frame(), Ok(Some(Frame::Simple(b"A".to_vec()))));
    assert_eq!(conn.parse_frame(), Ok(Some(Frame::Integer(5))));
    assert_eq!(conn.parse_frame(), Ok(None));
    assert_eq!(conn.buffered(), b"$3\r\nab");
}

#[test]
fn malformed_inputs() {
    assert_eq!(decode_at(b"?x\r\n", 0), Parsed::Malformed);
    assert_eq!(decode_at(b"$-2\r\n", 0), Parsed::Malformed);
    assert_eq!(decode_at(b":12a\r\n", 0), Parsed::Malformed);
    assert_eq!(decode_at(b":\r\n", 0), Parsed::Malformed);
    assert_eq!(decode_at(b":9223372036854775808\r\n", 0), Parsed::Malformed);
    assert_eq!(decode_at(b"$2\r\nabcd", 0), Parsed::Malformed);
    assert_eq!(decode_at(b"*1\r\n!\r\n", 0), Parsed::Malformed);
    let mut conn = Connection::new();
    conn.extend(b"?oops\r\n");
    assert_eq!(conn.parse_frame(), Err(ConnectionError::Malformed));
}

#[test]
fn truncated_inputs_are_incomplete() {
    assert_eq!(decode_at(b"", 0), Parsed::Incomplete);
    assert_eq!(decode_at(b"+OK", 0), Parsed::Incomplete);
    assert_eq!(decode_at(b"$5\r\nab", 0), Parsed::Incomplete);
    assert_eq!(decode_at(b"*2\r\n:1\r\n", 0), Parsed::Incomplete);
}

#[test]
fn null_array_and_extreme_integers() {
    assert_eq!(decode_at(b"*-1\r\n", 0), Parsed::Complete(Frame::Null, 5));
    assert_eq!(
        decode_at(b":-9223372036854775808\r\n", 0),
        Parsed::Complete(Frame::Integer(i64::MIN), 23)
    );
    assert_eq!(decode_at(b":007\r\n", 0), Parsed::Complete(Frame::Integer(7), 6));
}

#[test]
fn end_of_stream_outcomes() {
    let conn = Connection::new();
    assert_eq!(conn.end_of_stream(), Ok(None));
    let mut conn = Connection::new();
    conn.extend(b"*1\r\n");
    assert_eq!(conn.end_of_stream(), Err(ConnectionError::ResetMidFrame));
}
