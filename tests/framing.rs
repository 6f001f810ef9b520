use resp_store::connection::FrameBuffer;
use resp_store::decode::{parse_message, ParseError};
use resp_store::value::{CommandError, Value};

fn bulk(s: &str) -> Value {
    Value::BulkString(s.to_string())
}

#[test]
fn encode_null() {
    assert_eq!(Value::Null.encode(), b"$-1\r\n".to_vec());
}

#[test]
fn encode_status() {
    assert_eq!(Value::SimpleString("OK".to_string()).encode(), b"+OK\r\n".to_vec());
}

#[test]
fn encode_error() {
    assert_eq!(Value::Error("bad thing".to_string()).encode(), b"-bad thing\r\n".to_vec());
}

#[test]
fn encode_bulk_counts_bytes() {
    assert_eq!(bulk("hi").encode(), b"$2\r\nhi\r\n".to_vec());
    let text = "h\u{e9}llo";
    let mut expected = b"$6\r\n".to_vec();
    expected.extend_from_slice(text.as_bytes());
    expected.extend_from_slice(b"\r\n");
    assert_eq!(bulk(text).encode(), expected);
}

#[test]
fn encode_bulk_long_length() {
    let text = "x".repeat(1234);
    let bytes = bulk(&text).encode();
    assert!(bytes.starts_with(b"$1234\r\n"));
    assert_eq!(bytes.len(), 1 + 4 + 2 + 1234 + 2);
}

#[test]
fn round_trip_status_and_bulk() {
    for v in [
        Value::SimpleString("PONG".to_string()),
        Value::SimpleString(String::new()),
        bulk("hello"),
        bulk(""),
        bulk("line\r\nbreak"),
        bulk("caf\u{e9}"),
    ] {
        let bytes = v.clone().encode();
        assert_eq!(parse_message(&bytes), Ok(Some((v, bytes.len()))));
    }
}

#[test]
fn absence_does_not_decode() {
    assert_eq!(parse_message(b"$-1\r\n"), Err(ParseError::InvalidLength));
}

#[test]
fn error_marker_is_not_decoded() {
    assert_eq!(parse_message(b"-bad\r\n"), Err(ParseError::UnrecognizedType));
}

#[test]
fn empty_buffer_is_incomplete() {
    assert_eq!(parse_message(b""), Ok(None));
}

#[test]
fn unknown_marker_fails() {
    assert_eq!(parse_message(b"?what\r\n"), Err(ParseError::UnrecognizedType));
}

#[test]
fn bad_length_fails() {
    assert_eq!(parse_message(b"$x\r\nab\r\n"), Err(ParseError::InvalidLength));
    assert_eq!(parse_message(b"*\r\n"), Err(ParseError::InvalidLength));
    assert_eq!(parse_message(b"$99999999999999999999999\r\n"), Err(ParseError::InvalidLength));
}

#[test]
fn missing_terminator_fails() {
    assert_eq!(parse_message(b"$2\r\nabXY"), Err(ParseError::MissingTerminator));
}

#[test]
fn invalid_text_fails() {
    assert_eq!(parse_message(b"+\xff\r\n"), Err(ParseError::InvalidText));
    assert_eq!(parse_message(b"$1\r\n\xff\r\n"), Err(ParseError::InvalidText));
}

#[test]
fn partial_frames_are_incomplete() {
    assert_eq!(parse_message(b"+PON"), Ok(None));
    assert_eq!(parse_message(b"$5\r\nhel"), Ok(None));
    assert_eq!(parse_message(b"$5\r\nhello\r"), Ok(None));
    assert_eq!(parse_message(b"*2\r\n$1\r\na\r\n"), Ok(None));
    assert_eq!(parse_message(b"$123456789\r\nab"), Ok(None));
}

#[test]
fn trailing_bytes_are_left() {
    let r = parse_message(b"+OK\r\n+NEXT\r\n");
    assert_eq!(r, Ok(Some((Value::SimpleString("OK".to_string()), 5))));
}

#[test]
fn request_array_decodes() {
    let bytes = b"*2\r\n$4\r\nECHO\r\n$2\r\nhi\r\n";
    let expected = Value::Array(vec![bulk("ECHO"), bulk("hi")]);
    assert_eq!(parse_message(bytes), Ok(Some((expected, bytes.len()))));
}

#[test]
fn nested_array_consumed_is_sum_of_parts() {
    let inner = b"*1\r\n$1\r\na\r\n";
    let second = b"$2\r\nbc\r\n";
    let mut bytes = b"*2\r\n".to_vec();
    bytes.extend_from_slice(inner);
    bytes.extend_from_slice(second);
    bytes.extend_from_slice(b"+tail\r\n");
    let expected = Value::Array(vec![Value::Array(vec![bulk("a")]), bulk("bc")]);
    assert_eq!(parse_message(&bytes), Ok(Some((expected, 4 + inner.len() + second.len()))));
    assert_eq!(parse_message(inner), Ok(Some((Value::Array(vec![bulk("a")]), inner.len()))));
}

#[test]
fn empty_array_decodes() {
    assert_eq!(parse_message(b"*0\r\n"), Ok(Some((Value::Array(vec![]), 4))));
}

#[test]
fn split_delivery_at_every_offset() {
    let frame = b"*3\r\n$3\r\nSET\r\n$1\r\nk\r\n$5\r\nva\r\nl\r\n";
    let expected = Value::Array(vec![bulk("SET"), bulk("k"), bulk("va\r\nl")]);
    assert_eq!(parse_message(frame), Ok(Some((expected.clone(), frame.len()))));
    for i in 0..frame.len() {
        let mut buf = FrameBuffer::new();
        buf.push(&frame[..i]);
        assert_eq!(buf.next_frame(), Ok(None));
        buf.push(&frame[i..]);
        assert_eq!(buf.next_frame(), Ok(Some(expected.clone())));
        assert_eq!(buf.next_frame(), Ok(None));
    }
}

#[test]
fn frame_buffer_keeps_next_frame() {
    let mut buf = FrameBuffer::new();
    buf.push(b"+A\r\n+B");
    assert_eq!(buf.next_frame(), Ok(Some(Value::SimpleString("A".to_string()))));
    assert_eq!(buf.next_frame(), Ok(None));
    buf.push(b"\r\n");
    assert_eq!(buf.next_frame(), Ok(Some(Value::SimpleString("B".to_string()))));
}

#[test]
fn frame_buffer_reports_malformed() {
    let mut buf = FrameBuffer::new();
    buf.push(b"!oops\r\n");
    assert_eq!(buf.next_frame(), Err(ParseError::UnrecognizedType));
}

#[test]
fn to_command_splits_name_and_args() {
    let v = Value::Array(vec![bulk("SET"), bulk("k"), bulk("v")]);
    assert_eq!(v.to_command(), Ok(("SET".to_string(), vec![bulk("k"), bulk("v")])));
}

#[test]
fn to_command_errors() {
    assert_eq!(bulk("PING").to_command(), Err(CommandError::NotAnArray));
    assert_eq!(Value::Array(vec![]).to_command(), Err(CommandError::EmptyArray));
    assert_eq!(
        Value::Array(vec![Value::SimpleString("PING".to_string())]).to_command(),
        Err(CommandError::NameNotBulk)
    );
}

#[test]
fn unwrap_bulk_gives_text() {
    assert_eq!(bulk("abc").unwrap_bulk(), "abc".to_string());
}

#[test]
fn value_equality() {
    assert_eq!(Value::Array(vec![bulk("a")]), Value::Array(vec![bulk("a")]));
    assert_ne!(Value::Array(vec![bulk("a")]), Value::Array(vec![bulk("b")]));
    assert_ne!(Value::Array(vec![bulk("a")]), Value::Array(vec![]));
    assert_ne!(Value::Null, bulk(""));
}
