use redis_lite::error::RespError;
use redis_lite::parse::{
    parse_integer, parse_message, parse_string, read_until_crlf, take_frame, try_parse_message, ReadStep,
};
use redis_lite::value::Value;

fn bulk(s: &str) -> Value {
    Value::BulkString(s.to_string())
}

#[test]
fn read_until_crlf_finds_first_line() {
    assert_eq!(read_until_crlf(b"abc\r\ndef\r\n"), Some((&b"abc"[..], 5)));
    assert_eq!(read_until_crlf(b"\r\n"), Some((&b""[..], 2)));
    assert_eq!(read_until_crlf(b"a\rb\nc"), None);
    assert_eq!(read_until_crlf(b""), None);
    assert_eq!(read_until_crlf(b"x\r\r\n"), Some((&b"x\r"[..], 4)));
}

#[test]
fn parse_string_and_integer() {
    assert_eq!(parse_string(b"hello"), Ok("hello".to_string()));
    assert_eq!(parse_string(&[0xff, 0x41]), Err(RespError::InvalidString));
    assert_eq!(parse_integer(b"42"), Ok(42));
    assert_eq!(parse_integer(b"-7"), Ok(-7));
    assert_eq!(parse_integer(b"+5"), Ok(5));
    assert_eq!(parse_integer(b""), Err(RespError::InvalidInteger));
    assert_eq!(parse_integer(b"-"), Err(RespError::InvalidInteger));
    assert_eq!(parse_integer(b" 1"), Err(RespError::InvalidInteger));
    assert_eq!(parse_integer(b"9223372036854775808"), Err(RespError::InvalidInteger));
    assert_eq!(parse_integer(b"-9223372036854775808"), Ok(i64::MIN));
    assert_eq!(parse_integer(&[0xff]), Err(RespError::InvalidString));
}

#[test]
fn parse_simple_string() {
    assert_eq!(
        parse_message(b"+OK\r\n"),
        Ok(Some((Value::SimpleString("OK".to_string()), 5)))
    );
    assert_eq!(
        parse_message(b"+PONG\r\n+more"),
        Ok(Some((Value::SimpleString("PONG".to_string()), 7)))
    );
    assert_eq!(parse_message(b"+OK"), Ok(None));
    assert_eq!(parse_message(b"+\xff\r\n"), Err(RespError::InvalidString));
}

#[test]
fn parse_bulk_string() {
    assert_eq!(parse_message(b"$3\r\nabc\r\n"), Ok(Some((bulk("abc"), 9))));
    assert_eq!(parse_message(b"$0\r\n\r\n"), Ok(Some((bulk(""), 6))));
    assert_eq!(parse_message(b"$4\r\na\r\nb\r\n"), Ok(Some((bulk("a\r\nb"), 10))));
    assert_eq!(parse_message(b"$3\r\nab"), Ok(None));
    assert_eq!(parse_message(b"$3\r\nabc"), Ok(None));
    assert_eq!(parse_message(b"$3"), Ok(None));
    assert_eq!(parse_message(b"$x\r\nabc\r\n"), Err(RespError::InvalidInteger));
    assert_eq!(parse_message(b"$-10\r\n"), Ok(None));
}

#[test]
fn bulk_length_overflow_is_refused() {
    assert_eq!(try_parse_message(b"$-1\r\n"), None);
}

#[test]
fn parse_array() {
    let frame = b"*2\r\n$4\r\necho\r\n$2\r\nhi\r\n";
    assert_eq!(
        parse_message(frame),
        Ok(Some((Value::Array(vec![bulk("echo"), bulk("hi")]), frame.len())))
    );
    assert_eq!(parse_message(b"*0\r\n"), Ok(Some((Value::Array(vec![]), 4))));
    assert_eq!(parse_message(b"*-1\r\n"), Ok(Some((Value::Array(vec![]), 5))));
    assert_eq!(parse_message(b"*2\r\n$4\r\necho\r\n$2\r\nh"), Ok(None));
    assert_eq!(parse_message(b"*2\r\n+a\r\n?b\r\n"), Err(RespError::UnrecognisedType));
    assert_eq!(
        parse_message(b"*1\r\n*1\r\n+x\r\n"),
        Ok(Some((Value::Array(vec![Value::Array(vec![Value::SimpleString("x".to_string())])]), 12)))
    );
    assert_eq!(parse_message(b"*z\r\n"), Err(RespError::InvalidInteger));
}

#[test]
fn array_cut_at_element_boundary_needs_more() {
    assert_eq!(parse_message(b"*1\r\n"), Ok(None));
    assert_eq!(parse_message(b"*2\r\n$4\r\necho\r\n"), Ok(None));
    assert_eq!(try_parse_message(b"*1\r\n"), Some(Ok(None)));
}

#[test]
fn empty_buffer_is_refused() {
    assert_eq!(try_parse_message(b""), None);
}

#[test]
fn unknown_type_byte_is_refused() {
    assert_eq!(parse_message(b"-ERR\r\n"), Err(RespError::UnrecognisedType));
    assert_eq!(parse_message(b":1\r\n"), Err(RespError::UnrecognisedType));
    assert_eq!(try_parse_message(b"!"), Some(Err(RespError::UnrecognisedType)));
}

#[test]
fn encode_values() {
    assert_eq!(Value::SimpleString("OK".to_string()).encode(), "+OK\r\n");
    assert_eq!(Value::Error("bad".to_string()).encode(), "-bad\r\n");
    assert_eq!(bulk("hello").encode(), "$5\r\nhello\r\n");
    assert_eq!(bulk("héllo").encode(), "$6\r\nhéllo\r\n");
    assert_eq!(bulk("").encode(), "$0\r\n\r\n");
    assert_eq!(Value::Null.encode(), "$-1\r\n");
    assert_eq!(Value::Null.try_encode(), Some("$-1\r\n".to_string()));
    assert_eq!(Value::Array(vec![]).try_encode(), None);
    assert_eq!(bulk("x").try_encode(), Some("$1\r\nx\r\n".to_string()));
}

#[test]
fn decode_gives_back_what_encode_wrote() {
    for v in [Value::SimpleString("a b".to_string()), bulk("x\r\ny"), bulk("日本")] {
        let copy = v.deep_copy();
        let mut bytes = v.encode().into_bytes();
        let n = bytes.len();
        bytes.extend_from_slice(b"+next\r\n");
        assert_eq!(parse_message(&bytes), Ok(Some((copy, n))));
    }
}

#[test]
fn frame_ignores_what_follows() {
    let a = parse_message(b"$2\r\nab\r\n");
    let b = parse_message(b"$2\r\nab\r\n*garbage");
    assert_eq!(a, b);
}

#[test]
fn to_command_splits_name_and_arguments() {
    let request = Value::Array(vec![bulk("SET"), bulk("k"), bulk("v")]);
    assert_eq!(request.to_command(), Ok(("SET".to_string(), vec![bulk("k"), bulk("v")])));
    let only = Value::Array(vec![bulk("PING")]);
    assert_eq!(only.to_command(), Ok(("PING".to_string(), vec![])));
    assert_eq!(bulk("PING").to_command(), Err(RespError::NotArray));
    assert_eq!(bulk("abc").unwrap_bulk(), "abc".to_string());
}

#[test]
fn deep_copy_is_equal() {
    let v = Value::Array(vec![bulk("a"), Value::Array(vec![Value::Null]), Value::Error("e".to_string())]);
    assert_eq!(v.deep_copy(), v);
}

#[test]
fn error_messages() {
    assert_eq!(RespError::NotArray.message(), "not an array");
    assert_eq!(RespError::UnrecognisedType.message(), "unrecognised message type");
    assert_eq!(RespError::InvalidString.message(), "Could not parse string");
    assert_eq!(RespError::InvalidInteger.message(), "Could not parse integer");
    assert_eq!(RespError::ExpiryEmpty.message(), "cannot parse integer from empty string");
    assert_eq!(RespError::ExpiryInvalidDigit.message(), "invalid digit found in string");
    assert_eq!(RespError::ExpiryTooLarge.message(), "number too large to fit in target type");
}

#[test]
fn take_frame_joins_reads() {
    let mut pending: Vec<u8> = Vec::new();
    assert_eq!(take_frame(&mut pending, b""), ReadStep::NeedMore);
    assert_eq!(take_frame(&mut pending, b"*2\r\n$4\r\nEC"), ReadStep::NeedMore);
    assert_eq!(pending, b"*2\r\n$4\r\nEC".to_vec());
    assert_eq!(
        take_frame(&mut pending, b"HO\r\n$2\r\nhi\r\n+PING\r\n"),
        ReadStep::Frame(Value::Array(vec![bulk("ECHO"), bulk("hi")]))
    );
    assert_eq!(pending, b"+PING\r\n".to_vec());
    assert_eq!(
        take_frame(&mut pending, b""),
        ReadStep::Frame(Value::SimpleString("PING".to_string()))
    );
    assert!(pending.is_empty());
}

#[test]
fn take_frame_drops_malformed_bytes() {
    let mut pending: Vec<u8> = b"?x".to_vec();
    assert_eq!(take_frame(&mut pending, b"\r\n"), ReadStep::Failed(RespError::UnrecognisedType));
    assert!(pending.is_empty());
    let mut pending: Vec<u8> = Vec::new();
    assert_eq!(take_frame(&mut pending, b"$-1\r\n"), ReadStep::Overrun);
}

#[test]
fn frames_come_out_in_order_however_the_stream_is_cut() {
    let stream: &[u8] = b"+PONG\r\n$4\r\na\r\nb\r\n*2\r\n$3\r\nGET\r\n$1\r\nk\r\n$0\r\n\r\n";
    let expected = vec![
        Value::SimpleString("PONG".to_string()),
        bulk("a\r\nb"),
        Value::Array(vec![bulk("GET"), bulk("k")]),
        bulk(""),
    ];
    for size in 1..stream.len() + 1 {
        let mut pending: Vec<u8> = Vec::new();
        let mut got: Vec<Value> = Vec::new();
        for chunk in stream.chunks(size) {
            let mut received: &[u8] = chunk;
            loop {
                match take_frame(&mut pending, received) {
                    ReadStep::Frame(v) => got.push(v),
                    ReadStep::NeedMore => break,
                    other => panic!("unexpected step {:?}", other),
                }
                received = b"";
            }
        }
        assert_eq!(got, expected, "cut into pieces of {} bytes", size);
        assert!(pending.is_empty());
    }
}
