use redis_lite::error::RespError;
use redis_lite::server::{handle_request, handle_request_at, Reply};
use redis_lite::store::Store;
use redis_lite::value::Value;

fn bulk(s: &str) -> Value {
    Value::BulkString(s.to_string())
}

fn command(words: &[&str]) -> Value {
    Value::Array(words.iter().map(|w| bulk(w)).collect())
}

fn simple(s: &str) -> Reply {
    Reply::Send(Value::SimpleString(s.to_string()))
}

fn error(s: &str) -> Reply {
    Reply::Send(Value::Error(s.to_string()))
}

#[test]
fn ping_answers_pong() {
    let mut store = Store::new();
    assert_eq!(handle_request(&mut store, &command(&["PING"])), simple("PONG"));
    assert_eq!(handle_request(&mut store, &command(&["ping"])), simple("PONG"));
    assert_eq!(handle_request(&mut store, &command(&["PiNg", "x"])), simple("PONG"));
}

#[test]
fn echo_answers_argument() {
    let mut store = Store::new();
    assert_eq!(handle_request(&mut store, &command(&["ECHO", "hey"])), Reply::Send(bulk("hey")));
    assert_eq!(handle_request(&mut store, &command(&["echo"])), Reply::Abort);
}

#[test]
fn set_then_get() {
    let mut store = Store::new();
    assert_eq!(handle_request(&mut store, &command(&["GET", "k"])), Reply::Send(Value::Null));
    assert_eq!(handle_request(&mut store, &command(&["SET", "k", "v"])), simple("OK"));
    assert_eq!(handle_request(&mut store, &command(&["GET", "k"])), simple("v"));
    assert_eq!(handle_request(&mut store, &command(&["get", "k", "extra"])), simple("v"));
}

#[test]
fn set_with_expiry() {
    let mut store = Store::new();
    assert_eq!(
        handle_request_at(&mut store, &command(&["SET", "k", "v", "EX", "2"]), 100),
        simple("OK")
    );
    assert_eq!(handle_request_at(&mut store, &command(&["GET", "k"]), 2099), simple("v"));
    assert_eq!(handle_request_at(&mut store, &command(&["GET", "k"]), 2100), Reply::Send(Value::Null));
}

#[test]
fn set_with_bad_expiry_fails_and_keeps_store() {
    let mut store = Store::new();
    let cases = [
        ("soon", RespError::ExpiryInvalidDigit),
        ("-1", RespError::ExpiryInvalidDigit),
        ("+", RespError::ExpiryInvalidDigit),
        ("", RespError::ExpiryEmpty),
        ("18446744073709551616", RespError::ExpiryTooLarge),
        ("99999999999999999999x", RespError::ExpiryTooLarge),
        ("12x99999999999999999999", RespError::ExpiryInvalidDigit),
    ];
    for (amount, expected) in cases {
        assert_eq!(
            handle_request_at(&mut store, &command(&["SET", "k", "v", "EX", amount]), 0),
            Reply::Fail(expected)
        );
        assert_eq!(amount.parse::<u64>().unwrap_err().to_string(), expected.message());
    }
    assert_eq!(handle_request_at(&mut store, &command(&["GET", "k"]), 0), Reply::Send(Value::Null));
}

#[test]
fn set_with_three_arguments_ignores_the_third() {
    let mut store = Store::new();
    assert_eq!(handle_request_at(&mut store, &command(&["SET", "k", "v", "EX"]), 0), simple("OK"));
    assert_eq!(handle_request_at(&mut store, &command(&["GET", "k"]), 1_000_000), simple("v"));
}

#[test]
fn usage_errors() {
    let mut store = Store::new();
    assert_eq!(handle_request(&mut store, &command(&["GET"])), error("Get requires one argument"));
    assert_eq!(
        handle_request(&mut store, &Value::Array(vec![bulk("GET"), Value::SimpleString("k".to_string())])),
        error("Get requires one argument")
    );
    assert_eq!(
        handle_request(&mut store, &command(&["SET", "k"])),
        error("Set requires two or four arguments")
    );
}

#[test]
fn unknown_command_is_named() {
    let mut store = Store::new();
    assert_eq!(
        handle_request(&mut store, &command(&["FLUSHALL"])),
        error("command not implemented: FLUSHALL")
    );
}

#[test]
fn malformed_requests() {
    let mut store = Store::new();
    assert_eq!(handle_request(&mut store, &bulk("PING")), Reply::Fail(RespError::NotArray));
    assert_eq!(handle_request(&mut store, &Value::Array(vec![])), Reply::Abort);
    assert_eq!(
        handle_request(&mut store, &Value::Array(vec![Value::SimpleString("PING".to_string())])),
        Reply::Abort
    );
}

#[test]
fn get_of_missing_key_is_written_as_null() {
    let mut store = Store::new();
    match handle_request(&mut store, &command(&["GET", "nothing"])) {
        Reply::Send(v) => assert_eq!(v.try_encode(), Some("$-1\r\n".to_string())),
        other => panic!("unexpected reply {:?}", other),
    }
}
