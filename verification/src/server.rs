//! What the server answers to one request, and what the request does to the
//! store: `PING`, `ECHO`, `GET` and `SET`, with names in any case.
use crate::error::RespError;
use crate::store::{Store, StoreView, after_read, after_set, after_set_with_expiry, lookup};
use crate::text::{ascii_lowercase, parse_u64, to_ascii_lowercase, u64_parse};
use crate::value::{Value, ValueView, lemma_views_of, views_of};
use vstd::prelude::*;

verus! {

/// What the connection does after a request.
#[derive(Debug, PartialEq, Eq)]
pub enum Reply {
    /// Writes this value back.
    Send(Value),
    /// Ends with this error.
    Fail(RespError),
    /// Stops at once: the request is an array with no command name (empty,
    /// or not starting with a bulk string), or an `ECHO` with nothing to echo.
    Abort,
}

/// The abstract form of a reply.
pub enum ReplyView {
    Send(ValueView),
    Fail(RespError),
    Abort,
}

impl View for Reply {
    type V = ReplyView;

    open spec fn view(&self) -> ReplyView {
        match self {
            Reply::Send(v) => ReplyView::Send(v@),
            Reply::Fail(e) => ReplyView::Fail(*e),
            Reply::Abort => ReplyView::Abort,
        }
    }
}

pub open spec fn word_ping() -> Seq<char> {
    seq!['p', 'i', 'n', 'g']
}

pub open spec fn word_echo() -> Seq<char> {
    seq!['e', 'c', 'h', 'o']
}

pub open spec fn word_get() -> Seq<char> {
    seq!['g', 'e', 't']
}

pub open spec fn word_set() -> Seq<char> {
    seq!['s', 'e', 't']
}

/// The answer to `PING`.
pub open spec fn text_pong() -> Seq<char> {
    seq!['P', 'O', 'N', 'G']
}

/// The answer to a `SET` that stored its value.
pub open spec fn text_ok() -> Seq<char> {
    seq!['O', 'K']
}

/// The error answer to a `GET` without a key.
pub open spec fn text_get_usage() -> Seq<char> {
    "Get requires one argument"@
}

/// The error answer to a `SET` without a key and a value.
pub open spec fn text_set_usage() -> Seq<char> {
    "Set requires two or four arguments"@
}

/// The error answer to a command of another name, which follows this text.
pub open spec fn text_unknown() -> Seq<char> {
    "command not implemented: "@
}

/// The text of a bulk string value.
pub open spec fn bulk_text(v: ValueView) -> Seq<char> {
    match v {
        ValueView::BulkString(s) => s,
        _ => Seq::empty(),
    }
}

/// The answer to a `GET` of `key` at time `now`, and the store after it.
pub open spec fn respond_get(store: StoreView, key: Seq<char>, now: u128) -> (StoreView, ReplyView) {
    match lookup(store, key, now) {
        Some(v) => (after_read(store, key, now), ReplyView::Send(ValueView::SimpleString(v))),
        None => (after_read(store, key, now), ReplyView::Send(ValueView::Null)),
    }
}

/// The answer to a `SET` with the arguments `args` at time `now`, and the
/// store after it: key and value, then optionally an option word and an
/// expiry in seconds.
pub open spec fn respond_set(store: StoreView, args: Seq<ValueView>, now: u128) -> (
    StoreView,
    ReplyView,
) {
    if args.len() >= 2 && args[0] is BulkString && args[1] is BulkString {
        let key = bulk_text(args[0]);
        let value = bulk_text(args[1]);
        let ok = ReplyView::Send(ValueView::SimpleString(text_ok()));
        if args.len() >= 4 && args[2] is BulkString && args[3] is BulkString {
            match u64_parse(bulk_text(args[3])) {
                Ok(seconds) => (after_set_with_expiry(store, key, value, seconds, now), ok),
                Err(e) => (store, ReplyView::Fail(e)),
            }
        } else {
            (after_set(store, key, value), ok)
        }
    } else {
        (store, ReplyView::Send(ValueView::Error(text_set_usage())))
    }
}

/// The answer to the request `request` at time `now`, and the store after
/// it.
pub open spec fn respond(store: StoreView, request: ValueView, now: u128) -> (StoreView, ReplyView) {
    match request {
        ValueView::Array(items) => if items.len() == 0 || !(items[0] is BulkString) {
            (store, ReplyView::Abort)
        } else {
            let name = bulk_text(items[0]);
            let args = items.drop_first();
            let command = ascii_lowercase(name);
            if command == word_ping() {
                (store, ReplyView::Send(ValueView::SimpleString(text_pong())))
            } else if command == word_echo() {
                if args.len() == 0 {
                    (store, ReplyView::Abort)
                } else {
                    (store, ReplyView::Send(args[0]))
                }
            } else if command == word_get() {
                if args.len() > 0 && args[0] is BulkString {
                    respond_get(store, bulk_text(args[0]), now)
                } else {
                    (store, ReplyView::Send(ValueView::Error(text_get_usage())))
                }
            } else if command == word_set() {
                respond_set(store, args, now)
            } else {
                (store, ReplyView::Send(ValueView::Error(text_unknown() + name)))
            }
        },
        _ => (store, ReplyView::Fail(RespError::NotArray)),
    }
}

/// A string that holds `text`.
fn owned(text: &str) -> (r: String)
    ensures
        r@ == text@,
{
    text.to_owned()
}

/// Runs a `SET` with the arguments `args` at time `now`.
fn run_set(store: &mut Store, args: &Vec<Value>, now: u128) -> (r: Reply)
    ensures
        (final(store)@, r@) == respond_set(old(store)@, views_of(args@), now),
        final(store).clock_floor() == old(store).clock_floor(),
{
    proof {
        lemma_views_of(args@);
        reveal_strlit("OK");
        assert("OK"@ =~= text_ok());
    }
    if args.len() >= 2 {
        if let (Value::BulkString(key), Value::BulkString(value)) = (&args[0], &args[1]) {
            if args.len() >= 4 {
                if let (Value::BulkString(_), Value::BulkString(amount)) = (&args[2], &args[3]) {
                    match parse_u64(amount.as_str()) {
                        Ok(seconds) => {
                            store.set_with_expiry_at(key.clone(), value.clone(), seconds, now);
                        },
                        Err(e) => {
                            return Reply::Fail(e);
                        },
                    }
                    return Reply::Send(Value::SimpleString(owned("OK")));
                }
            }
            store.set(key.clone(), value.clone());
            return Reply::Send(Value::SimpleString(owned("OK")));
        }
    }
    Reply::Send(Value::Error(owned("Set requires two or four arguments")))
}

/// Answers the request `request` at time `now`, reading and changing the
/// store as the command asks.
pub fn handle_request_at(store: &mut Store, request: &Value, now: u128) -> (r: Reply)
    ensures
        (final(store)@, r@) == respond(old(store)@, request@, now),
        final(store).clock_floor() == old(store).clock_floor(),
{
    proof {
        reveal_strlit("ping");
        reveal_strlit("echo");
        reveal_strlit("get");
        reveal_strlit("set");
        reveal_strlit("PONG");
        assert("ping"@ =~= word_ping());
        assert("echo"@ =~= word_echo());
        assert("get"@ =~= word_get());
        assert("set"@ =~= word_set());
        assert("PONG"@ =~= text_pong());
    }
    if let Value::Array(items) = request {
        proof {
            lemma_views_of(items@);
        }
        if items.len() == 0 {
            return Reply::Abort;
        }
        if let Value::BulkString(_) = &items[0] {
        } else {
            return Reply::Abort;
        }
    }
    let (name, args) = match request.to_command() {
        Ok(parts) => parts,
        Err(e) => {
            return Reply::Fail(e);
        },
    };
    proof {
        lemma_views_of(args@);
    }
    let command = to_ascii_lowercase(name.as_str());
    if command == owned("ping") {
        Reply::Send(Value::SimpleString(owned("PONG")))
    } else if command == owned("echo") {
        if args.len() == 0 {
            Reply::Abort
        } else {
            Reply::Send(args[0].deep_copy())
        }
    } else if command == owned("get") {
        if args.len() > 0 {
            if let Value::BulkString(key) = &args[0] {
                return match store.get_at(key.clone(), now) {
                    Some(v) => Reply::Send(Value::SimpleString(v)),
                    None => Reply::Send(Value::Null),
                };
            }
        }
        Reply::Send(Value::Error(owned("Get requires one argument")))
    } else if command == owned("set") {
        run_set(store, &args, now)
    } else {
        let mut message = owned("command not implemented: ");
        message.append(name.as_str());
        Reply::Send(Value::Error(message))
    }
}

/// Answers the request `request` now, reading and changing the store as the
/// command asks.
pub fn handle_request(store: &mut Store, request: &Value) -> (r: Reply)
    ensures
        exists|now: u128|
            now >= old(store).clock_floor() && final(store).clock_floor() == now
                && (final(store)@, r@) == respond(old(store)@, request@, now),
{
    let now = store.elapsed_millis();
    handle_request_at(store, request, now)
}

} // verus!
