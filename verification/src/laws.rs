//! Properties that relate several operations of the library.
use crate::parse::{
    Decoded, decode, decode_items, first_crlf, integer_of, is_crlf_at, lemma_first_crlf_is,
    no_crlf_before,
};
use crate::server::{ReplyView, respond, text_ok, word_echo, word_get, word_ping, word_set};
use crate::store::{StoreView, after_read, after_set, after_set_with_expiry, deadline, lookup};
use crate::text::{
    u64_from_decimal, ascii_lowercase, decimal, lemma_decimal, lemma_decimal_ascii, lemma_encode_utf8_concat,
    lemma_i64_decimal_roundtrip,
};
use crate::stream::{concat, lemma_concat_skip};
use crate::value::{ValueView, crlf, encoding};
use vstd::utf8::{
    char_u32_cast, encode_scalar, encode_utf8, encode_utf8_decode_utf8, encode_utf8_valid_utf8,
    has_width_1_encoding, is_ascii_chars, is_ascii_chars_encode_utf8,
};
use vstd::prelude::*;

verus! {

/// A read of a key that was just set, at any time, finds the value set.
pub proof fn law_read_after_set(store: StoreView, key: Seq<char>, value: Seq<char>, now: u128)
    ensures
        lookup(after_set(store, key, value), key, now) == Some(value),
{
}

/// Setting one key leaves what a read of any other key finds unchanged.
pub proof fn law_set_keeps_other_keys(
    store: StoreView,
    key: Seq<char>,
    value: Seq<char>,
    other: Seq<char>,
    now: u128,
)
    requires
        other != key,
    ensures
        lookup(after_set(store, key, value), other, now) == lookup(store, other, now),
{
}

/// A key set to live `seconds` seconds at time `start` is found by a read
/// exactly before its deadline.
pub proof fn law_read_after_set_with_expiry(
    store: StoreView,
    key: Seq<char>,
    value: Seq<char>,
    seconds: u64,
    start: u128,
    now: u128,
)
    ensures
        lookup(after_set_with_expiry(store, key, value, seconds, start), key, now) == if now
            < deadline(start, seconds) {
            Some(value)
        } else {
            None
        },
        start + seconds * 1000 <= u128::MAX ==> deadline(start, seconds) == start + seconds * 1000,
{
}

/// A read changes nothing of what a read finds: the same read again finds
/// the same, and an expired key stays gone.
pub proof fn law_read_is_stable(store: StoreView, key: Seq<char>, now: u128)
    ensures
        lookup(after_read(store, key, now), key, now) == lookup(store, key, now),
        forall|other: Seq<char>, later: u128|
            other != key ==> lookup(after_read(store, key, now), other, later) == lookup(
                store,
                other,
                later,
            ),
{
}

/// The request `name key value`, as bulk strings.
pub open spec fn set_request(key: Seq<char>, value: Seq<char>) -> ValueView {
    ValueView::Array(
        seq![
            ValueView::BulkString(word_set()),
            ValueView::BulkString(key),
            ValueView::BulkString(value),
        ],
    )
}

/// The request `GET key`, as bulk strings.
pub open spec fn get_request(key: Seq<char>) -> ValueView {
    ValueView::Array(seq![ValueView::BulkString(word_get()), ValueView::BulkString(key)])
}

/// A `SET` of a key and a value is answered `OK`, and a `GET` of that key at
/// any later time is answered with the value.
pub proof fn law_get_answers_set(
    store: StoreView,
    key: Seq<char>,
    value: Seq<char>,
    t1: u128,
    t2: u128,
)
    ensures
        respond(store, set_request(key, value), t1).1 == ReplyView::Send(
            ValueView::SimpleString(text_ok()),
        ),
        respond(respond(store, set_request(key, value), t1).0, get_request(key), t2).1
            == ReplyView::Send(ValueView::SimpleString(value)),
{
    assert(ascii_lowercase(word_set()) =~= word_set());
    assert(ascii_lowercase(word_get()) =~= word_get());
    let items = seq![
        ValueView::BulkString(word_set()),
        ValueView::BulkString(key),
        ValueView::BulkString(value),
    ];
    assert(items.drop_first() =~= seq![ValueView::BulkString(key), ValueView::BulkString(value)]);
    let g = seq![ValueView::BulkString(word_get()), ValueView::BulkString(key)];
    assert(g.drop_first() =~= seq![ValueView::BulkString(key)]);
}

/// `ECHO` answers its first argument, whatever it is and whatever
/// arguments follow it, and leaves the store as it was.
pub proof fn law_echo(store: StoreView, arg: ValueView, more: Seq<ValueView>, now: u128)
    ensures
        respond(
            store,
            ValueView::Array(seq![ValueView::BulkString(word_echo()), arg] + more),
            now,
        ) == (store, ReplyView::Send(arg)),
{
    assert(ascii_lowercase(word_echo()) =~= word_echo());
    let items = seq![ValueView::BulkString(word_echo()), arg] + more;
    assert(items[0] == ValueView::BulkString(word_echo()));
    assert(items.drop_first()[0] == arg);
}

/// A `GET` answers what a read of the key exactly as sent finds, as a
/// simple string, or null where it finds nothing; the store is then as the
/// read leaves it.
pub proof fn law_get_answers_lookup(store: StoreView, key: Seq<char>, now: u128)
    ensures
        respond(store, get_request(key), now) == (
            after_read(store, key, now),
            match lookup(store, key, now) {
                Some(v) => ReplyView::Send(ValueView::SimpleString(v)),
                None => ReplyView::Send(ValueView::Null),
            },
        ),
{
    assert(ascii_lowercase(word_get()) =~= word_get());
    let g = seq![ValueView::BulkString(word_get()), ValueView::BulkString(key)];
    assert(g.drop_first() =~= seq![ValueView::BulkString(key)]);
}

/// A `SET` of one key changes what a later `GET` of any other key answers
/// in no way: keys are told apart exactly as sent.
pub proof fn law_set_changes_only_its_key(
    store: StoreView,
    key: Seq<char>,
    value: Seq<char>,
    other: Seq<char>,
    t1: u128,
    t2: u128,
)
    requires
        other != key,
    ensures
        respond(respond(store, set_request(key, value), t1).0, get_request(other), t2).1 == respond(
            store,
            get_request(other),
            t2,
        ).1,
{
    assert(ascii_lowercase(word_set()) =~= word_set());
    let items = seq![
        ValueView::BulkString(word_set()),
        ValueView::BulkString(key),
        ValueView::BulkString(value),
    ];
    assert(items.drop_first() =~= seq![ValueView::BulkString(key), ValueView::BulkString(value)]);
    law_get_answers_lookup(respond(store, set_request(key, value), t1).0, other, t2);
    law_get_answers_lookup(store, other, t2);
}

/// The request `SET key value option amount`, as bulk strings.
pub open spec fn set_expiry_request(
    key: Seq<char>,
    value: Seq<char>,
    option: Seq<char>,
    amount: Seq<char>,
) -> ValueView {
    ValueView::Array(
        seq![
            ValueView::BulkString(word_set()),
            ValueView::BulkString(key),
            ValueView::BulkString(value),
            ValueView::BulkString(option),
            ValueView::BulkString(amount),
        ],
    )
}

/// A key set at time `t1` to live `seconds` seconds is answered by a `GET`
/// exactly while less than that time has passed, and with null once it
/// has; a `GET` of another key is answered as before the `SET`.
pub proof fn law_set_with_expiry_then_get(
    store: StoreView,
    key: Seq<char>,
    value: Seq<char>,
    option: Seq<char>,
    amount: Seq<char>,
    seconds: u64,
    other: Seq<char>,
    t1: u128,
    t2: u128,
)
    requires
        u64_from_decimal(amount) == Some(seconds),
        t1 + seconds * 1000 <= u128::MAX,
    ensures
        respond(store, set_expiry_request(key, value, option, amount), t1).1 == ReplyView::Send(
            ValueView::SimpleString(text_ok()),
        ),
        respond(
            respond(store, set_expiry_request(key, value, option, amount), t1).0,
            get_request(key),
            t2,
        ).1 == if t2 >= t1 + seconds * 1000 {
            ReplyView::Send(ValueView::Null)
        } else {
            ReplyView::Send(ValueView::SimpleString(value))
        },
        other != key ==> respond(
            respond(store, set_expiry_request(key, value, option, amount), t1).0,
            get_request(other),
            t2,
        ).1 == respond(store, get_request(other), t2).1,
{
    assert(ascii_lowercase(word_set()) =~= word_set());
    let items = seq![
        ValueView::BulkString(word_set()),
        ValueView::BulkString(key),
        ValueView::BulkString(value),
        ValueView::BulkString(option),
        ValueView::BulkString(amount),
    ];
    let args = items.drop_first();
    assert(args =~= seq![
        ValueView::BulkString(key),
        ValueView::BulkString(value),
        ValueView::BulkString(option),
        ValueView::BulkString(amount),
    ]);
    let after = respond(store, set_expiry_request(key, value, option, amount), t1).0;
    assert(after == after_set_with_expiry(store, key, value, seconds, t1));
    law_get_answers_lookup(after, key, t2);
    law_get_answers_lookup(after, other, t2);
    law_get_answers_lookup(store, other, t2);
}

/// Setting a key with an expiry leaves what a read of any other key finds
/// unchanged, at any time.
pub proof fn law_set_with_expiry_keeps_other_keys(
    store: StoreView,
    key: Seq<char>,
    value: Seq<char>,
    other: Seq<char>,
    seconds: u64,
    start: u128,
    now: u128,
)
    requires
        other != key,
    ensures
        lookup(after_set_with_expiry(store, key, value, seconds, start), other, now) == lookup(
            store,
            other,
            now,
        ),
{
}

/// The four commands are known by their names in any mix of cases: two
/// names that differ only in the case of ASCII letters get the same answer
/// and change the store the same way.
pub proof fn law_command_names_ignore_case(
    store: StoreView,
    name1: Seq<char>,
    name2: Seq<char>,
    args: Seq<ValueView>,
    now: u128,
)
    requires
        ascii_lowercase(name1) == ascii_lowercase(name2),
        ascii_lowercase(name1) == word_ping() || ascii_lowercase(name1) == word_echo()
            || ascii_lowercase(name1) == word_get() || ascii_lowercase(name1) == word_set(),
    ensures
        respond(store, ValueView::Array(seq![ValueView::BulkString(name1)] + args), now) == respond(
            store,
            ValueView::Array(seq![ValueView::BulkString(name2)] + args),
            now,
        ),
{
    let r1 = seq![ValueView::BulkString(name1)] + args;
    let r2 = seq![ValueView::BulkString(name2)] + args;
    assert(r1.drop_first() =~= args);
    assert(r2.drop_first() =~= args);
}

/// The bytes that carry a value on the wire: the UTF-8 form of its
/// encoding.
pub open spec fn wire(v: ValueView) -> Seq<u8> {
    encode_utf8(encoding(v))
}

/// The UTF-8 form of one ASCII character is its code.
proof fn lemma_encode_ascii_char(c: char)
    requires
        '\0' <= c <= '\u{7f}',
    ensures
        encode_utf8(seq![c]) == seq![c as u8],
{
    assert(is_ascii_chars(seq![c]));
    is_ascii_chars_encode_utf8(seq![c]);
    assert(encode_utf8(seq![c]) =~= seq![c as u8]);
}

/// The UTF-8 form of CR LF is the bytes 13 and 10.
proof fn lemma_encode_crlf()
    ensures
        encode_utf8(crlf()) == seq![13u8, 10u8],
{
    assert(is_ascii_chars(crlf()));
    is_ascii_chars_encode_utf8(crlf());
    assert(encode_utf8(crlf()) =~= seq![13u8, 10u8]);
}

/// The bytes `body`, then CR LF, then `rest`, begin with a line that is
/// `body` where `body` holds no CR LF pair.
proof fn lemma_line_ends_at(body: Seq<u8>, rest: Seq<u8>)
    requires
        no_crlf_before(body, body.len() as int),
    ensures
        first_crlf(body + seq![13u8, 10u8] + rest) == Some(body.len() as int),
{
    let b = body + seq![13u8, 10u8] + rest;
    let j = body.len() as int;
    assert(is_crlf_at(b, j));
    assert forall|k: int| 0 <= k < j implies !#[trigger] is_crlf_at(b, k) by {
        if k + 1 < j {
            assert(!is_crlf_at(body, k));
        }
    }
    lemma_first_crlf_is(b, j);
}

/// True when the text holds no CR directly followed by LF.
pub open spec fn has_no_crlf(s: Seq<char>) -> bool {
    forall|i: int| 0 <= i && i + 1 < s.len() ==> !(#[trigger] s[i] == '\r' && s[i + 1] == '\n')
}

/// The UTF-8 form of a character below 128 is that one byte; every byte of
/// the form of any other character is 128 or more.
proof fn lemma_encode_scalar_bytes(v: u32)
    ensures
        has_width_1_encoding(v) ==> encode_scalar(v) == seq![v as u8],
        !has_width_1_encoding(v) ==> forall|i: int|
            0 <= i < encode_scalar(v).len() ==> #[trigger] encode_scalar(v)[i] >= 0x80,
        encode_scalar(v).len() >= 1,
{
    if has_width_1_encoding(v) {
        assert((v & 0x7F) as u8 == v as u8) by (bit_vector)
            requires
                v <= 0x7F,
        ;
    } else {
        assert(forall|x: u8| #[trigger] (0xC0u8 | x) >= 0x80) by (bit_vector);
        assert(forall|x: u8| #[trigger] (0xE0u8 | x) >= 0x80) by (bit_vector);
        assert(forall|x: u8| #[trigger] (0xF0u8 | x) >= 0x80) by (bit_vector);
        assert(forall|x: u8| #[trigger] (0x80u8 | x) >= 0x80) by (bit_vector);
    }
}

/// The UTF-8 form of a text with no CR directly followed by LF holds no CR
/// LF pair of bytes.
pub proof fn lemma_no_crlf_bytes(s: Seq<char>)
    requires
        has_no_crlf(s),
    ensures
        no_crlf_before(encode_utf8(s), encode_utf8(s).len() as int),
    decreases s.len(),
{
    if s.len() > 0 {
        let head = encode_scalar(s[0] as u32);
        let tail = s.drop_first();
        assert(has_no_crlf(tail)) by {
            assert forall|i: int| 0 <= i && i + 1 < tail.len() implies !(#[trigger] tail[i] == '\r'
                && tail[i + 1] == '\n') by {
                assert(tail[i] == s[i + 1]);
                assert(tail[i + 1] == s[i + 2]);
            }
        }
        lemma_no_crlf_bytes(tail);
        lemma_encode_scalar_bytes(s[0] as u32);
        let e = encode_utf8(s);
        let et = encode_utf8(tail);
        assert(e == head + et);
        assert forall|k: int| 0 <= k < e.len() implies !#[trigger] is_crlf_at(e, k) by {
            if is_crlf_at(e, k) {
                if k + 1 < head.len() {
                    assert(head[k] == e[k]);
                } else if k + 1 == head.len() {
                    assert(head[k] == 13u8);
                    assert(has_width_1_encoding(s[0] as u32));
                    assert(s[0] as u32 == 13);
                    char_u32_cast(s[0], 13);
                    assert(s[0] == '\r');
                    assert(et[0] == 10u8);
                    assert(tail.len() > 0);
                    lemma_encode_scalar_bytes(tail[0] as u32);
                    let th = encode_scalar(tail[0] as u32);
                    assert(et == th + encode_utf8(tail.drop_first()));
                    assert(th[0] == 10u8);
                    assert(tail[0] as u32 == 10);
                    char_u32_cast(tail[0], 10);
                    assert(s[1] == '\n');
                } else {
                    assert(is_crlf_at(et, k - head.len()));
                }
            }
        }
    }
}

/// A simple string, written by `encode` and read back by `decode`, gives
/// the same string and takes all its bytes, whatever follows it; where it
/// holds no CR directly followed by LF, which would end its line early.
pub proof fn law_decode_encoded_simple_string(s: Seq<char>, rest: Seq<u8>)
    requires
        has_no_crlf(s),
    ensures
        decode(wire(ValueView::SimpleString(s)) + rest) == Decoded::Frame(
            ValueView::SimpleString(s),
            wire(ValueView::SimpleString(s)).len() as int,
        ),
{
    let e = encode_utf8(s);
    lemma_no_crlf_bytes(s);
    lemma_encode_ascii_char('+');
    lemma_encode_crlf();
    lemma_encode_utf8_concat(seq!['+'], s);
    lemma_encode_utf8_concat(seq!['+'] + s, crlf());
    let w = wire(ValueView::SimpleString(s));
    assert(w =~= seq![43u8] + e + seq![13u8, 10u8]);
    let full = w + rest;
    assert(full.skip(1) =~= e + seq![13u8, 10u8] + rest);
    lemma_line_ends_at(e, rest);
    assert(full.subrange(1, 1 + e.len() as int) =~= e);
    encode_utf8_valid_utf8(s);
    encode_utf8_decode_utf8(s);
}

/// A bulk string, written by `encode` and read back by `decode`, gives the
/// same string and takes all its bytes, whatever follows it; where its
/// length fits in an `i64` and the bytes fit in memory.
pub proof fn law_decode_encoded_bulk_string(s: Seq<char>, rest: Seq<u8>)
    requires
        encode_utf8(s).len() <= i64::MAX,
        wire(ValueView::BulkString(s)).len() + rest.len() <= usize::MAX,
    ensures
        decode(wire(ValueView::BulkString(s)) + rest) == Decoded::Frame(
            ValueView::BulkString(s),
            wire(ValueView::BulkString(s)).len() as int,
        ),
{
    let e = encode_utf8(s);
    let n = e.len();
    let digits = decimal(n);
    lemma_decimal(n);
    lemma_decimal_ascii(n);
    is_ascii_chars_encode_utf8(digits);
    let d = encode_utf8(digits);
    lemma_encode_ascii_char('$');
    lemma_encode_crlf();
    lemma_encode_utf8_concat(seq!['$'], digits);
    lemma_encode_utf8_concat(seq!['$'] + digits, crlf());
    lemma_encode_utf8_concat(seq!['$'] + digits + crlf(), s);
    lemma_encode_utf8_concat(seq!['$'] + digits + crlf() + s, crlf());
    let w = wire(ValueView::BulkString(s));
    assert(w =~= seq![36u8] + d + seq![13u8, 10u8] + e + seq![13u8, 10u8]);
    let full = w + rest;
    assert(full.skip(1) =~= d + seq![13u8, 10u8] + (e + seq![13u8, 10u8] + rest));
    assert forall|k: int| 0 <= k < d.len() implies #[trigger] d[k] != 13u8 by {
        assert(crate::text::is_digit(digits[k]));
    }
    lemma_line_ends_at(d, e + seq![13u8, 10u8] + rest);
    assert(full.subrange(1, 1 + d.len() as int) =~= d);
    encode_utf8_valid_utf8(digits);
    encode_utf8_decode_utf8(digits);
    lemma_i64_decimal_roundtrip(n);
    assert(integer_of(d) == Ok::<i64, crate::error::RespError>(n as i64));
    let start = d.len() as int + 3;
    assert(((n as i64) as usize) as int == n);
    assert(full.subrange(start, start + n as int) =~= e);
    encode_utf8_valid_utf8(s);
    encode_utf8_decode_utf8(s);
}

/// The header of an array frame of `n` elements: `*`, the decimal count,
/// CR LF.
pub open spec fn array_header(n: nat) -> Seq<u8> {
    seq![42u8] + encode_utf8(decimal(n)) + seq![13u8, 10u8]
}

/// Elements that start at place `pos` of `s`, where `s` holds from there on
/// the frames from place `i` on, decode to their values in order and end
/// where `s` ends.
proof fn lemma_items_of_frames(
    s: Seq<u8>,
    frames: Seq<Seq<u8>>,
    values: Seq<ValueView>,
    i: int,
    pos: int,
)
    requires
        frames.len() == values.len(),
        forall|k: int|
            0 <= k < frames.len() ==> decode(#[trigger] frames[k]) == Decoded::Frame(
                values[k],
                frames[k].len() as int,
            ),
        0 <= i <= frames.len(),
        0 <= pos <= s.len(),
        s.skip(pos) == concat(frames.skip(i)),
    ensures
        decode_items(s, pos, frames.len() - i) == Decoded::Frame(
            ValueView::Array(values.skip(i)),
            s.len() as int,
        ),
    decreases frames.len() - i,
{
    if i == frames.len() {
        assert(frames.skip(i) =~= Seq::<Seq<u8>>::empty());
        assert(values.skip(i) =~= Seq::<ValueView>::empty());
        assert(s.skip(pos).len() == 0);
    } else {
        let f = frames[i];
        let tail = concat(frames.skip(i + 1));
        lemma_concat_skip(frames, i);
        law_frame_ignores_what_follows(f, tail);
        crate::parse::lemma_decode_consumes(f);
        assert(s.skip(pos) == f + tail);
        assert(s.skip(pos + f.len()) =~= tail) by {
            assert((f + tail).skip(f.len() as int) =~= tail);
        }
        lemma_items_of_frames(s, frames, values, i + 1, pos + f.len());
        assert(seq![values[i]] + values.skip(i + 1) =~= values.skip(i));
    }
}

/// An array frame, `*` and the count of its elements then their whole
/// frames, decodes to the array of exactly those elements' values, in
/// order, and takes all its bytes; for counts that fit in an `i64`.
pub proof fn law_decode_array(frames: Seq<Seq<u8>>, values: Seq<ValueView>)
    requires
        frames.len() == values.len(),
        frames.len() <= i64::MAX,
        forall|k: int|
            0 <= k < frames.len() ==> decode(#[trigger] frames[k]) == Decoded::Frame(
                values[k],
                frames[k].len() as int,
            ),
    ensures
        decode(array_header(frames.len()) + concat(frames)) == Decoded::Frame(
            ValueView::Array(values),
            (array_header(frames.len()) + concat(frames)).len() as int,
        ),
{
    let n = frames.len();
    let digits = decimal(n);
    lemma_decimal(n);
    lemma_decimal_ascii(n);
    is_ascii_chars_encode_utf8(digits);
    let d = encode_utf8(digits);
    let body = concat(frames);
    let s = array_header(n) + body;
    assert(s.skip(1) =~= d + seq![13u8, 10u8] + body);
    assert forall|k: int| 0 <= k < d.len() implies #[trigger] d[k] != 13u8 by {
        assert(crate::text::is_digit(digits[k]));
    }
    lemma_line_ends_at(d, body);
    assert(s.subrange(1, 1 + d.len() as int) =~= d);
    encode_utf8_valid_utf8(digits);
    encode_utf8_decode_utf8(digits);
    lemma_i64_decimal_roundtrip(n);
    assert(integer_of(d) == Ok::<i64, crate::error::RespError>(n as i64));
    let start = d.len() as int + 3;
    assert(s.skip(start) =~= body);
    assert(frames.skip(0) =~= frames);
    lemma_items_of_frames(s, frames, values, 0, start);
    assert(values.skip(0) =~= values);
    assert(((n as i64) as int) == n);
}

/// The first CR LF pair of `b` stays the first where more bytes follow.
proof fn lemma_first_crlf_extends(b: Seq<u8>, c: Seq<u8>)
    ensures
        first_crlf(b) matches Some(j) ==> first_crlf(b + c) == Some(j),
{
    if let Some(j) = first_crlf(b) {
        let bc = b + c;
        assert(is_crlf_at(bc, j));
        assert forall|k: int| 0 <= k < j implies !#[trigger] is_crlf_at(bc, k) by {
            assert(!is_crlf_at(b, k));
        }
        lemma_first_crlf_is(bc, j);
    }
}

/// A whole frame at the start of a buffer is decoded the same whatever
/// bytes follow it.
pub proof fn law_frame_ignores_what_follows(s: Seq<u8>, t: Seq<u8>)
    ensures
        decode(s) is Frame ==> decode(s + t) == decode(s),
    decreases s.len(), 0int,
{
    if s.len() > 0 && decode(s) is Frame {
        let st = s + t;
        assert(st.skip(1) =~= s.skip(1) + t);
        lemma_first_crlf_extends(s.skip(1), t);
        let j = first_crlf(s.skip(1))->0;
        assert(st.subrange(1, 1 + j) =~= s.subrange(1, 1 + j));
        if s[0] == 36u8 {
            if let Ok(n) = integer_of(s.subrange(1, 1 + j)) {
                let start = j + 3;
                let end = start + (n as usize);
                assert(st.subrange(start, end) =~= s.subrange(start, end));
            }
        } else if s[0] == 42u8 {
            if let Ok(n) = integer_of(s.subrange(1, 1 + j)) {
                lemma_items_ignore_what_follows(s, t, j + 3, n as int);
            }
        }
    }
}

/// The elements of an array that end within a buffer are decoded the same
/// whatever bytes follow it.
proof fn lemma_items_ignore_what_follows(s: Seq<u8>, t: Seq<u8>, pos: int, count: int)
    requires
        0 <= pos <= s.len(),
    ensures
        decode_items(s, pos, count) is Frame ==> decode_items(s + t, pos, count) == decode_items(
            s,
            pos,
            count,
        ),
    decreases s.len() - pos, 1int,
{
    if count > 0 && decode_items(s, pos, count) is Frame {
        let st = s + t;
        assert(st.skip(pos) =~= s.skip(pos) + t);
        law_frame_ignores_what_follows(s.skip(pos), t);
        if let Decoded::Frame(v, k) = decode(s.skip(pos)) {
            if 0 < k && pos + k <= s.len() {
                lemma_items_ignore_what_follows(s, t, pos + k, count - 1);
            }
        }
    }
}

} // verus!
