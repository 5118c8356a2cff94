//! Decoding of RESP frames from a buffer of received bytes.
//!
//! A frame is a type byte, a line ended by CR LF, and for a bulk string the
//! announced number of bytes and one more CR LF; an array frame is followed
//! by the frames of its elements. `+` starts a simple string, `$` a bulk
//! string and `*` an array.
use crate::error::RespError;
use crate::text::{i64_from_decimal, parse_i64, utf8_to_string};
use crate::value::{Value, ValueView, lemma_views_of, views_of};
use vstd::prelude::*;
use vstd::slice::{slice_subrange, slice_to_vec};
use vstd::utf8::{decode_utf8, valid_utf8};

verus! {

/// True when a CR LF pair starts at place `j` of `b`.
pub open spec fn is_crlf_at(b: Seq<u8>, j: int) -> bool {
    0 <= j && j + 1 < b.len() && b[j] == 13u8 && b[j + 1] == 10u8
}

/// True when no CR LF pair starts before place `j` of `b`.
pub open spec fn no_crlf_before(b: Seq<u8>, j: int) -> bool {
    forall|k: int| 0 <= k < j ==> !#[trigger] is_crlf_at(b, k)
}

/// The place of the first CR LF pair of `b`, if there is one.
pub open spec fn first_crlf(b: Seq<u8>) -> Option<int> {
    if exists|j: int| is_crlf_at(b, j) && no_crlf_before(b, j) {
        Some(choose|j: int| is_crlf_at(b, j) && no_crlf_before(b, j))
    } else {
        None
    }
}

/// The text that the bytes `b` hold, or `InvalidString` where they are not
/// well-formed UTF-8.
pub open spec fn text_of(b: Seq<u8>) -> Result<Seq<char>, RespError> {
    if valid_utf8(b) {
        Ok(decode_utf8(b))
    } else {
        Err(RespError::InvalidString)
    }
}

/// The `i64` that the bytes `b` hold in decimal, or the error that refuses
/// them.
pub open spec fn integer_of(b: Seq<u8>) -> Result<i64, RespError> {
    match text_of(b) {
        Ok(t) => match i64_from_decimal(t) {
            Some(n) => Ok(n),
            None => Err(RespError::InvalidInteger),
        },
        Err(e) => Err(e),
    }
}

/// What decoding the start of a buffer yields.
pub enum Decoded {
    /// A whole frame: its value and the number of bytes it takes.
    Frame(ValueView, int),
    /// The buffer ends before the frame does.
    Incomplete,
    /// The frame is malformed.
    Failed(RespError),
    /// Decoding cannot go on: the buffer is empty, or the announced length of
    /// a bulk string overflows `usize`.
    Overrun,
}

/// Puts the values `vs` in front of the elements of a decoded array; any
/// other outcome is passed on.
pub open spec fn prepend_items(vs: Seq<ValueView>, d: Decoded) -> Decoded {
    match d {
        Decoded::Frame(ValueView::Array(ws), end) => Decoded::Frame(ValueView::Array(vs + ws), end),
        _ => d,
    }
}

/// Decodes the frame at the start of `s`.
pub open spec fn decode(s: Seq<u8>) -> Decoded
    decreases s.len(), 0int,
{
    if s.len() == 0 {
        Decoded::Overrun
    } else {
        match first_crlf(s.skip(1)) {
            None => if s[0] == 43u8 || s[0] == 36u8 || s[0] == 42u8 {
                Decoded::Incomplete
            } else {
                Decoded::Failed(RespError::UnrecognisedType)
            },
            Some(j) => {
                let line = s.subrange(1, 1 + j);
                let start = j + 3;
                if s[0] == 43u8 {
                    match text_of(line) {
                        Ok(t) => Decoded::Frame(ValueView::SimpleString(t), start),
                        Err(e) => Decoded::Failed(e),
                    }
                } else if s[0] == 36u8 {
                    match integer_of(line) {
                        Ok(n) => {
                            let end = start + (n as usize);
                            if end + 2 > usize::MAX {
                                Decoded::Overrun
                            } else if end + 2 <= s.len() {
                                match text_of(s.subrange(start, end)) {
                                    Ok(t) => Decoded::Frame(ValueView::BulkString(t), end + 2),
                                    Err(e) => Decoded::Failed(e),
                                }
                            } else {
                                Decoded::Incomplete
                            }
                        },
                        Err(e) => Decoded::Failed(e),
                    }
                } else if s[0] == 42u8 {
                    match integer_of(line) {
                        Ok(n) => {
                            proof {
                                assert(1 + j + 2 <= s.len());
                            }
                            decode_items(s, start, n as int)
                        },
                        Err(e) => Decoded::Failed(e),
                    }
                } else {
                    Decoded::Failed(RespError::UnrecognisedType)
                }
            },
        }
    }
}

/// Decodes `count` frames one after the other from place `pos` of `s` on,
/// as the elements of an array.
pub open spec fn decode_items(s: Seq<u8>, pos: int, count: int) -> Decoded
    decreases s.len() - pos, 1int,
{
    if count <= 0 {
        Decoded::Frame(ValueView::Array(Seq::empty()), pos)
    } else if pos < 0 || pos > s.len() {
        Decoded::Overrun
    } else if pos == s.len() {
        Decoded::Incomplete
    } else {
        match decode(s.skip(pos)) {
            Decoded::Frame(v, k) => if 0 < k && pos + k <= s.len() {
                prepend_items(seq![v], decode_items(s, pos + k, count - 1))
            } else {
                Decoded::Overrun
            },
            other => other,
        }
    }
}

/// The outcome that a result of `parse_message` stands for.
pub open spec fn outcome_view(r: Result<Option<(Value, usize)>, RespError>) -> Decoded {
    match r {
        Ok(Some((v, n))) => Decoded::Frame(v@, n as int),
        Ok(None) => Decoded::Incomplete,
        Err(e) => Decoded::Failed(e),
    }
}

/// The first CR LF pair is the one before which there is none.
pub proof fn lemma_first_crlf_is(b: Seq<u8>, j: int)
    requires
        is_crlf_at(b, j),
        no_crlf_before(b, j),
    ensures
        first_crlf(b) == Some(j),
{
    let c = choose|c: int| is_crlf_at(b, c) && no_crlf_before(b, c);
    if c < j {
        assert(!is_crlf_at(b, c));
    } else if c > j {
        assert(!is_crlf_at(b, j));
    }
}

/// A whole frame takes at least three bytes and no more than the buffer
/// holds; the elements of an array end within the buffer.
pub proof fn lemma_decode_consumes(s: Seq<u8>)
    ensures
        decode(s) matches Decoded::Frame(_, k) ==> 3 <= k <= s.len(),
    decreases s.len(), 0int,
{
    if s.len() > 0 {
        if let Some(j) = first_crlf(s.skip(1)) {
            if s[0] == 42u8 {
                if let Ok(n) = integer_of(s.subrange(1, 1 + j)) {
                    lemma_decode_items_consumes(s, j + 3, n as int);
                }
            }
        }
    }
}

/// The elements of an array that start at `pos` end within the buffer, no
/// earlier than `pos`.
pub proof fn lemma_decode_items_consumes(s: Seq<u8>, pos: int, count: int)
    requires
        0 <= pos <= s.len(),
    ensures
        decode_items(s, pos, count) matches Decoded::Frame(_, e) ==> pos <= e <= s.len(),
    decreases s.len() - pos, 1int,
{
    if count > 0 {
        lemma_decode_consumes(s.skip(pos));
        if let Decoded::Frame(v, k) = decode(s.skip(pos)) {
            if 0 < k && pos + k <= s.len() {
                lemma_decode_items_consumes(s, pos + k, count - 1);
            }
        }
    }
}

/// Finds the first CR LF pair in `buffer`, and returns the bytes before it
/// and the number of bytes up to and including it.
pub fn read_until_crlf(buffer: &[u8]) -> (r: Option<(&[u8], usize)>)
    ensures
        match first_crlf(buffer@) {
            Some(j) => r matches Some((line, n)) && line@ == buffer@.take(j) && n == j + 2,
            None => r is None,
        },
{
    let mut i: usize = 1;
    while i < buffer.len()
        invariant
            1 <= i,
            i <= buffer.len() || i == 1,
            no_crlf_before(buffer@, i - 1),
        decreases buffer.len() - i,
    {
        if buffer[i - 1] == 13u8 && buffer[i] == 10u8 {
            proof {
                lemma_first_crlf_is(buffer@, i - 1);
            }
            return Some((slice_subrange(buffer, 0, i - 1), i + 1));
        }
        i += 1;
    }
    proof {
        assert forall|j: int| !(is_crlf_at(buffer@, j) && no_crlf_before(buffer@, j)) by {
            if is_crlf_at(buffer@, j) {
                assert(j < i - 1);
            }
        }
    }
    None
}

/// The text that the bytes hold, or `InvalidString` where they are not
/// well-formed UTF-8.
pub fn parse_string(bytes: &[u8]) -> (r: Result<String, RespError>)
    ensures
        match text_of(bytes@) {
            Ok(t) => r matches Ok(s) && s@ == t,
            Err(e) => r == Err::<String, RespError>(e),
        },
{
    match utf8_to_string(slice_to_vec(bytes)) {
        Some(s) => Ok(s),
        None => Err(RespError::InvalidString),
    }
}

/// The `i64` that the bytes hold in decimal.
pub fn parse_integer(bytes: &[u8]) -> (r: Result<i64, RespError>)
    ensures
        r == integer_of(bytes@),
{
    let text = parse_string(bytes)?;
    match parse_i64(text.as_str()) {
        Some(n) => Ok(n),
        None => Err(RespError::InvalidInteger),
    }
}

/// The line of a frame: the bytes after the type byte up to the first CR LF
/// pair, and the number of bytes that the type byte and the line take.
fn frame_line(buffer: &[u8]) -> (r: Option<(&[u8], usize)>)
    requires
        buffer@.len() > 0,
    ensures
        match first_crlf(buffer@.skip(1)) {
            Some(j) => r matches Some((line, n)) && line@ == buffer@.subrange(1, 1 + j) && n == j
                + 3 && n <= buffer@.len(),
            None => r is None,
        },
{
    let rest = slice_subrange(buffer, 1, buffer.len());
    proof {
        assert(rest@ =~= buffer@.skip(1));
    }
    match read_until_crlf(rest) {
        Some((line, len)) => {
            proof {
                assert(line@ =~= buffer@.subrange(1, 1 + len - 2));
            }
            Some((line, len + 1))
        },
        None => None,
    }
}

/// Decodes a simple string frame.
fn decode_simple_string(buffer: &[u8]) -> (r: Result<Option<(Value, usize)>, RespError>)
    requires
        buffer@.len() > 0,
        buffer@[0] == 43u8,
    ensures
        outcome_view(r) == decode(buffer@),
{
    if let Some((line, len)) = frame_line(buffer) {
        let s = parse_string(line)?;
        Ok(Some((Value::SimpleString(s), len)))
    } else {
        Ok(None)
    }
}

/// Decodes a bulk string frame; `None` where its length overflows.
fn decode_bulk_string(buffer: &[u8]) -> (r: Option<Result<Option<(Value, usize)>, RespError>>)
    requires
        buffer@.len() > 0,
        buffer@[0] == 36u8,
    ensures
        r is None <==> decode(buffer@) is Overrun,
        r matches Some(x) ==> outcome_view(x) == decode(buffer@),
{
    let (bulk_length, bytes_consumed) = match frame_line(buffer) {
        Some((line, len)) => match parse_integer(line) {
            Ok(n) => (n, len),
            Err(e) => return Some(Err(e)),
        },
        None => return Some(Ok(None)),
    };
    let end_of_bulk = match bytes_consumed.checked_add(bulk_length as usize) {
        Some(e) => e,
        None => return None,
    };
    let end_of_bulk_line = match end_of_bulk.checked_add(2) {
        Some(e) => e,
        None => return None,
    };
    if end_of_bulk_line <= buffer.len() {
        match parse_string(slice_subrange(buffer, bytes_consumed, end_of_bulk)) {
            Ok(s) => Some(Ok(Some((Value::BulkString(s), end_of_bulk_line)))),
            Err(e) => Some(Err(e)),
        }
    } else {
        Some(Ok(None))
    }
}

/// Decodes an array frame and the frames of its elements; `None` where one
/// of them overruns.
fn decode_array(buffer: &[u8]) -> (r: Option<Result<Option<(Value, usize)>, RespError>>)
    requires
        buffer@.len() > 0,
        buffer@[0] == 42u8,
    ensures
        r is None <==> decode(buffer@) is Overrun,
        r matches Some(x) ==> outcome_view(x) == decode(buffer@),
    decreases buffer@.len(), 0int,
{
    let ghost s = buffer@;
    let (array_length, mut bytes_consumed) = match frame_line(buffer) {
        Some((line, len)) => match parse_integer(line) {
            Ok(n) => (n, len),
            Err(e) => return Some(Err(e)),
        },
        None => return Some(Ok(None)),
    };
    let ghost start = bytes_consumed as int;
    let mut items: Vec<Value> = Vec::new();
    let mut i: i64 = 0;
    while i < array_length
        invariant
            s == buffer@,
            0 <= i,
            i <= array_length || i == 0,
            3 <= start <= bytes_consumed <= s.len(),
            decode(s) == prepend_items(
                views_of(items@),
                decode_items(s, bytes_consumed as int, array_length - i),
            ),
        decreases array_length - i,
    {
        if bytes_consumed == buffer.len() {
            return Some(Ok(None));
        }
        let rest = slice_subrange(buffer, bytes_consumed, buffer.len());
        proof {
            assert(rest@ =~= s.skip(bytes_consumed as int));
        }
        let step = try_parse_message(rest);
        match step {
            None => {
                return None;
            },
            Some(Err(e)) => {
                return Some(Err(e));
            },
            Some(Ok(None)) => {
                return Some(Ok(None));
            },
            Some(Ok(Some((v, len)))) => {
                proof {
                    lemma_decode_consumes(rest@);
                    let ghost vs = views_of(items@);
                    lemma_views_of(items@);
                    lemma_views_of(items@.push(v));
                    assert(views_of(items@.push(v)) =~= vs.push(v@));
                    let d = decode_items(s, bytes_consumed + len, array_length - i - 1);
                    match d {
                        Decoded::Frame(ValueView::Array(ws), end) => {
                            assert(vs + (seq![v@] + ws) =~= vs.push(v@) + ws);
                        },
                        _ => {},
                    }
                }
                items.push(v);
                bytes_consumed = bytes_consumed + len;
                i = i + 1;
            },
        }
    }
    proof {
        lemma_views_of(items@);
        assert(views_of(items@) + Seq::<ValueView>::empty() =~= views_of(items@));
    }
    Some(Ok(Some((Value::Array(items), bytes_consumed))))
}

/// Decodes the frame at the start of `buffer`; `None` on the buffers where
/// decoding overruns (see `Decoded::Overrun`).
pub fn try_parse_message(buffer: &[u8]) -> (r: Option<Result<Option<(Value, usize)>, RespError>>)
    ensures
        r is None <==> decode(buffer@) is Overrun,
        r matches Some(x) ==> outcome_view(x) == decode(buffer@),
    decreases buffer@.len(), 1int,
{
    if buffer.len() == 0 {
        return None;
    }
    let tag = buffer[0];
    if tag == 43u8 {
        Some(decode_simple_string(buffer))
    } else if tag == 36u8 {
        decode_bulk_string(buffer)
    } else if tag == 42u8 {
        decode_array(buffer)
    } else {
        Some(Err(RespError::UnrecognisedType))
    }
}

/// Decodes the frame at the start of `buffer`: `Ok(Some((value, n)))` for a
/// whole frame of `n` bytes, `Ok(None)` where the buffer ends before the
/// frame does, and the error of a malformed frame.
pub fn parse_message(buffer: &[u8]) -> (r: Result<Option<(Value, usize)>, RespError>)
    requires
        !(decode(buffer@) is Overrun),
    ensures
        outcome_view(r) == decode(buffer@),
{
    match try_parse_message(buffer) {
        Some(r) => r,
        None => {
            proof {
                assert(false);
            }
            Ok(None)
        },
    }
}

/// What one step of reading frames from a connection gives.
#[derive(Debug, PartialEq, Eq)]
pub enum ReadStep {
    /// A whole frame arrived; its bytes have left the pending buffer.
    Frame(Value),
    /// More bytes are needed for the next frame.
    NeedMore,
    /// The next frame is malformed; the pending bytes are dropped.
    Failed(RespError),
    /// The next frame overruns (see `Decoded::Overrun`).
    Overrun,
}

/// Adds the bytes `received` to the bytes `pending` that earlier reads left,
/// and takes the first whole frame off the front, if there is one. Bytes
/// after that frame stay pending for the next step.
pub fn take_frame(pending: &mut Vec<u8>, received: &[u8]) -> (r: ReadStep)
    ensures
        ({
            let all = old(pending)@ + received@;
            &&& all.len() == 0 ==> r is NeedMore && final(pending)@ == all
            &&& all.len() > 0 ==> match decode(all) {
                Decoded::Frame(v, n) => (r matches ReadStep::Frame(x) && x@ == v)
                    && final(pending)@ == all.skip(n),
                Decoded::Incomplete => r is NeedMore && final(pending)@ == all,
                Decoded::Failed(e) => (r matches ReadStep::Failed(x) && x == e)
                    && final(pending)@ == Seq::<u8>::empty(),
                Decoded::Overrun => r is Overrun && final(pending)@ == all,
            }
        }),
{
    let ghost all = old(pending)@ + received@;
    let mut more = slice_to_vec(received);
    pending.append(&mut more);
    assert(pending@ == all);
    if pending.len() == 0 {
        return ReadStep::NeedMore;
    }
    match try_parse_message(pending.as_slice()) {
        None => ReadStep::Overrun,
        Some(Err(e)) => {
            pending.clear();
            ReadStep::Failed(e)
        },
        Some(Ok(None)) => ReadStep::NeedMore,
        Some(Ok(Some((v, n)))) => {
            proof {
                lemma_decode_consumes(all);
            }
            let rest = pending.split_off(n);
            *pending = rest;
            ReadStep::Frame(v)
        },
    }
}

} // verus!
