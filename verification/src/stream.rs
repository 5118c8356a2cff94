//! Frames read from a connection whose bytes arrive in pieces: a whole
//! frame is decided by its own bytes, a part of a frame waits for more, and
//! so the frames of a stream come out in order however the stream is cut.
use crate::parse::{
    Decoded, decode, decode_items, first_crlf, integer_of, is_crlf_at, lemma_decode_consumes,
    lemma_decode_items_consumes, lemma_first_crlf_is, no_crlf_before,
};
use crate::value::ValueView;
use vstd::prelude::*;

verus! {

/// The first CR LF pair is one before which there is none.
proof fn lemma_first_crlf_props(x: Seq<u8>)
    ensures
        first_crlf(x) matches Some(j) ==> is_crlf_at(x, j) && no_crlf_before(x, j),
{
}

/// Bytes that agree with `x` up to and including its first CR LF pair have
/// their first CR LF pair at the same place.
proof fn lemma_first_crlf_agree(x: Seq<u8>, y: Seq<u8>, j: int)
    requires
        first_crlf(x) == Some(j),
        y.len() >= j + 2,
        forall|i: int| 0 <= i < j + 2 ==> #[trigger] y[i] == x[i],
    ensures
        first_crlf(y) == Some(j),
{
    lemma_first_crlf_props(x);
    assert(is_crlf_at(y, j));
    assert forall|k: int| 0 <= k < j implies !#[trigger] is_crlf_at(y, k) by {
        assert(!is_crlf_at(x, k));
        assert(y[k] == x[k]);
        assert(y[k + 1] == x[k + 1]);
    }
    lemma_first_crlf_is(y, j);
}

/// Bytes that agree with `x` and end before its first CR LF pair is whole
/// hold no CR LF pair.
proof fn lemma_first_crlf_short(x: Seq<u8>, y: Seq<u8>, j: int)
    requires
        first_crlf(x) == Some(j),
        y.len() < j + 2,
        forall|i: int| 0 <= i < y.len() ==> #[trigger] y[i] == x[i],
    ensures
        first_crlf(y) is None,
{
    lemma_first_crlf_props(x);
    assert forall|k: int| !(is_crlf_at(y, k) && no_crlf_before(y, k)) by {
        if is_crlf_at(y, k) {
            assert(y[k] == x[k]);
            assert(y[k + 1] == x[k + 1]);
            assert(!is_crlf_at(x, k));
        }
    }
}

/// A whole frame is decided by its own bytes: any buffer that begins with
/// the same bytes decodes to the same frame.
pub proof fn lemma_frame_agree(a: Seq<u8>, b: Seq<u8>)
    requires
        decode(a) is Frame,
        b.len() >= decode(a)->Frame_1,
        b.take(decode(a)->Frame_1) == a.take(decode(a)->Frame_1),
    ensures
        decode(b) == decode(a),
    decreases a.len(), 0int,
{
    let k = decode(a)->Frame_1;
    lemma_decode_consumes(a);
    assert forall|i: int| 0 <= i < k implies #[trigger] b[i] == a[i] by {
        assert(b.take(k)[i] == a.take(k)[i]);
    }
    let j = first_crlf(a.skip(1))->0;
    lemma_first_crlf_props(a.skip(1));
    if a[0] == 42u8 {
        if let Ok(n) = integer_of(a.subrange(1, 1 + j)) {
            lemma_decode_items_consumes(a, j + 3, n as int);
        }
    }
    assert(j + 3 <= k);
    lemma_first_crlf_agree(a.skip(1), b.skip(1), j);
    assert(b.subrange(1, 1 + j) =~= a.subrange(1, 1 + j));
    if a[0] == 36u8 {
        if let Ok(n) = integer_of(a.subrange(1, 1 + j)) {
            let start = j + 3;
            let end = start + (n as usize);
            assert(b.subrange(start, end) =~= a.subrange(start, end));
        }
    } else if a[0] == 42u8 {
        if let Ok(n) = integer_of(a.subrange(1, 1 + j)) {
            lemma_items_agree(a, b, j + 3, n as int);
        }
    }
}

/// The elements of an array are decided by their own bytes.
proof fn lemma_items_agree(a: Seq<u8>, b: Seq<u8>, pos: int, count: int)
    requires
        0 <= pos <= a.len(),
        decode_items(a, pos, count) is Frame,
        b.len() >= decode_items(a, pos, count)->Frame_1,
        forall|i: int| 0 <= i < decode_items(a, pos, count)->Frame_1 ==> #[trigger] b[i] == a[i],
    ensures
        decode_items(b, pos, count) == decode_items(a, pos, count),
    decreases a.len() - pos, 1int,
{
    if count > 0 {
        let e = decode_items(a, pos, count)->Frame_1;
        let sa = a.skip(pos);
        let sb = b.skip(pos);
        lemma_decode_consumes(sa);
        if let Decoded::Frame(v, k) = decode(sa) {
            lemma_decode_items_consumes(a, pos + k, count - 1);
            assert(pos + k <= e);
            assert(sb.take(k) =~= sa.take(k)) by {
                assert forall|i: int| 0 <= i < k implies sb.take(k)[i] == sa.take(k)[i] by {
                    assert(b[pos + i] == a[pos + i]);
                }
            }
            lemma_frame_agree(sa, sb);
            lemma_items_agree(a, b, pos + k, count - 1);
        }
    }
}

/// The bytes of a whole frame cut short, but not to nothing, make a frame
/// that waits for more.
pub proof fn lemma_cut_frame_incomplete(f: Seq<u8>, s: Seq<u8>)
    requires
        decode(f) is Frame,
        0 < s.len() < decode(f)->Frame_1,
        s == f.take(s.len() as int),
    ensures
        decode(s) is Incomplete,
    decreases f.len(), 0int,
{
    let m = decode(f)->Frame_1;
    lemma_decode_consumes(f);
    assert forall|i: int| 0 <= i < s.len() implies #[trigger] s[i] == f[i] by {
        assert(f.take(s.len() as int)[i] == f[i]);
    }
    let j = first_crlf(f.skip(1))->0;
    lemma_first_crlf_props(f.skip(1));
    if s.len() < j + 3 {
        lemma_first_crlf_short(f.skip(1), s.skip(1), j);
    } else {
        lemma_first_crlf_agree(f.skip(1), s.skip(1), j);
        assert(s.subrange(1, 1 + j) =~= f.subrange(1, 1 + j));
        if f[0] == 42u8 {
            if let Ok(n) = integer_of(f.subrange(1, 1 + j)) {
                lemma_items_cut_incomplete(f, s, j + 3, n as int);
            }
        }
    }
}

/// The elements of an array cut short, at an element boundary or within an
/// element, wait for more.
proof fn lemma_items_cut_incomplete(f: Seq<u8>, s: Seq<u8>, pos: int, count: int)
    requires
        0 <= pos <= s.len(),
        decode_items(f, pos, count) is Frame,
        s.len() < decode_items(f, pos, count)->Frame_1,
        s.len() <= f.len(),
        forall|i: int| 0 <= i < s.len() ==> #[trigger] s[i] == f[i],
    ensures
        decode_items(s, pos, count) is Incomplete,
    decreases f.len() - pos, 1int,
{
    if count > 0 && pos < s.len() {
        let sf = f.skip(pos);
        let ss = s.skip(pos);
        lemma_decode_consumes(sf);
        if let Decoded::Frame(v, k) = decode(sf) {
            if s.len() < pos + k {
                assert(ss =~= sf.take(ss.len() as int));
                lemma_cut_frame_incomplete(sf, ss);
            } else {
                assert(ss.take(k) =~= sf.take(k));
                lemma_frame_agree(sf, ss);
                lemma_decode_items_consumes(f, pos + k, count - 1);
                lemma_items_cut_incomplete(f, s, pos + k, count - 1);
            }
        }
    }
}

/// The bytes of the pieces, one after the other.
pub open spec fn concat(pieces: Seq<Seq<u8>>) -> Seq<u8>
    decreases pieces.len(),
{
    if pieces.len() == 0 {
        Seq::empty()
    } else {
        pieces[0] + concat(pieces.drop_first())
    }
}

/// True when no piece is empty.
pub open spec fn all_nonempty(pieces: Seq<Seq<u8>>) -> bool {
    forall|i: int| 0 <= i < pieces.len() ==> #[trigger] pieces[i].len() > 0
}

/// What one call that reads a value from a connection gives.
pub enum ReadOutcome {
    /// A value, with the bytes left pending and the reads still to come.
    Value(ValueView, Seq<u8>, Seq<Seq<u8>>),
    /// The client closed the connection.
    End,
    /// A malformed or overrunning frame ended the connection.
    Stop,
}

/// One call that reads a value: as `take_frame` does, it takes a whole frame
/// off the pending bytes where there is one; where the pending bytes wait
/// for more it adds the next read to them, and a read of no bytes, or no
/// read left, is the client closing the connection.
pub open spec fn read_next(pending: Seq<u8>, reads: Seq<Seq<u8>>) -> ReadOutcome
    decreases reads.len(),
{
    if pending.len() > 0 && !(decode(pending) is Incomplete) {
        match decode(pending) {
            Decoded::Frame(v, n) => ReadOutcome::Value(v, pending.skip(n), reads),
            _ => ReadOutcome::Stop,
        }
    } else if reads.len() == 0 || reads[0].len() == 0 {
        ReadOutcome::End
    } else {
        read_next(pending + reads[0], reads.drop_first())
    }
}

/// What `calls` calls that read a value give, one after the other: each
/// value, then `None` when the client closed the connection; nothing is
/// read after the connection ends.
pub open spec fn read_all(pending: Seq<u8>, reads: Seq<Seq<u8>>, calls: nat) -> Seq<
    Option<ValueView>,
>
    decreases calls,
{
    if calls == 0 {
        Seq::empty()
    } else {
        match read_next(pending, reads) {
            ReadOutcome::Value(v, rest, later) => seq![Some(v)] + read_all(rest, later, (calls - 1) as nat),
            ReadOutcome::End => seq![None],
            ReadOutcome::Stop => Seq::empty(),
        }
    }
}

/// Pieces that join to nothing are none at all, where none is empty.
proof fn lemma_concat_empty(pieces: Seq<Seq<u8>>)
    requires
        all_nonempty(pieces),
        concat(pieces).len() == 0,
    ensures
        pieces.len() == 0,
{
    if pieces.len() > 0 {
        assert(pieces[0].len() > 0);
    }
}

/// The frames from place `i` on, one after the other.
pub proof fn lemma_concat_skip(frames: Seq<Seq<u8>>, i: int)
    requires
        0 <= i < frames.len(),
    ensures
        concat(frames.skip(i)) == frames[i] + concat(frames.skip(i + 1)),
{
    assert(frames.skip(i).drop_first() =~= frames.skip(i + 1));
}

/// The next read of a stream that holds, after the bytes taken so far, the
/// frames from place `i` on gives the frame at place `i` (or the close of
/// the connection after the last), and leaves the frames after it.
proof fn lemma_read_next_frame(
    frames: Seq<Seq<u8>>,
    values: Seq<ValueView>,
    i: int,
    pending: Seq<u8>,
    reads: Seq<Seq<u8>>,
)
    requires
        frames.len() == values.len(),
        forall|k: int|
            0 <= k < frames.len() ==> decode(#[trigger] frames[k]) == Decoded::Frame(
                values[k],
                frames[k].len() as int,
            ),
        0 <= i <= frames.len(),
        all_nonempty(reads),
        pending + concat(reads) == concat(frames.skip(i)),
    ensures
        i == frames.len() ==> read_next(pending, reads) is End,
        i < frames.len() ==> (read_next(pending, reads) matches ReadOutcome::Value(v, rest, later)
            && v == values[i] && rest + concat(later) == concat(frames.skip(i + 1)) && all_nonempty(
            later,
        )),
    decreases reads.len(),
{
    if i == frames.len() {
        assert(frames.skip(i) =~= Seq::<Seq<u8>>::empty());
        lemma_concat_empty(reads);
    } else {
        let f = frames[i];
        let tail = concat(frames.skip(i + 1));
        lemma_concat_skip(frames, i);
        lemma_decode_consumes(f);
        let whole = pending + concat(reads);
        if pending.len() >= f.len() {
            assert(pending =~= f + pending.skip(f.len() as int)) by {
                assert forall|k: int| 0 <= k < f.len() implies pending[k] == f[k] by {
                    assert(whole[k] == pending[k]);
                    assert((f + tail)[k] == f[k]);
                }
            }
            assert(pending.take(f.len() as int) =~= f.take(f.len() as int));
            lemma_frame_agree(f, pending);
            assert(pending.skip(f.len() as int) + concat(reads) =~= tail) by {
                assert(whole.skip(f.len() as int) =~= pending.skip(f.len() as int) + concat(reads));
                assert((f + tail).skip(f.len() as int) =~= tail);
            }
        } else {
            assert(pending =~= f.take(pending.len() as int)) by {
                assert forall|k: int| 0 <= k < pending.len() implies pending[k] == f[k] by {
                    assert(whole[k] == pending[k]);
                    assert((f + tail)[k] == f[k]);
                }
            }
            if pending.len() > 0 {
                lemma_cut_frame_incomplete(f, pending);
            }
            assert(reads.len() > 0) by {
                if reads.len() == 0 {
                    assert(concat(reads) =~= Seq::<u8>::empty());
                }
            }
            assert(reads[0].len() > 0);
            let next = pending + reads[0];
            let later = reads.drop_first();
            assert(all_nonempty(later)) by {
                assert forall|k: int| 0 <= k < later.len() implies #[trigger] later[k].len() > 0 by {
                    assert(later[k] == reads[k + 1]);
                }
            }
            assert(next + concat(later) =~= pending + concat(reads));
            lemma_read_next_frame(frames, values, i, next, later);
        }
    }
}

/// Whatever the reads of the connection cut it into, calls that read values
/// give the values of the frames it holds, one by one and in order, and
/// then the close of the connection: a stream of whole frames, each taking
/// all its bytes, read in pieces of at least one byte.
pub proof fn law_reads_give_frames_in_order(
    frames: Seq<Seq<u8>>,
    values: Seq<ValueView>,
    reads: Seq<Seq<u8>>,
)
    requires
        frames.len() == values.len(),
        forall|k: int|
            0 <= k < frames.len() ==> decode(#[trigger] frames[k]) == Decoded::Frame(
                values[k],
                frames[k].len() as int,
            ),
        all_nonempty(reads),
        concat(reads) == concat(frames),
    ensures
        read_all(Seq::empty(), reads, (frames.len() + 1) as nat) == values.map_values(
            |v: ValueView| Some(v),
        ).push(None),
{
    assert(frames.skip(0) =~= frames);
    assert(Seq::<u8>::empty() + concat(reads) =~= concat(reads));
    lemma_read_all_from(frames, values, 0, Seq::empty(), reads);
    assert(values.skip(0) =~= values);
}

/// The calls from the frame at place `i` on give the values from place `i`
/// on, then the close of the connection.
proof fn lemma_read_all_from(
    frames: Seq<Seq<u8>>,
    values: Seq<ValueView>,
    i: int,
    pending: Seq<u8>,
    reads: Seq<Seq<u8>>,
)
    requires
        frames.len() == values.len(),
        forall|k: int|
            0 <= k < frames.len() ==> decode(#[trigger] frames[k]) == Decoded::Frame(
                values[k],
                frames[k].len() as int,
            ),
        0 <= i <= frames.len(),
        all_nonempty(reads),
        pending + concat(reads) == concat(frames.skip(i)),
    ensures
        read_all(pending, reads, (frames.len() - i + 1) as nat) == values.skip(i).map_values(
            |v: ValueView| Some(v),
        ).push(None),
    decreases frames.len() - i,
{
    lemma_read_next_frame(frames, values, i, pending, reads);
    if i == frames.len() {
        assert(values.skip(i).map_values(|v: ValueView| Some(v)).push(None) =~= seq![None]);
    } else {
        if let ReadOutcome::Value(v, rest, later) = read_next(pending, reads) {
            lemma_read_all_from(frames, values, i + 1, rest, later);
            assert(values.skip(i).map_values(|v: ValueView| Some(v)).push(None) =~= seq![
                Some(values[i]),
            ] + values.skip(i + 1).map_values(|v: ValueView| Some(v)).push(None));
        }
    }
}

} // verus!
