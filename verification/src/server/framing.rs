//! The framing of a whole TCP stream, and what holds of it however the
//! stream is cut into reads.
//!
//! `Framing` follows a session that puts each read at the end of its buffer
//! and then calls the framer until it asks for more, each call doing to the
//! framer and the buffer what the contract of `Decode::decode` says. It
//! follows the session for as long as it goes on: one that a failure cuts
//! short has done what `Framing` says up to there.
//!
//! `Framing::of` says where a stream leaves a session, by the stream's
//! records alone. The two agree, and the laws at the end of this file follow
//! from that.

use crate::server::tcp::{delimiter, lemma_delimiter, scan, scan_limit, Framer, Scan, DELIMITER};
use vstd::prelude::*;

verus! {

/// A session's framer and buffer, with what has become of the stream so far.
#[verifier::ext_equal]
pub struct Framing {
    /// The framer's state.
    pub framer: Framer,
    /// The bytes that were read and not yet taken by the framer.
    pub buffer: Seq<u8>,
    /// The frames that were handed to the decoder, first to last.
    pub frames: Seq<Seq<u8>>,
    /// How many records were counted as over the limit.
    pub overflows: nat,
    /// The bytes that the framer took, in order: each frame with the
    /// delimiter behind it, and each run of bytes that it dropped.
    pub wire: Seq<u8>,
}

/// The records that a stream holds in full: the bytes before each delimiter,
/// back to the delimiter before.
pub open spec fn records(stream: Seq<u8>) -> Seq<Seq<u8>>
    decreases stream.len(),
    via records_decreases
{
    match delimiter(stream, 0) {
        Some(end) => seq![stream.take(end as int)] + records(stream.skip((end + 1) as int)),
        None => Seq::empty(),
    }
}

#[via_fn]
proof fn records_decreases(stream: Seq<u8>) {
    lemma_delimiter(stream, 0);
}

/// What follows the last delimiter of a stream: the record that is still
/// being read.
pub open spec fn tail(stream: Seq<u8>) -> Seq<u8>
    decreases stream.len(),
    via tail_decreases
{
    match delimiter(stream, 0) {
        Some(end) => tail(stream.skip((end + 1) as int)),
        None => stream,
    }
}

#[via_fn]
proof fn tail_decreases(stream: Seq<u8>) {
    lemma_delimiter(stream, 0);
}

/// The records that are within the limit.
pub open spec fn fits(max: nat) -> spec_fn(Seq<u8>) -> bool {
    |record: Seq<u8>| record.len() <= max
}

/// The records that are over the limit.
pub open spec fn exceeds(max: nat) -> spec_fn(Seq<u8>) -> bool {
    |record: Seq<u8>| record.len() > max
}

impl Framing {
    /// A session that has read nothing.
    pub open spec fn start(max: nat) -> Framing {
        Framing {
            framer: Framer { max, head: 0, discarding: false },
            buffer: Seq::empty(),
            frames: Seq::empty(),
            overflows: 0,
            wire: Seq::empty(),
        }
    }

    /// The session after one call of the framer.
    pub open spec fn step(self) -> Framing {
        let s = scan(self.framer, self.buffer);
        Framing {
            framer: Framer { head: s.head, discarding: s.discarding, ..self.framer },
            buffer: s.rest,
            frames: match s.frame {
                Some(frame) => self.frames.push(frame),
                None => self.frames,
            },
            overflows: self.overflows + s.overflows,
            wire: self.wire + s.consumed(),
        }
    }

    /// The session after it has called the framer until it asked for more.
    pub open spec fn drain(self) -> Framing
        decreases self.buffer.len(),
        via Self::drain_decreases
    {
        if scan(self.framer, self.buffer).frame is Some {
            self.step().drain()
        } else {
            self.step()
        }
    }

    #[via_fn]
    proof fn drain_decreases(self) {
        lemma_scan_conserves(self.framer, self.buffer);
    }

    /// The session after it has read `chunk` and framed what it could.
    pub open spec fn receive(self, chunk: Seq<u8>) -> Framing {
        (Framing { buffer: self.buffer + chunk, ..self }).drain()
    }

    /// The session after it has read each of `chunks` in turn.
    pub open spec fn feed(self, chunks: Seq<Seq<u8>>) -> Framing
        decreases chunks.len(),
    {
        if chunks.len() == 0 {
            self
        } else {
            self.receive(chunks.first()).feed(chunks.drop_first())
        }
    }

    /// Where `stream` leaves a session, whatever reads it came in.
    ///
    /// The frames are the stream's full records within the limit. Each full
    /// record over the limit was counted once, and so was the record still
    /// being read if it is over the limit by now. Of that record the buffer
    /// holds all that came while it is within the limit, and nothing once it
    /// is over.
    pub open spec fn of(max: nat, stream: Seq<u8>) -> Framing {
        let over = tail(stream).len() > max;
        let kept = if over {
            Seq::empty()
        } else {
            tail(stream)
        };
        Framing {
            framer: Framer { max, head: kept.len(), discarding: over },
            buffer: kept,
            frames: records(stream).filter(fits(max)),
            overflows: records(stream).filter(exceeds(max)).len() + if over {
                1nat
            } else {
                0nat
            },
            wire: stream.take(stream.len() - kept.len()),
        }
    }
}

/// One call of the framer takes bytes from the front of the buffer and
/// nothing else: what it dropped, the frame and its delimiter, and what it
/// left make up the buffer it was given. A call that finds a frame leaves
/// less than it was given.
pub proof fn lemma_scan_conserves(f: Framer, buf: Seq<u8>)
    ensures
        scan(f, buf).consumed() + scan(f, buf).rest == buf,
        scan(f, buf).frame is Some ==> scan(f, buf).rest.len() < buf.len(),
    decreases buf.len(), (if f.discarding { 0nat } else { 1nat }),
{
    lemma_delimiter(buf, f.head);
    let found = delimiter(buf, f.head);
    if !f.discarding {
        let fits = match found {
            Some(end) => end <= f.max,
            None => buf.len() <= f.max,
        };
        if !fits {
            let inner = Framer { discarding: true, ..f };
            lemma_scan_conserves(inner, buf);
            assert(scan(f, buf) == scan(inner, buf).overflowed());
        } else {
            match found {
                Some(end) => {
                    assert(Seq::<u8>::empty() + buf.take(end as int) + seq![DELIMITER] + buf.skip(
                        (end + 1) as int,
                    ) =~= buf);
                },
                None => {
                    assert(Seq::<u8>::empty() + buf =~= buf);
                },
            }
        }
    } else {
        match found {
            Some(end) => {
                let inner = Framer { head: 0, discarding: false, ..f };
                let rest = buf.skip((end + 1) as int);
                let front = buf.take((end + 1) as int);
                lemma_scan_conserves(inner, rest);
                lemma_after(scan(inner, rest), front);
                assert(front + scan(inner, rest).consumed() + scan(inner, rest).rest =~= front + (
                scan(inner, rest).consumed() + scan(inner, rest).rest));
                assert(front + rest =~= buf);
            },
            None => {
                let limit = scan_limit(f.max, buf);
                if limit >= buf.len() {
                    assert(buf + Seq::<u8>::empty() =~= buf);
                } else {
                    let inner = Framer { head: 0, ..f };
                    let rest = buf.skip(limit as int);
                    let front = buf.take(limit as int);
                    lemma_scan_conserves(inner, rest);
                    lemma_after(scan(inner, rest), front);
                    assert(front + scan(inner, rest).consumed() + scan(inner, rest).rest =~= front
                        + (scan(inner, rest).consumed() + scan(inner, rest).rest));
                    assert(front + rest =~= buf);
                }
            },
        }
    }
}

/// Bytes dropped before a call come before all that the call takes.
proof fn lemma_after(s: Scan, front: Seq<u8>)
    ensures
        s.after(front).consumed() == front + s.consumed(),
{
    match s.frame {
        Some(frame) => {
            assert((front + s.dropped) + frame + seq![DELIMITER] =~= front + (s.dropped + frame
                + seq![DELIMITER]));
        },
        None => {},
    }
}

/// The search for a delimiter may skip bytes that hold none.
proof fn lemma_delimiter_from(buf: Seq<u8>, from: nat, head: nat)
    requires
        from <= head <= buf.len(),
        forall|i: int| from <= i < head ==> buf[i] != DELIMITER,
    ensures
        delimiter(buf, from) == delimiter(buf, head),
    decreases head - from,
{
    if from < head {
        lemma_delimiter_from(buf, from + 1, head);
    }
}

/// The first delimiter of two runs of bytes put together is that of the
/// first run or, if it has none, that of the second.
proof fn lemma_delimiter_concat(front: Seq<u8>, back: Seq<u8>, from: nat)
    requires
        from <= front.len() + back.len(),
    ensures
        delimiter(front + back, from) == if from < front.len() {
            match delimiter(front, from) {
                Some(end) => Some(end),
                None => match delimiter(back, 0) {
                    Some(end) => Some(front.len() + end),
                    None => None,
                },
            }
        } else {
            match delimiter(back, (from - front.len()) as nat) {
                Some(end) => Some(front.len() + end),
                None => None,
            }
        },
    decreases front.len() + back.len() - from,
{
    let whole = front + back;
    if from < whole.len() {
        lemma_delimiter_concat(front, back, from + 1);
        if from < front.len() {
            assert(whole[from as int] == front[from as int]);
        } else {
            assert(whole[from as int] == back[from - front.len()]);
        }
    }
}

/// The record still being read holds no delimiter and is the end of the stream.
proof fn lemma_tail(stream: Seq<u8>)
    ensures
        tail(stream).len() <= stream.len(),
        stream.skip(stream.len() - tail(stream).len()) == tail(stream),
        forall|i: int| 0 <= i < tail(stream).len() ==> tail(stream)[i] != DELIMITER,
        delimiter(tail(stream), 0) is None,
    decreases stream.len(),
{
    lemma_delimiter(stream, 0);
    match delimiter(stream, 0) {
        Some(end) => {
            let rest = stream.skip((end + 1) as int);
            lemma_tail(rest);
            assert(stream.skip(stream.len() - tail(stream).len()) =~= rest.skip(
                rest.len() - tail(rest).len(),
            ));
        },
        None => {
            assert(stream.skip(0) =~= stream);
        },
    }
}

/// More bytes add to the records of a stream those that the record still
/// being read makes with them.
proof fn lemma_records_append(stream: Seq<u8>, chunk: Seq<u8>)
    ensures
        records(stream + chunk) == records(stream) + records(tail(stream) + chunk),
        tail(stream + chunk) == tail(tail(stream) + chunk),
    decreases stream.len(),
{
    lemma_delimiter(stream, 0);
    lemma_delimiter_concat(stream, chunk, 0);
    match delimiter(stream, 0) {
        Some(end) => {
            let rest = stream.skip((end + 1) as int);
            lemma_records_append(rest, chunk);
            assert((stream + chunk).take(end as int) =~= stream.take(end as int));
            assert((stream + chunk).skip((end + 1) as int) =~= rest + chunk);
            assert(records(stream + chunk) =~= records(stream) + records(tail(stream) + chunk));
        },
        None => {
            assert(records(stream) + records(stream + chunk) =~= records(stream + chunk));
        },
    }
}

/// A framer that is dropping a record yields nothing until a delimiter
/// comes: it drops all of a buffer that holds none, and goes on dropping.
pub proof fn lemma_drop_all(f: Framer, buf: Seq<u8>)
    requires
        f.discarding,
        forall|i: int| 0 <= i < buf.len() ==> buf[i] != DELIMITER,
    ensures
        scan(f, buf) == (Scan {
            frame: None,
            rest: Seq::empty(),
            head: 0,
            discarding: true,
            overflows: 0,
            dropped: buf,
        }),
    decreases buf.len(),
{
    lemma_delimiter(buf, f.head);
    let limit = scan_limit(f.max, buf);
    if limit < buf.len() {
        let inner = Framer { head: 0, ..f };
        lemma_drop_all(inner, buf.skip(limit as int));
        assert(buf.take(limit as int) + buf.skip(limit as int) =~= buf);
    }
}

/// What a filter makes of a single record.
proof fn lemma_filter_one(record: Seq<u8>, rest: Seq<Seq<u8>>, pred: spec_fn(Seq<u8>) -> bool)
    ensures
        (seq![record] + rest).filter(pred) == if pred(record) {
            seq![record] + rest.filter(pred)
        } else {
            rest.filter(pred)
        },
{
    reveal_with_fuel(Seq::filter, 2);
    Seq::filter_distributes_over_add(seq![record], rest, pred);
    assert(seq![record].drop_last() =~= Seq::<Seq<u8>>::empty());
    assert(seq![record].filter(pred) =~= if pred(record) {
        seq![record]
    } else {
        Seq::empty()
    });
    assert(Seq::<Seq<u8>>::empty() + rest.filter(pred) =~= rest.filter(pred));
}

/// A filter makes nothing of no records.
proof fn lemma_filter_none(pred: spec_fn(Seq<u8>) -> bool)
    ensures
        Seq::<Seq<u8>>::empty().filter(pred) == Seq::<Seq<u8>>::empty(),
{
    reveal(Seq::filter);
}

/// Two sessions come to the same when the first framer's next call does
/// what the second's does after some dropping and counting that the second
/// session has behind it.
proof fn lemma_drain_skips(s: Framing, t: Framing, counted: nat, dropped: Seq<u8>)
    requires
        t.framer.max == s.framer.max,
        t.frames == s.frames,
        t.overflows == s.overflows + counted,
        t.wire == s.wire + dropped,
        scan(s.framer, s.buffer) == (Scan {
            overflows: scan(t.framer, t.buffer).overflows + counted,
            dropped: dropped + scan(t.framer, t.buffer).dropped,
            ..scan(t.framer, t.buffer)
        }),
    ensures
        s.drain() == t.drain(),
{
    let inner = scan(t.framer, t.buffer);
    lemma_after(inner, dropped);
    assert(scan(s.framer, s.buffer).consumed() == inner.after(dropped).consumed());
    assert(s.wire + (dropped + inner.consumed()) =~= (s.wire + dropped) + inner.consumed());
    assert(s.step() =~= t.step());
}

/// Where calling the framer until it asks for more leaves a session whose
/// framer is scanning and has no delimiter behind its read head.
spec fn caught_up(s: Framing) -> Framing {
    let max = s.framer.max;
    let over = tail(s.buffer).len() > max;
    let kept = if over {
        Seq::empty()
    } else {
        tail(s.buffer)
    };
    Framing {
        framer: Framer { max, head: kept.len(), discarding: over },
        buffer: kept,
        frames: s.frames + records(s.buffer).filter(fits(max)),
        overflows: s.overflows + records(s.buffer).filter(exceeds(max)).len() + if over {
            1nat
        } else {
            0nat
        },
        wire: s.wire + s.buffer.take(s.buffer.len() - kept.len()),
    }
}

proof fn lemma_drain_scanning(s: Framing)
    requires
        !s.framer.discarding,
        s.framer.head <= s.buffer.len(),
        forall|i: int| 0 <= i < s.framer.head ==> s.buffer[i] != DELIMITER,
    ensures
        s.drain() == caught_up(s),
    decreases s.buffer.len(),
{
    let f = s.framer;
    let buf = s.buffer;
    let max = f.max;
    lemma_delimiter_from(buf, 0, f.head);
    lemma_delimiter(buf, 0);
    lemma_tail(buf);
    let dropping = Framer { discarding: true, ..f };
    let clean = Framer { head: 0, discarding: false, ..f };
    match delimiter(buf, 0) {
        Some(end) => {
            let record = buf.take(end as int);
            let front = buf.take((end + 1) as int);
            let rest = buf.skip((end + 1) as int);
            lemma_tail(rest);
            lemma_filter_one(record, records(rest), fits(max));
            lemma_filter_one(record, records(rest), exceeds(max));
            let kept = caught_up(s).buffer;
            if end <= max {
                let next = s.step();
                lemma_drain_scanning(next);
                assert(next.frames + records(rest).filter(fits(max)) =~= s.frames + records(
                    buf,
                ).filter(fits(max)));
                assert(next.wire + rest.take(rest.len() - kept.len()) =~= s.wire + buf.take(
                    buf.len() - kept.len(),
                ));
                assert(caught_up(next) =~= caught_up(s));
            } else {
                let next = Framing {
                    framer: clean,
                    buffer: rest,
                    frames: s.frames,
                    overflows: s.overflows + 1,
                    wire: s.wire + front,
                };
                assert(scan(f, buf) == scan(dropping, buf).overflowed());
                assert(scan(dropping, buf) == scan(clean, rest).after(front));
                lemma_drain_skips(s, next, 1, front);
                lemma_drain_scanning(next);
                assert(next.wire + rest.take(rest.len() - kept.len()) =~= s.wire + buf.take(
                    buf.len() - kept.len(),
                ));
                assert(caught_up(next) =~= caught_up(s));
            }
        },
        None => {
            lemma_filter_none(fits(max));
            lemma_filter_none(exceeds(max));
            if buf.len() > max {
                assert(scan(f, buf) == scan(dropping, buf).overflowed());
                lemma_drop_all(dropping, buf);
                assert(buf.take(buf.len() as int) =~= buf);
                assert(s.step() =~= caught_up(s));
            } else {
                assert(buf.take(0) =~= Seq::<u8>::empty());
                assert(s.step() =~= caught_up(s));
            }
        },
    }
}

/// A read takes a session from where the stream before it left it to where
/// the stream with it leaves it.
pub proof fn lemma_receive(max: nat, stream: Seq<u8>, chunk: Seq<u8>)
    ensures
        Framing::of(max, stream).receive(chunk) == Framing::of(max, stream + chunk),
{
    let before = Framing::of(max, stream);
    let after = Framing::of(max, stream + chunk);
    let reading = tail(stream);
    let s = Framing { buffer: before.buffer + chunk, ..before };
    lemma_tail(stream);
    lemma_tail(stream + chunk);
    lemma_tail(reading + chunk);
    lemma_records_append(stream, chunk);
    Seq::filter_distributes_over_add(records(stream), records(reading + chunk), fits(max));
    Seq::filter_distributes_over_add(records(stream), records(reading + chunk), exceeds(max));
    assert(stream.take(stream.len() - reading.len()) + reading =~= stream);
    if reading.len() <= max {
        assert forall|i: int| 0 <= i < s.framer.head implies s.buffer[i] != DELIMITER by {
            assert(s.buffer[i] == reading[i]);
        }
        lemma_drain_scanning(s);
        assert(caught_up(s).wire =~= after.wire);
        assert(caught_up(s) =~= after);
    } else {
        assert(s.buffer =~= chunk);
        lemma_delimiter(chunk, 0);
        lemma_delimiter_concat(reading, chunk, 0);
        match delimiter(chunk, 0) {
            Some(end) => {
                let front = chunk.take((end + 1) as int);
                let rest = chunk.skip((end + 1) as int);
                let clean = Framer { head: 0, discarding: false, ..s.framer };
                let next = Framing { framer: clean, buffer: rest, wire: s.wire + front, ..s };
                let record = (reading + chunk).take((reading.len() + end) as int);
                lemma_tail(rest);
                assert(scan(s.framer, chunk) == scan(clean, rest).after(front));
                lemma_drain_skips(s, next, 0, front);
                lemma_drain_scanning(next);
                assert((reading + chunk).skip((reading.len() + end + 1) as int) =~= rest);
                lemma_filter_one(record, records(rest), fits(max));
                lemma_filter_one(record, records(rest), exceeds(max));
                assert(caught_up(next).frames =~= after.frames);
                assert(caught_up(next).wire =~= after.wire);
                assert(caught_up(next) =~= after);
            },
            None => {
                lemma_drop_all(s.framer, chunk);
                assert(records(stream) + records(reading + chunk) =~= records(stream));
                assert(s.step().wire =~= after.wire);
                assert(s.step() =~= after);
            },
        }
    }
}

/// Where a stream leaves a session does not depend on the reads it came in:
/// a session that has gone through `stream` and then reads `chunks` ends up
/// where the stream with all of them behind it leaves a session.
pub proof fn lemma_feed(max: nat, stream: Seq<u8>, chunks: Seq<Seq<u8>>)
    ensures
        Framing::of(max, stream).feed(chunks) == Framing::of(max, stream + chunks.flatten()),
    decreases chunks.len(),
{
    if chunks.len() == 0 {
        assert(stream + chunks.flatten() =~= stream);
    } else {
        lemma_receive(max, stream, chunks.first());
        lemma_feed(max, stream + chunks.first(), chunks.drop_first());
        assert(stream + chunks.first() + chunks.drop_first().flatten() =~= stream
            + chunks.flatten());
    }
}

/// The bytes that the framer has taken from a stream are the bytes that the
/// stream starts with: the frames it handed on, each with its delimiter, and
/// the bytes it dropped, put together in order, are followed in the stream
/// by what is in the buffer, and by nothing else.
pub proof fn lemma_wire_is_prefix(max: nat, chunks: Seq<Seq<u8>>)
    ensures
        Framing::start(max).feed(chunks).wire + Framing::start(max).feed(chunks).buffer
            == chunks.flatten(),
        Framing::start(max).feed(chunks).wire.is_prefix_of(chunks.flatten()),
{
    let stream = chunks.flatten();
    let end = Framing::of(max, stream);
    lemma_start(max);
    lemma_feed(max, Seq::empty(), chunks);
    assert(Seq::<u8>::empty() + stream =~= stream);
    lemma_tail(stream);
    assert(end.wire + end.buffer =~= stream);
}

/// No frame that the decoder is handed is over the limit, and each record
/// over the limit is counted once: when its delimiter has come, or before
/// that, as soon as what has come of it is over the limit.
pub proof fn lemma_oversize_counted_once(max: nat, chunks: Seq<Seq<u8>>)
    ensures
        forall|i: int|
            0 <= i < Framing::start(max).feed(chunks).frames.len() ==> (
            #[trigger] Framing::start(max).feed(chunks).frames[i]).len() <= max,
        Framing::start(max).feed(chunks).overflows == records(chunks.flatten()).filter(
            exceeds(max),
        ).len() + if tail(chunks.flatten()).len() > max {
            1nat
        } else {
            0nat
        },
{
    let stream = chunks.flatten();
    lemma_start(max);
    lemma_feed(max, Seq::empty(), chunks);
    assert(Seq::<u8>::empty() + stream =~= stream);
    let frames = Framing::of(max, stream).frames;
    assert forall|i: int| 0 <= i < frames.len() implies (#[trigger] frames[i]).len() <= max by {
        records(stream).lemma_filter_pred(fits(max), i);
    }
}

/// The frames that the decoder is handed are the stream's full records
/// within the limit, each once and in the order in which their delimiters
/// came, however the stream was cut into reads.
pub proof fn lemma_frames_in_order(max: nat, chunks: Seq<Seq<u8>>)
    ensures
        Framing::start(max).feed(chunks).frames == records(chunks.flatten()).filter(fits(max)),
{
    let stream = chunks.flatten();
    lemma_start(max);
    lemma_feed(max, Seq::empty(), chunks);
    assert(Seq::<u8>::empty() + stream =~= stream);
}

/// A session that has read nothing is where the empty stream leaves one.
pub proof fn lemma_start(max: nat)
    ensures
        Framing::start(max) == Framing::of(max, Seq::empty()),
{
    let none = Seq::<u8>::empty();
    lemma_filter_none(fits(max));
    lemma_filter_none(exceeds(max));
    assert(delimiter(none, 0) is None);
    assert(none.take(0) =~= none);
    assert(Framing::start(max) =~= Framing::of(max, none));
}

} // verus!
