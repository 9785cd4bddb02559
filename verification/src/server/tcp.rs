//! The TCP receiver: framing of the byte stream, session timeouts, and the
//! pool of sessions.

use crate::buffer::{payload, pending};
use crate::metrics::{increment, Metrics};
use crate::server::{decoded_by, deliver, Polled, Received};
use bytes::{Buf, Bytes, BytesMut};
use vstd::prelude::*;

verus! {

/// How many TCP sessions a server keeps open at once.
pub const MAX_CONNECTIONS: usize = 1024;

/// The byte that ends a record on the wire.
pub const DELIMITER: u8 = 0;

/// Where the first delimiter at or after `from` lies in `buf`, if there is one.
pub open spec fn delimiter(buf: Seq<u8>, from: nat) -> Option<nat>
    decreases buf.len() - from,
{
    if from >= buf.len() {
        None
    } else if buf[from as int] == DELIMITER {
        Some(from)
    } else {
        delimiter(buf, from + 1)
    }
}

/// The state of a framer between two calls.
pub struct Framer {
    /// The largest record that is handed on, in bytes, delimiter not counted.
    pub max: nat,
    /// Where the search for the next delimiter starts.
    pub head: nat,
    /// Whether the record being read is over the limit and is being dropped.
    pub discarding: bool,
}

/// What one call of the framer does with the buffer it is given.
pub struct Scan {
    /// The frame that is handed to the decoder, if the call found one.
    pub frame: Option<Seq<u8>>,
    /// What is left in the buffer.
    pub rest: Seq<u8>,
    /// The framer's read head after the call.
    pub head: nat,
    /// Whether the framer is dropping a record after the call.
    pub discarding: bool,
    /// How many records the call found to be over the limit.
    pub overflows: nat,
    /// The bytes the call dropped, in order. They lie before the frame.
    pub dropped: Seq<u8>,
}

impl Scan {
    /// The same outcome with one more record over the limit.
    pub open spec fn overflowed(self) -> Scan {
        Scan { overflows: self.overflows + 1, ..self }
    }

    /// The same outcome after `bytes` were dropped first.
    pub open spec fn after(self, bytes: Seq<u8>) -> Scan {
        Scan { dropped: bytes + self.dropped, ..self }
    }

    /// The bytes the call took from the front of the buffer: what it dropped,
    /// then the frame with its delimiter.
    pub open spec fn consumed(self) -> Seq<u8> {
        match self.frame {
            Some(frame) => self.dropped + frame + seq![DELIMITER],
            None => self.dropped,
        }
    }
}

/// How far into `buf` one step reads at most: one byte more than a record may have.
pub open spec fn scan_limit(max: nat, buf: Seq<u8>) -> nat {
    if max < buf.len() {
        max + 1
    } else {
        buf.len()
    }
}

/// One call of the framer in state `f` on the buffer `buf`.
///
/// While scanning, a delimiter within the limit ends a frame, and one beyond
/// it, or none in a buffer that is already over the limit, starts the
/// dropping of a record. While dropping, everything up to and including the
/// next delimiter goes, and scanning starts again behind it.
pub open spec fn scan(f: Framer, buf: Seq<u8>) -> Scan
    decreases buf.len(), (if f.discarding { 0nat } else { 1nat }),
    via scan_decreases
{
    match (f.discarding, delimiter(buf, f.head)) {
        (false, Some(end)) => if end > f.max {
            scan(Framer { discarding: true, ..f }, buf).overflowed()
        } else {
            Scan {
                frame: Some(buf.take(end as int)),
                rest: buf.skip((end + 1) as int),
                head: 0,
                discarding: false,
                overflows: 0,
                dropped: Seq::empty(),
            }
        },
        (false, None) => if buf.len() > f.max {
            scan(Framer { discarding: true, ..f }, buf).overflowed()
        } else {
            Scan {
                frame: None,
                rest: buf,
                head: scan_limit(f.max, buf),
                discarding: false,
                overflows: 0,
                dropped: Seq::empty(),
            }
        },
        (true, Some(end)) => scan(Framer { head: 0, discarding: false, ..f }, buf.skip((end + 1) as int)).after(
            buf.take((end + 1) as int),
        ),
        (true, None) => {
            let limit = scan_limit(f.max, buf);
            if limit >= buf.len() {
                Scan {
                    frame: None,
                    rest: Seq::empty(),
                    head: 0,
                    discarding: true,
                    overflows: 0,
                    dropped: buf,
                }
            } else {
                scan(Framer { head: 0, ..f }, buf.skip(limit as int)).after(buf.take(limit as int))
            }
        },
    }
}

/// The framer's last call on a stream, made when the peer has closed it:
/// what bytes an ordinary call would leave in the buffer make up a last
/// frame, though no delimiter ends it.
pub open spec fn scan_eof(f: Framer, buf: Seq<u8>) -> Scan {
    let s = scan(f, buf);
    if s.frame is None && s.rest.len() > 0 {
        Scan { frame: Some(s.rest), rest: Seq::empty(), head: 0, ..s }
    } else {
        s
    }
}

#[via_fn]
proof fn scan_decreases(f: Framer, buf: Seq<u8>) {
    lemma_delimiter(buf, f.head);
}

/// A delimiter that `delimiter` finds is one, lies in the buffer at or
/// after `from`, and has none between `from` and itself; where it finds none,
/// there is none from `from` on.
pub proof fn lemma_delimiter(buf: Seq<u8>, from: nat)
    ensures
        match delimiter(buf, from) {
            Some(end) => from <= end < buf.len() && buf[end as int] == DELIMITER && forall|i: int|
                from <= i < end ==> buf[i] != DELIMITER,
            None => forall|i: int| from <= i < buf.len() ==> buf[i] != DELIMITER,
        },
    decreases buf.len() - from,
{
    if from < buf.len() && buf[from as int] != DELIMITER {
        lemma_delimiter(buf, from + 1);
    }
}

/// No frame is over the limit, whatever state the framer was in.
pub proof fn lemma_frame_within_limit(f: Framer, buf: Seq<u8>)
    ensures
        scan(f, buf).frame matches Some(frame) ==> frame.len() <= f.max,
        scan_eof(f, buf).frame matches Some(frame) ==> frame.len() <= f.max,
    decreases buf.len(), (if f.discarding { 0nat } else { 1nat }),
{
    lemma_delimiter(buf, f.head);
    match (f.discarding, delimiter(buf, f.head)) {
        (false, Some(end)) => if end > f.max {
            lemma_frame_within_limit(Framer { discarding: true, ..f }, buf);
        },
        (false, None) => if buf.len() > f.max {
            lemma_frame_within_limit(Framer { discarding: true, ..f }, buf);
        },
        (true, Some(end)) => {
            lemma_frame_within_limit(
                Framer { head: 0, discarding: false, ..f },
                buf.skip((end + 1) as int),
            );
        },
        (true, None) => {
            let limit = scan_limit(f.max, buf);
            if limit < buf.len() {
                lemma_frame_within_limit(Framer { head: 0, ..f }, buf.skip(limit as int));
            }
        },
    }
}

/// After a call the read head lies within what is left in the buffer.
pub proof fn lemma_scan_head(f: Framer, buf: Seq<u8>)
    ensures
        scan(f, buf).head <= scan(f, buf).rest.len(),
        scan_eof(f, buf).head <= scan_eof(f, buf).rest.len(),
    decreases buf.len(), (if f.discarding { 0nat } else { 1nat }),
{
    lemma_delimiter(buf, f.head);
    match (f.discarding, delimiter(buf, f.head)) {
        (false, Some(end)) => if end > f.max {
            lemma_scan_head(Framer { discarding: true, ..f }, buf);
        },
        (false, None) => if buf.len() > f.max {
            lemma_scan_head(Framer { discarding: true, ..f }, buf);
        },
        (true, Some(end)) => {
            lemma_scan_head(Framer { head: 0, discarding: false, ..f }, buf.skip((end + 1) as int));
        },
        (true, None) => {
            let limit = scan_limit(f.max, buf);
            if limit < buf.len() {
                lemma_scan_head(Framer { head: 0, ..f }, buf.skip(limit as int));
            }
        },
    }
}

/// Finds the first delimiter at or after `from`.
fn find_delimiter(bytes: &[u8], from: usize) -> (found: Option<usize>)
    requires
        from <= bytes.len(),
    ensures
        match found {
            Some(end) => delimiter(bytes@, from as nat) == Some(end as nat),
            None => delimiter(bytes@, from as nat) is None,
        },
{
    let mut at: usize = from;
    while at < bytes.len()
        invariant
            from <= at <= bytes.len(),
            delimiter(bytes@, from as nat) == delimiter(bytes@, at as nat),
        decreases bytes.len() - at,
    {
        if bytes[at] == DELIMITER {
            return Some(at);
        }
        at = at + 1;
    }
    None
}

/// Cuts a TCP byte stream into records that end in a delimiter, hands each
/// one that is within the size limit to a decoder, and drops the others.
pub struct Decode<F> {
    max_size_bytes: usize,
    read_head: usize,
    discarding: bool,
    receive: F,
}

impl<F> View for Decode<F> {
    type V = Framer;

    closed spec fn view(&self) -> Framer {
        Framer {
            max: self.max_size_bytes as nat,
            head: self.read_head as nat,
            discarding: self.discarding,
        }
    }
}

impl<F> Decode<F> {
    /// The decoder that frames are handed to.
    pub closed spec fn receiver(&self) -> F {
        self.receive
    }

    /// A framer at the start of a stream: scanning, from the first byte.
    pub fn new(max_size_bytes: usize, receive: F) -> (decode: Self)
        ensures
            decode@ == (Framer { max: max_size_bytes as nat, head: 0, discarding: false }),
            decode.receiver() == receive,
    {
        Decode { read_head: 0, discarding: false, max_size_bytes, receive }
    }

    /// The largest record that is handed on, in bytes.
    pub fn max_size_bytes(&self) -> (max: usize)
        ensures
            max == self@.max,
    {
        self.max_size_bytes
    }

    /// Where in the buffer the search for the next delimiter starts.
    pub fn read_head(&self) -> (head: usize)
        ensures
            head == self@.head,
    {
        self.read_head
    }

    /// Whether a record over the limit is being dropped.
    pub fn is_discarding(&self) -> (discarding: bool)
        ensures
            discarding == self@.discarding,
    {
        self.discarding
    }

    /// Takes the next frame out of `src`, if it holds one, and yields what
    /// the decoder makes of it.
    ///
    /// The framer and the buffer end up as `scan` says, and each record
    /// found to be over the limit is counted. Without a frame, `Ok(None)`
    /// asks for more bytes.
    pub fn decode<M, E>(&mut self, src: &mut BytesMut, metrics: &mut Metrics) -> (yielded: Result<
        Option<Received<M>>,
        E,
    >) where F: FnMut(Bytes) -> Result<Option<M>, E>
        requires
            old(self)@.head <= pending(*old(src)).len(),
            forall|bytes: Bytes| call_requires(old(self).receiver(), (bytes,)),
        ensures
            ({
                let s = scan(old(self)@, pending(*old(src)));
                &&& final(self)@ == (Framer { head: s.head, discarding: s.discarding, ..old(self)@ })
                &&& final(self).receiver() == old(self).receiver()
                &&& pending(*final(src)) == s.rest
                &&& *final(metrics) == old(metrics).with_overflows(s.overflows)
                &&& match s.frame {
                    Some(frame) => decoded_by(old(self).receiver(), frame, yielded),
                    None => yielded == Ok::<Option<Received<M>>, E>(None),
                }
            }),
            final(self)@.head <= pending(*final(src)).len(),
    {
        proof {
            lemma_scan_head(self@, pending(*src));
        }
        let ghost mut seen: nat = 0;
        loop
            invariant
                self.max_size_bytes == old(self).max_size_bytes,
                self.receiver() == old(self).receiver(),
                self.read_head <= pending(*src).len(),
                scan(self@, pending(*src)).frame == scan(old(self)@, pending(*old(src))).frame,
                scan(self@, pending(*src)).rest == scan(old(self)@, pending(*old(src))).rest,
                scan(self@, pending(*src)).head == scan(old(self)@, pending(*old(src))).head,
                scan(self@, pending(*src)).discarding == scan(
                    old(self)@,
                    pending(*old(src)),
                ).discarding,
                scan(self@, pending(*src)).overflows + seen == scan(
                    old(self)@,
                    pending(*old(src)),
                ).overflows,
                *metrics == old(metrics).with_overflows(seen),
                forall|bytes: Bytes| call_requires(self.receiver(), (bytes,)),
            decreases pending(*src).len(), (if self.discarding { 0nat } else { 1nat }),
        {
            let len = src.len();
            let read_to = if self.max_size_bytes < len {
                self.max_size_bytes + 1
            } else {
                len
            };
            let found = find_delimiter(AsRef::<[u8]>::as_ref(&*src), self.read_head);
            proof {
                lemma_delimiter(pending(*src), self.read_head as nat);
            }
            if !self.discarding {
                let fits = match found {
                    Some(frame_end) => frame_end <= self.max_size_bytes,
                    None => len <= self.max_size_bytes,
                };
                if !fits {
                    increment(&mut metrics.tcp_msg_overflow);
                    self.discarding = true;
                    proof {
                        seen = seen + 1;
                    }
                } else {
                    match found {
                        Some(frame_end) => {
                            self.read_head = 0;
                            let frame = src.split_to(frame_end).freeze();
                            src.advance(1);
                            return deliver((self.receive)(frame));
                        },
                        None => {
                            self.read_head = read_to;
                            return Ok(None);
                        },
                    }
                }
            } else {
                match found {
                    Some(end) => {
                        src.advance(end + 1);
                        self.discarding = false;
                        self.read_head = 0;
                    },
                    None => {
                        src.advance(read_to);
                        self.read_head = 0;
                        if src.len() == 0 {
                            return Ok(None);
                        }
                    },
                }
            }
        }
    }

    /// Takes the next frame out of `src` when no more bytes will come.
    ///
    /// It does what `decode` does, but where that would ask for more bytes
    /// and the buffer is not empty, all of the buffer is the frame.
    pub fn decode_eof<M, E>(&mut self, src: &mut BytesMut, metrics: &mut Metrics) -> (yielded:
        Result<Option<Received<M>>, E>) where F: FnMut(Bytes) -> Result<Option<M>, E>
        requires
            old(self)@.head <= pending(*old(src)).len(),
            forall|bytes: Bytes| call_requires(old(self).receiver(), (bytes,)),
        ensures
            ({
                let s = scan_eof(old(self)@, pending(*old(src)));
                &&& final(self)@ == (Framer { head: s.head, discarding: s.discarding, ..old(self)@ })
                &&& final(self).receiver() == old(self).receiver()
                &&& pending(*final(src)) == s.rest
                &&& *final(metrics) == old(metrics).with_overflows(s.overflows)
                &&& match s.frame {
                    Some(frame) => decoded_by(old(self).receiver(), frame, yielded),
                    None => yielded == Ok::<Option<Received<M>>, E>(None),
                }
            }),
            final(self)@.head <= pending(*final(src)).len(),
    {
        match self.decode(src, metrics) {
            Ok(Some(frame)) => Ok(Some(frame)),
            Ok(None) => {
                let len = src.len();
                if len == 0 {
                    Ok(None)
                } else {
                    let ghost left = pending(*src);
                    let rest = src.split_to(len).freeze();
                    self.read_head = 0;
                    assert(payload(rest) =~= left);
                    assert(pending(*src) =~= Seq::<u8>::empty());
                    deliver((self.receive)(rest))
                }
            },
            Err(err) => Err(err),
        }
    }
}

/// The watchdog's word that a session yielded nothing for the whole of its
/// keep-alive period.
#[derive(Debug, Clone, Copy)]
pub struct Elapsed;

/// An open TCP session: a stream of what its framer yields, under a
/// watchdog. It is counted when it is opened and when it is closed.
#[derive(Debug)]
pub struct TimeoutStream<S> {
    stream: S,
}

impl<S> TimeoutStream<S> {
    /// The stream under the watchdog.
    pub closed spec fn stream(&self) -> S {
        self.stream
    }

    /// Opens a session on `stream` and counts it.
    pub fn new(stream: S, metrics: &mut Metrics) -> (session: Self)
        ensures
            session.stream() == stream,
            *final(metrics) == old(metrics).accepted(),
    {
        increment(&mut metrics.tcp_conn_accept);
        TimeoutStream { stream }
    }

    /// The stream under the watchdog, to poll it.
    pub fn get_mut(&mut self) -> (stream: &mut S)
        ensures
            *stream == old(self).stream(),
            final(self).stream() == *final(stream),
    {
        &mut self.stream
    }

    /// What the session yields when polling its stream gave `polled`.
    ///
    /// When the watchdog's time ran out, that is counted and the session
    /// ends as if the peer had closed it. Anything else is passed on.
    pub fn poll_next<T>(
        &self,
        polled: Polled<Option<Result<T, Elapsed>>>,
        metrics: &mut Metrics,
    ) -> (yielded: Polled<Option<T>>)
        ensures
            match polled {
                Polled::Ready(Some(Err(_))) => yielded == Polled::<Option<T>>::Ready(None)
                    && *final(metrics) == old(metrics).timed_out(),
                Polled::Ready(Some(Ok(item))) => yielded == Polled::Ready(Some(item))
                    && *final(metrics) == *old(metrics),
                Polled::Ready(None) => yielded == Polled::<Option<T>>::Ready(None)
                    && *final(metrics) == *old(metrics),
                Polled::Pending => yielded == Polled::<Option<T>>::Pending
                    && *final(metrics) == *old(metrics),
            },
    {
        match polled {
            Polled::Ready(Some(Err(_))) => {
                increment(&mut metrics.tcp_conn_timeout);
                Polled::Ready(None)
            },
            Polled::Ready(Some(Ok(item))) => Polled::Ready(Some(item)),
            Polled::Ready(None) => Polled::Ready(None),
            Polled::Pending => Polled::Pending,
        }
    }

    /// Closes the session and counts that.
    pub fn close(self, metrics: &mut Metrics)
        ensures
            *final(metrics) == old(metrics).closed(),
    {
        increment(&mut metrics.tcp_conn_close);
    }
}

/// The state of a pool of sessions.
pub struct Pool {
    /// How many sessions the pool holds at most.
    pub max: nat,
    /// How many sessions it holds.
    pub open: nat,
    /// Whether the acceptor has closed for good.
    pub done: bool,
    /// Whether the pool is taking in connections before it polls its sessions.
    pub filling: bool,
}

/// What the driver of a pool does next.
#[derive(Debug, Clone, Copy)]
pub enum Action {
    /// Poll the acceptor and hand the answer to `Listen::accept`.
    Accept,
    /// Poll the sessions and hand the answer to `Listen::poll_next`.
    Poll,
}

/// What a poll of the sessions comes to.
#[derive(Debug)]
pub enum Turn<S, T, E> {
    /// Something for the consumer. The session it came from goes back into
    /// the pool if it is given here; if not, it was closed.
    Yield(Result<T, E>, Option<TimeoutStream<S>>),
    /// A session ended without a word. Go round again.
    Continue,
    /// Nothing is ready.
    Pending,
    /// The acceptor has closed and no session is left: the receiver ends.
    Done,
}

/// Merges many sessions into one receiver, with a cap on how many are open
/// at once.
pub struct Listen {
    max: usize,
    open: usize,
    done: bool,
    filling: bool,
}

impl View for Listen {
    type V = Pool;

    closed spec fn view(&self) -> Pool {
        Pool {
            max: self.max as nat,
            open: self.open as nat,
            done: self.done,
            filling: self.filling,
        }
    }
}

impl Pool {
    /// What the driver does next: the pool takes in connections while it is
    /// filling, has room, and the acceptor is there; else it polls its sessions.
    pub open spec fn action(self) -> Action {
        if self.filling && !self.done && self.open < self.max {
            Action::Accept
        } else {
            Action::Poll
        }
    }
}

impl Listen {
    #[verifier::type_invariant]
    spec fn within_cap(self) -> bool {
        self.open <= self.max
    }

    /// Whether the counters of opened and closed sessions account for the
    /// sessions in the pool.
    pub open spec fn counted_by(&self, metrics: Metrics) -> bool {
        metrics.open_sessions() == self@.open
    }

    /// An empty pool for up to `max_connections` sessions.
    pub fn new(max_connections: usize) -> (listen: Listen)
        ensures
            listen@ == (Pool { max: max_connections as nat, open: 0, done: false, filling: true }),
    {
        Listen { max: max_connections, open: 0, done: false, filling: true }
    }

    /// How many sessions are open. Never more than the cap.
    pub fn len(&self) -> (open: usize)
        ensures
            open == self@.open,
            open <= self@.max,
    {
        proof {
            use_type_invariant(self);
        }
        self.open
    }

    /// What the driver does next.
    pub fn action(&self) -> (action: Action)
        ensures
            action == self@.action(),
    {
        if self.filling && !self.done && self.open < self.max {
            Action::Accept
        } else {
            Action::Poll
        }
    }

    /// Takes what polling the acceptor gave.
    ///
    /// A connection becomes a session in the pool, and is counted. A failed
    /// connection is passed over. When the acceptor has nothing, or has
    /// closed, the pool stops filling and turns to its sessions.
    pub fn accept<S, X>(
        &mut self,
        polled: Polled<Option<Result<S, X>>>,
        metrics: &mut Metrics,
    ) -> (session: Option<TimeoutStream<S>>)
        requires
            old(self)@.open < old(self)@.max,
        ensures
            match polled {
                Polled::Ready(Some(Ok(conn))) => {
                    &&& session matches Some(opened)
                    &&& opened.stream() == conn
                    &&& final(self)@ == (Pool { open: old(self)@.open + 1, ..old(self)@ })
                    &&& *final(metrics) == old(metrics).accepted()
                },
                Polled::Ready(Some(Err(_))) => {
                    &&& session is None
                    &&& final(self)@ == old(self)@
                    &&& *final(metrics) == *old(metrics)
                },
                Polled::Ready(None) => {
                    &&& session is None
                    &&& final(self)@ == (Pool { done: true, filling: false, ..old(self)@ })
                    &&& *final(metrics) == *old(metrics)
                },
                Polled::Pending => {
                    &&& session is None
                    &&& final(self)@ == (Pool { filling: false, ..old(self)@ })
                    &&& *final(metrics) == *old(metrics)
                },
            },
            final(self)@.open <= final(self)@.max,
            old(self).counted_by(*old(metrics)) ==> final(self).counted_by(*final(metrics)),
    {
        match polled {
            Polled::Ready(Some(Ok(conn))) => {
                let session = TimeoutStream::new(conn, metrics);
                self.open = self.open + 1;
                Some(session)
            },
            Polled::Ready(Some(Err(_))) => None,
            Polled::Ready(None) => {
                self.done = true;
                self.filling = false;
                None
            },
            Polled::Pending => {
                self.filling = false;
                None
            },
        }
    }

    /// Takes what polling the sessions gave.
    ///
    /// What a session yields goes to the consumer. The session stays in the
    /// pool after a value and is closed after a failure. A session that has
    /// ended is closed, and the pool goes round again to take in a
    /// connection in its place. When nothing is ready the receiver waits,
    /// unless the acceptor has closed and the pool is empty: then it ends.
    pub fn poll_next<S, T, E>(
        &mut self,
        polled: Polled<Option<(Option<Result<T, E>>, TimeoutStream<S>)>>,
        metrics: &mut Metrics,
    ) -> (turn: Turn<S, T, E>)
        requires
            polled is Ready && polled->Ready_0 is Some ==> old(self)@.open > 0,
        ensures
            match polled {
                Polled::Ready(Some((Some(Ok(item)), conn))) => {
                    &&& turn == Turn::<S, T, E>::Yield(Ok(item), Some(conn))
                    &&& final(self)@ == (Pool { filling: true, ..old(self)@ })
                    &&& *final(metrics) == *old(metrics)
                },
                Polled::Ready(Some((Some(Err(err)), conn))) => {
                    &&& turn == Turn::<S, T, E>::Yield(Err(err), None)
                    &&& final(self)@ == (Pool {
                        open: (old(self)@.open - 1) as nat,
                        filling: true,
                        ..old(self)@
                    })
                    &&& *final(metrics) == old(metrics).closed()
                },
                Polled::Ready(Some((None, conn))) => {
                    &&& turn == Turn::<S, T, E>::Continue
                    &&& final(self)@ == (Pool {
                        open: (old(self)@.open - 1) as nat,
                        filling: true,
                        ..old(self)@
                    })
                    &&& *final(metrics) == old(metrics).closed()
                },
                _ => {
                    &&& turn == if old(self)@.done && old(self)@.open == 0 {
                        Turn::<S, T, E>::Done
                    } else {
                        Turn::<S, T, E>::Pending
                    }
                    &&& final(self)@ == (Pool { filling: true, ..old(self)@ })
                    &&& *final(metrics) == *old(metrics)
                },
            },
            final(self)@.open <= final(self)@.max,
            old(self).counted_by(*old(metrics)) ==> final(self).counted_by(*final(metrics)),
    {
        proof {
            use_type_invariant(&*self);
        }
        self.filling = true;
        match polled {
            Polled::Ready(Some((Some(item), conn))) => match item {
                Ok(item) => Turn::Yield(Ok(item), Some(conn)),
                Err(err) => {
                    conn.close(metrics);
                    self.open = self.open - 1;
                    Turn::Yield(Err(err), None)
                },
            },
            Polled::Ready(Some((None, conn))) => {
                conn.close(metrics);
                self.open = self.open - 1;
                Turn::Continue
            },
            Polled::Ready(None) | Polled::Pending => {
                if self.done && self.open == 0 {
                    Turn::Done
                } else {
                    Turn::Pending
                }
            },
        }
    }
}

} // verus!
