//! Server configuration and the event loop's rules.

use crate::buffer::payload;
use crate::metrics::{increment, Metrics};
use bytes::Bytes;
use vstd::prelude::*;
use vstd::string::*;

pub mod framing;
pub mod tcp;
pub mod udp;

verus! {

/// The transport a server listens on.
#[derive(Debug, Clone, Copy)]
pub enum Protocol {
    /// Datagrams.
    Udp,
    /// Connections.
    Tcp,
}

/// Where a server listens.
#[derive(Debug, Clone)]
pub struct Bind {
    /// The address, as `host:port`.
    pub addr: String,
    /// The transport.
    pub protocol: Protocol,
}

/// Server configuration.
#[derive(Debug, Clone)]
pub struct Config {
    /// The address to bind the server to.
    pub bind: Bind,
    /// How long a TCP connection may go without yielding anything before it
    /// is closed, in seconds.
    pub tcp_keep_alive_secs: u64,
    /// The largest TCP record that is accepted, in bytes. Larger ones are
    /// dropped.
    pub tcp_max_size_bytes: u64,
}

/// The failure to read a bind string. No string gives it: each one is read
/// as an address of some kind.
#[derive(Debug)]
pub struct BindError;

/// The prefix that names a transport in a bind string.
pub open spec fn scheme(protocol: Protocol) -> Seq<char> {
    match protocol {
        Protocol::Tcp => seq!['t', 'c', 'p', ':', '/', '/'],
        Protocol::Udp => seq!['u', 'd', 'p', ':', '/', '/'],
    }
}

/// The transport and address that a bind string stands for: what follows
/// `tcp://` or `udp://` on that transport, and anything else, whole, on UDP.
pub open spec fn bind_of(s: Seq<char>) -> (Protocol, Seq<char>) {
    if scheme(Protocol::Tcp).is_prefix_of(s) {
        (Protocol::Tcp, s.skip(6))
    } else if scheme(Protocol::Udp).is_prefix_of(s) {
        (Protocol::Udp, s.skip(6))
    } else {
        (Protocol::Udp, s)
    }
}

/// Whether `s` starts with the prefix that names `protocol`.
fn has_scheme(s: &str, protocol: Protocol) -> (has: bool)
    ensures
        has == scheme(protocol).is_prefix_of(s@),
{
    if s.unicode_len() < 6 {
        return false;
    }
    let first = match protocol {
        Protocol::Tcp => 't',
        Protocol::Udp => 'u',
    };
    let second = match protocol {
        Protocol::Tcp => 'c',
        Protocol::Udp => 'd',
    };
    let has = s.get_char(0) == first && s.get_char(1) == second && s.get_char(2) == 'p'
        && s.get_char(3) == ':' && s.get_char(4) == '/' && s.get_char(5) == '/';
    proof {
        let prefix = s@.subrange(0, 6);
        if has {
            assert(scheme(protocol) =~= prefix);
        } else {
            assert(scheme(protocol)[0] == first && scheme(protocol)[1] == second && scheme(
                protocol,
            )[2] == 'p' && scheme(protocol)[3] == ':' && scheme(protocol)[4] == '/' && scheme(
                protocol,
            )[5] == '/');
            assert(prefix[0] == s@[0] && prefix[1] == s@[1] && prefix[2] == s@[2] && prefix[3]
                == s@[3] && prefix[4] == s@[4] && prefix[5] == s@[5]);
        }
    }
    has
}

impl Bind {
    /// Reads a bind string: `tcp://` or `udp://` and an address, or an
    /// address alone, which is taken to be on UDP. Any string is read.
    pub fn from_str(s: &str) -> (parsed: Result<Bind, BindError>)
        ensures
            parsed matches Ok(bind) && (bind.protocol, bind.addr@) == bind_of(s@),
    {
        let protocol = if has_scheme(s, Protocol::Tcp) {
            Some(Protocol::Tcp)
        } else if has_scheme(s, Protocol::Udp) {
            Some(Protocol::Udp)
        } else {
            None
        };
        match protocol {
            Some(protocol) => Ok(
                Bind { addr: s.substring_char(6, s.unicode_len()).to_owned(), protocol },
            ),
            None => Ok(Bind { addr: s.to_owned(), protocol: Protocol::Udp }),
        }
    }
}

/// What a server receives on, with what its receiver needs to know.
#[derive(Debug, Clone, Copy)]
pub enum Receiver {
    /// Datagrams, each one a frame.
    Udp,
    /// Connections that carry delimited records.
    Tcp {
        /// How long a connection may go without yielding anything, in seconds.
        keep_alive_secs: u64,
        /// The largest record that is accepted, in bytes.
        max_size_bytes: usize,
    },
}

impl Config {
    /// The receiver that this configuration asks for. The size limit is cut
    /// to what an index can hold on this machine.
    pub fn receiver(&self) -> (receiver: Receiver)
        ensures
            receiver == match self.bind.protocol {
                Protocol::Udp => Receiver::Udp,
                Protocol::Tcp => Receiver::Tcp {
                    keep_alive_secs: self.tcp_keep_alive_secs,
                    max_size_bytes: self.tcp_max_size_bytes as usize,
                },
            },
    {
        match self.bind.protocol {
            Protocol::Udp => Receiver::Udp,
            Protocol::Tcp => Receiver::Tcp {
                keep_alive_secs: self.tcp_keep_alive_secs,
                max_size_bytes: self.tcp_max_size_bytes as usize,
            },
        }
    }
}

/// The address a server binds to when it is told no other.
pub open spec fn default_addr() -> Seq<char> {
    seq!['0', '.', '0', '.', '0', '.', '0', ':', '1', '2', '2', '0', '1']
}

impl Default for Config {
    /// UDP on `0.0.0.0:12201`, two minutes of keep-alive, records of up to 256 KiB.
    fn default() -> (config: Config)
        ensures
            config.bind.addr@ == default_addr(),
            config.bind.protocol == Protocol::Udp,
            config.tcp_keep_alive_secs == 120,
            config.tcp_max_size_bytes == 262144,
    {
        let addr = "0.0.0.0:12201";
        proof {
            reveal_strlit("0.0.0.0:12201");
            assert(addr@ =~= default_addr());
        }
        Config {
            bind: Bind { addr: addr.to_owned(), protocol: Protocol::Udp },
            tcp_keep_alive_secs: 2 * 60,
            tcp_max_size_bytes: 1024 * 256,
        }
    }
}

/// What a receiver hands to the event loop when nothing failed.
#[derive(Debug)]
pub enum Received<M> {
    /// The bytes were taken, but they do not make up a message yet.
    Incomplete,
    /// A whole message.
    Complete(M),
}

impl<M> Received<M> {
    /// What a decoder found in a frame, as the receiver hands it on: a
    /// message is complete, and no message yet counts as incomplete.
    pub open spec fn of(decoded: Option<M>) -> Received<M> {
        match decoded {
            Some(msg) => Received::Complete(msg),
            None => Received::Incomplete,
        }
    }
}

/// What a receiver yields for a decoder's answer: something is yielded for
/// every frame that was decoded, and a failure stays a failure.
pub open spec fn delivered<M, E>(decoded: Result<Option<M>, E>) -> Result<Option<Received<M>>, E> {
    match decoded {
        Ok(found) => Ok(Some(Received::of(found))),
        Err(err) => Err(err),
    }
}

/// Turns what a decoder found in a frame into what the receiver yields.
pub fn into_received<M>(decoded: Option<M>) -> (received: Option<Received<M>>)
    ensures
        received == Some(Received::of(decoded)),
{
    match decoded {
        Some(msg) => Some(Received::Complete(msg)),
        None => Some(Received::Incomplete),
    }
}

/// Turns a decoder's answer, failure included, into what the receiver yields.
pub fn deliver<M, E>(decoded: Result<Option<M>, E>) -> (yielded: Result<Option<Received<M>>, E>)
    ensures
        yielded == delivered(decoded),
{
    match decoded {
        Ok(found) => Ok(into_received(found)),
        Err(err) => Err(err),
    }
}

/// Whether `yielded` is what comes of handing a frame that holds `frame` to
/// the decoder `receive`.
pub open spec fn decoded_by<F, M, E>(
    receive: F,
    frame: Seq<u8>,
    yielded: Result<Option<Received<M>>, E>,
) -> bool where F: FnMut(Bytes) -> Result<Option<M>, E> {
    exists|bytes: Bytes, decoded: Result<Option<M>, E>|
        payload(bytes) == frame && #[trigger] call_ensures(receive, (bytes,), decoded) && yielded
            == delivered(decoded)
}

/// What polling a source gave: a value, or nothing yet.
#[derive(Debug)]
pub enum Polled<T> {
    /// The source had this.
    Ready(T),
    /// The source has nothing yet and will wake the one who asked.
    Pending,
}

/// What the event loop waits for.
#[derive(Debug)]
pub enum Event<M, E> {
    /// The receiver yielded something.
    Incoming(Result<Received<M>, E>),
    /// The server's handle was closed.
    Closed,
    /// The process was told to stop.
    Interrupted,
}

/// Why the event loop ends.
#[derive(Debug, Clone, Copy)]
pub enum Shutdown {
    /// The server's handle was closed.
    HandleClosed,
    /// The process was told to stop.
    Interrupted,
}

/// What the event loop did with an event.
#[derive(Debug)]
pub enum Outcome<E> {
    /// A message was received and the processor took it.
    Processed,
    /// A message was received and the processor failed on it.
    ProcessFailed(E),
    /// A part of a message was received; there is nothing to process yet.
    Waiting,
    /// Receiving failed.
    ReceiveFailed(E),
    /// The loop ends here.
    Stopped(Shutdown),
}

/// What becomes of a message once the processor has answered: a success and
/// a failure are each counted, and a failure is passed on to be reported.
pub open spec fn processed<E>(result: Result<(), E>, metrics: Metrics) -> (Outcome<E>, Metrics) {
    match result {
        Ok(()) => (Outcome::Processed, metrics.processed()),
        Err(err) => (Outcome::ProcessFailed(err), metrics.process_failed()),
    }
}

/// Counts the processor's answer to a message.
pub fn on_processed<E>(result: Result<(), E>, metrics: &mut Metrics) -> (outcome: Outcome<E>)
    ensures
        (outcome, *final(metrics)) == processed(result, *old(metrics)),
{
    match result {
        Ok(()) => {
            increment(&mut metrics.process_ok);
            Outcome::Processed
        },
        Err(err) => {
            increment(&mut metrics.process_err);
            Outcome::ProcessFailed(err)
        },
    }
}

/// The server's loop: it takes one event at a time and hands each complete
/// message to the processor.
pub struct EventLoop<P> {
    process: P,
}

impl<P> EventLoop<P> {
    /// The processor that messages are handed to.
    pub closed spec fn processor(&self) -> P {
        self.process
    }

    /// A loop around the processor `process`.
    pub fn new(process: P) -> (event_loop: Self)
        ensures
            event_loop.processor() == process,
    {
        EventLoop { process }
    }

    /// Handles one event.
    ///
    /// A complete message is counted and handed to the processor, whose
    /// answer is counted in turn. A part of a message changes nothing. A
    /// failure to receive is counted and passed on. None of these ends the
    /// loop: it ends when the handle is closed or the process is told to
    /// stop, and on nothing else.
    pub fn handle<M, E>(&mut self, event: Event<M, E>, metrics: &mut Metrics) -> (outcome: Outcome<
        E,
    >) where P: FnMut(M) -> Result<(), E>
        requires
            forall|msg: M| call_requires(old(self).processor(), (msg,)),
        ensures
            final(self).processor() == old(self).processor(),
            match event {
                Event::Incoming(Ok(Received::Complete(msg))) => exists|result: Result<(), E>|
                    #[trigger] call_ensures(old(self).processor(), (msg,), result)
                        && (outcome, *final(metrics)) == processed(result, old(metrics).received()),
                Event::Incoming(Ok(Received::Incomplete)) => outcome == Outcome::<E>::Waiting
                    && *final(metrics) == *old(metrics),
                Event::Incoming(Err(err)) => outcome == Outcome::ReceiveFailed(err)
                    && *final(metrics) == old(metrics).receive_failed(),
                Event::Closed => outcome == Outcome::<E>::Stopped(Shutdown::HandleClosed)
                    && *final(metrics) == *old(metrics),
                Event::Interrupted => outcome == Outcome::<E>::Stopped(Shutdown::Interrupted)
                    && *final(metrics) == *old(metrics),
            },
            outcome is Stopped <==> event is Closed || event is Interrupted,
    {
        match event {
            Event::Incoming(Ok(Received::Complete(msg))) => {
                increment(&mut metrics.receive_ok);
                assert(call_requires(self.processor(), (msg,)));
                on_processed((self.process)(msg), metrics)
            },
            Event::Incoming(Ok(Received::Incomplete)) => Outcome::Waiting,
            Event::Incoming(Err(err)) => {
                increment(&mut metrics.receive_err);
                Outcome::ReceiveFailed(err)
            },
            Event::Closed => Outcome::Stopped(Shutdown::HandleClosed),
            Event::Interrupted => Outcome::Stopped(Shutdown::Interrupted),
        }
    }
}

} // verus!
