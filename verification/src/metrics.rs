//! The counters the server keeps about its own work.

use vstd::prelude::*;

verus! {

/// The server's counters. Each wraps around at `u64::MAX`.
#[derive(Clone, Copy, Debug, PartialEq, Eq, Structural)]
pub struct Metrics {
    /// Complete messages handed to the event loop.
    pub receive_ok: u64,
    /// Failures to receive or decode.
    pub receive_err: u64,
    /// Messages the processor accepted.
    pub process_ok: u64,
    /// Messages the processor failed on.
    pub process_err: u64,
    /// TCP sessions opened.
    pub tcp_conn_accept: u64,
    /// TCP sessions closed, for whatever reason.
    pub tcp_conn_close: u64,
    /// TCP sessions that ended because they made no progress in time.
    pub tcp_conn_timeout: u64,
    /// TCP records dropped for being over the size limit.
    pub tcp_msg_overflow: u64,
}

/// The value of a counter that stood at `n` after `more` increments.
pub open spec fn counted(n: u64, more: nat) -> u64 {
    ((n + more) % 0x1_0000_0000_0000_0000) as u64
}

/// Adds one to a counter, wrapping around at the top.
pub fn increment(counter: &mut u64)
    ensures
        *final(counter) == counted(*old(counter), 1),
{
    *counter = counter.wrapping_add(1);
}

impl Metrics {
    /// All counters at zero.
    pub open spec fn zero() -> Metrics {
        Metrics {
            receive_ok: 0,
            receive_err: 0,
            process_ok: 0,
            process_err: 0,
            tcp_conn_accept: 0,
            tcp_conn_close: 0,
            tcp_conn_timeout: 0,
            tcp_msg_overflow: 0,
        }
    }

    /// The counters after one more message was received whole.
    pub open spec fn received(self) -> Metrics {
        Metrics { receive_ok: counted(self.receive_ok, 1), ..self }
    }

    /// The counters after one more failure to receive.
    pub open spec fn receive_failed(self) -> Metrics {
        Metrics { receive_err: counted(self.receive_err, 1), ..self }
    }

    /// The counters after one more message was processed.
    pub open spec fn processed(self) -> Metrics {
        Metrics { process_ok: counted(self.process_ok, 1), ..self }
    }

    /// The counters after the processor failed on one more message.
    pub open spec fn process_failed(self) -> Metrics {
        Metrics { process_err: counted(self.process_err, 1), ..self }
    }

    /// The counters after one more TCP session was opened.
    pub open spec fn accepted(self) -> Metrics {
        Metrics { tcp_conn_accept: counted(self.tcp_conn_accept, 1), ..self }
    }

    /// The counters after one more TCP session was closed.
    pub open spec fn closed(self) -> Metrics {
        Metrics { tcp_conn_close: counted(self.tcp_conn_close, 1), ..self }
    }

    /// The counters after one more TCP session ran out of time.
    pub open spec fn timed_out(self) -> Metrics {
        Metrics { tcp_conn_timeout: counted(self.tcp_conn_timeout, 1), ..self }
    }

    /// The counters after `n` more records were dropped for their size.
    pub open spec fn with_overflows(self, n: nat) -> Metrics {
        Metrics { tcp_msg_overflow: counted(self.tcp_msg_overflow, n), ..self }
    }

    /// Fresh counters.
    pub fn new() -> (metrics: Metrics)
        ensures
            metrics == Metrics::zero(),
    {
        Metrics {
            receive_ok: 0,
            receive_err: 0,
            process_ok: 0,
            process_err: 0,
            tcp_conn_accept: 0,
            tcp_conn_close: 0,
            tcp_conn_timeout: 0,
            tcp_msg_overflow: 0,
        }
    }

    /// The number of TCP sessions that were opened and not yet closed, as far
    /// as the counters tell: their difference modulo 2^64.
    pub open spec fn spec_open_sessions(self) -> u64 {
        ((self.tcp_conn_accept - self.tcp_conn_close) % 0x1_0000_0000_0000_0000) as u64
    }

    /// The number of TCP sessions that were opened and not yet closed.
    #[verifier::when_used_as_spec(spec_open_sessions)]
    pub fn open_sessions(self) -> (open: u64)
        ensures
            open == self.spec_open_sessions(),
    {
        self.tcp_conn_accept.wrapping_sub(self.tcp_conn_close)
    }
}

/// The counters of opened and closed sessions keep track of the sessions that
/// are open: opening one adds one to their difference and closing one takes
/// one away, also where a counter wraps around.
pub proof fn lemma_open_sessions(metrics: Metrics)
    ensures
        metrics.open_sessions() < u64::MAX ==> metrics.accepted().open_sessions()
            == metrics.open_sessions() + 1,
        metrics.open_sessions() > 0 ==> metrics.closed().open_sessions() == metrics.open_sessions()
            - 1,
{
}

impl Default for Metrics {
    fn default() -> (metrics: Metrics)
        ensures
            metrics == Metrics::zero(),
    {
        Metrics::new()
    }
}

} // verus!
