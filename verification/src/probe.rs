//! Active probing: does a given strategy get a TLS handshake past the DPI?
//!
//! A probe opens a TCP connection to the upstream IP, sends a ClientHello
//! carrying the (potentially blocked) SNI with the strategy under test, and
//! observes what comes back.  A genuine ServerHello (TLS handshake record,
//! type 0x16) means the flow survived; a reset or silence is the signature of
//! active DPI.  The socket work is done by the caller, which reports what
//! happened as a [`ProbeEvent`]; this module turns it into a [`ProbeResult`].

use vstd::prelude::*;

verus! {

/// The classified outcome of a single probe attempt.
#[derive(Clone, Copy, Debug, PartialEq, Eq, Structural)]
pub enum Verdict {
    /// Server replied with a TLS handshake record: the flow got through.
    Pass,
    /// Connection was reset, almost certainly by DPI after seeing the SNI.
    Reset,
    /// No data before timeout: silent drop or throttling.
    Timeout,
    /// The TCP connection could not be established (often an IP-level block).
    ConnectFailed,
    /// Got data, but not a TLS handshake (possible block page or hijack).
    Unexpected,
}

/// The human-readable label of each verdict.
pub open spec fn verdict_label(v: Verdict) -> Seq<char> {
    match v {
        Verdict::Pass => "PASS"@,
        Verdict::Reset => "reset (DPI)"@,
        Verdict::Timeout => "timeout"@,
        Verdict::ConnectFailed => "connect failed"@,
        Verdict::Unexpected => "unexpected reply"@,
    }
}

impl Verdict {
    pub fn is_pass(&self) -> (pass: bool)
        ensures
            pass == (*self == Verdict::Pass),
    {
        match self {
            Verdict::Pass => true,
            _ => false,
        }
    }

    pub fn label(&self) -> (text: &'static str)
        ensures
            text@ == verdict_label(*self),
    {
        match self {
            Verdict::Pass => "PASS",
            Verdict::Reset => "reset (DPI)",
            Verdict::Timeout => "timeout",
            Verdict::ConnectFailed => "connect failed",
            Verdict::Unexpected => "unexpected reply",
        }
    }
}

/// Result of probing one strategy.
#[derive(Debug)]
pub struct ProbeResult {
    pub strategy: String,
    pub verdict: Verdict,
    /// Time from the start of the connection attempt to the reply, in
    /// nanoseconds; present only for a passing probe.
    pub latency: Option<u128>,
}

/// How the first read after the ClientHello failed.
#[derive(Clone, Copy, Debug, PartialEq, Eq, Structural)]
pub enum ReadFailure {
    ConnectionReset,
    ConnectionAborted,
    WouldBlock,
    TimedOut,
    Other,
}

/// What the first read after the ClientHello returned.
#[derive(Clone, Copy, Debug, PartialEq, Eq, Structural)]
pub enum ReadOutcome {
    /// At least one byte arrived; `first_byte` is the first of them.
    Data { first_byte: u8 },
    /// The peer closed the connection cleanly without sending anything.
    Eof,
    /// The read failed.
    Failed(ReadFailure),
}

/// What happened during one probe attempt.
#[derive(Clone, Copy, Debug, PartialEq, Eq, Structural)]
pub enum ProbeEvent {
    /// `ip:port` did not resolve to any socket address.
    AddressUnresolved,
    /// The TCP connection could not be established within the timeout.
    ConnectFailed,
    /// Writing the ClientHello with the strategy failed.
    SendFailed,
    /// The ClientHello was sent and the first read returned this.
    Replied(ReadOutcome),
}

/// The verdict for what the first read after the ClientHello returned.
pub open spec fn read_verdict(outcome: ReadOutcome) -> Verdict {
    match outcome {
        ReadOutcome::Eof => Verdict::Timeout,
        ReadOutcome::Data { first_byte } => if first_byte == 0x16 {
            Verdict::Pass
        } else {
            Verdict::Unexpected
        },
        ReadOutcome::Failed(f) => match f {
            ReadFailure::ConnectionReset | ReadFailure::ConnectionAborted => Verdict::Reset,
            _ => Verdict::Timeout,
        },
    }
}

/// The verdict of a probe attempt: no address or no connection is a
/// connect failure, a failed write right after the hello is a reset
/// signature, and otherwise the reply decides.
pub open spec fn event_verdict(event: ProbeEvent) -> Verdict {
    match event {
        ProbeEvent::AddressUnresolved => Verdict::ConnectFailed,
        ProbeEvent::ConnectFailed => Verdict::ConnectFailed,
        ProbeEvent::SendFailed => Verdict::Reset,
        ProbeEvent::Replied(outcome) => read_verdict(outcome),
    }
}

/// Classify the first read after the ClientHello.
pub fn classify_read(outcome: ReadOutcome) -> (verdict: Verdict)
    ensures
        verdict == read_verdict(outcome),
{
    match outcome {
        // clean EOF without data ~ silent drop
        ReadOutcome::Eof => Verdict::Timeout,
        ReadOutcome::Data { first_byte } => {
            if first_byte == 0x16 {
                Verdict::Pass
            } else {
                Verdict::Unexpected
            }
        },
        ReadOutcome::Failed(f) => match f {
            ReadFailure::ConnectionReset => Verdict::Reset,
            ReadFailure::ConnectionAborted => Verdict::Reset,
            _ => Verdict::Timeout,
        },
    }
}

/// The result of a probe of `strategy` that failed with `verdict`: it
/// carries no latency.
pub fn fail(strategy: String, verdict: Verdict) -> (result: ProbeResult)
    ensures
        result.strategy == strategy,
        result.verdict == verdict,
        result.latency is None,
{
    ProbeResult { strategy, verdict, latency: None }
}

/// The result of one probe attempt of `strategy`, where `elapsed_nanos` is the
/// time from the start of the connection attempt to the end of the read.
/// Only a passing probe carries a latency.
pub fn conclude_probe(strategy: String, event: ProbeEvent, elapsed_nanos: u128) -> (result:
    ProbeResult)
    ensures
        result.strategy == strategy,
        result.verdict == event_verdict(event),
        result.latency == if event_verdict(event) == Verdict::Pass {
            Some(elapsed_nanos)
        } else {
            None
        },
{
    match event {
        ProbeEvent::AddressUnresolved => fail(strategy, Verdict::ConnectFailed),
        ProbeEvent::ConnectFailed => fail(strategy, Verdict::ConnectFailed),
        // A write error immediately after the hello is itself a reset signature.
        ProbeEvent::SendFailed => fail(strategy, Verdict::Reset),
        ProbeEvent::Replied(outcome) => {
            let verdict = classify_read(outcome);
            let latency = if verdict.is_pass() {
                Some(elapsed_nanos)
            } else {
                None
            };
            ProbeResult { strategy, verdict, latency }
        },
    }
}

/// A probe passes exactly when the hello was answered with data starting a
/// TLS handshake record (first byte 0x16, as a ServerHello is): a reply that
/// starts with any other byte, a TLS alert (0x15) among them, is never a
/// pass, and neither is a failed connection, a failed write, a silent close
/// or a failed read.
pub proof fn lemma_pass_needs_handshake_reply(event: ProbeEvent)
    ensures
        event_verdict(event) == Verdict::Pass <==> event == ProbeEvent::Replied(
            ReadOutcome::Data { first_byte: 0x16 },
        ),
        forall|first_byte: u8|
            first_byte != 0x16 ==> #[trigger] read_verdict(ReadOutcome::Data { first_byte })
                == Verdict::Unexpected,
{
}

} // verus!
