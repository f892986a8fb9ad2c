//! The client role: send probes on a fixed period, count what comes back,
//! report now and then.
//!
//! Three activities run side by side and share nothing but the counters: a
//! sender that owns a [`ProbeSender`], a receiver that feeds every outcome of
//! a receive to [`on_receive`], and the reporting, which the sender's clock
//! drives through [`ProbeSender::report_due`]. Sending, receiving, sleeping
//! and printing are the caller's part.

use crate::endpoint::{receive_error, EndpointError, Received, ReceivedView};
use crate::stats::{ClientEvent, PeerAddress, StatsAggregator};
use crate::text::{decimal_bytes, push_all, push_decimal};
use vstd::prelude::*;

verus! {

/// Time between two reports, in milliseconds.
pub const REPORT_INTERVAL_MS: u64 = 5000;

/// Pause of the receiver after a wait that ran out, in milliseconds.
pub const IDLE_PAUSE_MS: u64 = 10;

/// Pause of the receiver after a receive that failed, in milliseconds.
pub const FAILURE_PAUSE_MS: u64 = 100;

/// How the payload of a probe is made.
#[derive(Clone, Copy, Debug, PartialEq, Eq, Structural)]
pub enum ProbeFormat {
    /// The configured message alone.
    Plain,
    /// The message, then the probe's sequence number in decimal.
    Numbered,
}

/// One probe, ready to be sent to the group.
#[derive(Debug)]
pub struct Probe {
    /// Counts the probes of this client from one; for the reader of a log,
    /// not for matching replies.
    pub sequence: u64,
    pub payload: Vec<u8>,
}

/// The payload of probe number `sequence`.
pub open spec fn probe_payload_spec(message: Seq<u8>, format: ProbeFormat, sequence: nat) -> Seq<u8> {
    match format {
        ProbeFormat::Plain => message,
        ProbeFormat::Numbered => message + decimal_bytes(sequence),
    }
}

/// Builds the payload of probe number `sequence`.
pub fn probe_payload(message: &[u8], format: ProbeFormat, sequence: u64) -> (payload: Vec<u8>)
    ensures
        payload@ == probe_payload_spec(message@, format, sequence as nat),
{
    let mut out: Vec<u8> = Vec::new();
    push_all(&mut out, message);
    match format {
        ProbeFormat::Plain => {},
        ProbeFormat::Numbered => {
            push_decimal(&mut out, sequence);
        },
    }
    assert(out@ =~= probe_payload_spec(message@, format, sequence as nat));
    out
}

/// The time to sleep between two probes: the configured interval, but never
/// less than a millisecond.
pub open spec fn pause_spec(interval_ms: u64) -> u64 {
    if interval_ms < 1 {
        1
    } else {
        interval_ms
    }
}

/// The time of the report after one made at `now_ms`; it stays at the end of
/// the clock's range rather than wrap.
pub open spec fn next_report_spec(now_ms: u64, every_ms: u64) -> u64 {
    if now_ms + every_ms > u64::MAX {
        u64::MAX
    } else {
        (now_ms + every_ms) as u64
    }
}

/// The sender's state between two probes.
pub struct ProbeSender {
    message: Vec<u8>,
    format: ProbeFormat,
    interval_ms: u64,
    report_every_ms: u64,
    sequence: u64,
    report_at_ms: u64,
    stopped: bool,
}

impl ProbeSender {
    /// The configured message.
    pub closed spec fn message(&self) -> Seq<u8> {
        self.message@
    }

    /// How payloads are made.
    pub closed spec fn format(&self) -> ProbeFormat {
        self.format
    }

    /// The configured interval between probes.
    pub closed spec fn interval(&self) -> u64 {
        self.interval_ms
    }

    /// The configured time between reports.
    pub closed spec fn report_every(&self) -> u64 {
        self.report_every_ms
    }

    /// Sequence number of the last probe handed out; zero before the first.
    pub closed spec fn sequence(&self) -> u64 {
        self.sequence
    }

    /// The time from which the next report is due.
    pub closed spec fn report_at(&self) -> u64 {
        self.report_at_ms
    }

    /// Whether the sender was told to stop.
    pub closed spec fn stopped(&self) -> bool {
        self.stopped
    }

    /// Two states agree in everything the configuration fixes.
    pub open spec fn same_config(&self, other: &ProbeSender) -> bool {
        &&& self.message() == other.message()
        &&& self.format() == other.format()
        &&& self.interval() == other.interval()
        &&& self.report_every() == other.report_every()
    }

    /// A sender that has sent nothing. The first report is due one report
    /// interval after `now_ms`.
    pub fn new(
        message: Vec<u8>,
        format: ProbeFormat,
        interval_ms: u64,
        report_every_ms: u64,
        now_ms: u64,
    ) -> (s: Self)
        ensures
            s.message() == message@,
            s.format() == format,
            s.interval() == interval_ms,
            s.report_every() == report_every_ms,
            s.sequence() == 0,
            !s.stopped(),
            s.report_at() == next_report_spec(now_ms, report_every_ms),
    {
        ProbeSender {
            message,
            format,
            interval_ms,
            report_every_ms,
            sequence: 0,
            report_at_ms: now_ms.saturating_add(report_every_ms),
            stopped: false,
        }
    }

    /// Hands out the next probe, with the next sequence number. Returns
    /// `None`, and changes nothing, once the sender is stopped or the
    /// sequence numbers are used up.
    pub fn next_probe(&mut self) -> (probe: Option<Probe>)
        ensures
            final(self).same_config(old(self)),
            final(self).stopped() == old(self).stopped(),
            final(self).report_at() == old(self).report_at(),
            probe is None <==> (old(self).stopped() || old(self).sequence() == u64::MAX),
            probe is None ==> final(self).sequence() == old(self).sequence(),
            probe matches Some(p) ==> p.sequence == old(self).sequence() + 1
                && final(self).sequence() == p.sequence
                && p.payload@ == probe_payload_spec(
                old(self).message(),
                old(self).format(),
                p.sequence as nat,
            ),
    {
        if self.stopped || self.sequence == u64::MAX {
            return None;
        }
        self.sequence = self.sequence + 1;
        let payload = probe_payload(self.message.as_slice(), self.format, self.sequence);
        Some(Probe { sequence: self.sequence, payload })
    }

    /// The time to sleep between two probes.
    pub fn pause_ms(&self) -> (ms: u64)
        ensures
            ms == pause_spec(self.interval()),
            ms >= 1,
    {
        if self.interval_ms < 1 {
            1
        } else {
            self.interval_ms
        }
    }

    /// Whether a report is due at `now_ms`. If it is, the next one becomes
    /// due one report interval after `now_ms`. A stopped sender reports no
    /// more.
    pub fn report_due(&mut self, now_ms: u64) -> (due: bool)
        ensures
            final(self).same_config(old(self)),
            final(self).stopped() == old(self).stopped(),
            final(self).sequence() == old(self).sequence(),
            due == (!old(self).stopped() && now_ms >= old(self).report_at()),
            final(self).report_at() == if due {
                next_report_spec(now_ms, old(self).report_every())
            } else {
                old(self).report_at()
            },
    {
        if !self.stopped && now_ms >= self.report_at_ms {
            self.report_at_ms = now_ms.saturating_add(self.report_every_ms);
            true
        } else {
            false
        }
    }

    /// Stops the sender: no probe and no periodic report follows. The caller
    /// prints one last snapshot.
    pub fn stop(&mut self)
        ensures
            final(self).same_config(old(self)),
            final(self).stopped(),
            final(self).sequence() == old(self).sequence(),
            final(self).report_at() == old(self).report_at(),
    {
        self.stopped = true;
    }

    /// Whether the sender was told to stop.
    pub fn is_stopped(&self) -> (b: bool)
        ensures
            b == self.stopped(),
    {
        self.stopped
    }

    /// Sequence number of the last probe handed out.
    pub fn last_sequence(&self) -> (n: u64)
        ensures
            n == self.sequence(),
    {
        self.sequence
    }
}

/// What the attempt to send a probe means to the counters.
pub open spec fn send_event_spec(outcome: Result<usize, EndpointError>) -> ClientEvent {
    if outcome is Ok {
        ClientEvent::ProbeSent
    } else {
        ClientEvent::ProbeFailed
    }
}

/// Takes note of the attempt to send one probe: it counts as sent only if
/// the send succeeded, and only once it has. Returns whether the counters
/// took the event (see [`StatsAggregator::apply`]).
pub fn on_send_result(stats: &mut StatsAggregator, outcome: &Result<usize, EndpointError>) -> (counted:
    bool)
    requires
        old(stats).wf(),
    ensures
        final(stats).wf(),
        counted == (outcome is Err || old(stats).sent() < u64::MAX),
        counted ==> final(stats).tally() == old(stats).tally().step(send_event_spec(*outcome)),
        !counted ==> final(stats).tally() == old(stats).tally(),
{
    match outcome {
        Ok(_) => stats.apply(ClientEvent::ProbeSent),
        Err(_) => stats.apply(ClientEvent::ProbeFailed),
    }
}

/// What the receiver does after one receive.
#[derive(Clone, Copy, Debug, PartialEq, Eq, Structural)]
pub enum ReceiverAction {
    /// A reply of `bytes` bytes from `peer` was counted. Receive on.
    Counted { peer: PeerAddress, bytes: usize },
    /// A reply arrived but the counters are full. Receive on.
    Uncounted { peer: PeerAddress },
    /// Nothing arrived in time: pause, then receive on.
    Idle { pause_ms: u64 },
    /// The receive failed: note it, pause, then receive on.
    LogFailure { pause_ms: u64 },
}

/// What one receive means to the counters: whatever arrives is a reply.
pub open spec fn receive_event_spec(outcome: ReceivedView) -> ClientEvent {
    match outcome {
        ReceivedView::Datagram { source, .. } => ClientEvent::Reply(source.peer_spec()),
        ReceivedView::Failed(_) => ClientEvent::Silence,
    }
}

/// What the receiver does after `outcome`, given whether the counters have
/// room for one more reply.
pub open spec fn receiver_action_spec(outcome: ReceivedView, room: bool) -> ReceiverAction {
    match outcome {
        ReceivedView::Datagram { payload, source } => if room {
            ReceiverAction::Counted { peer: source.peer_spec(), bytes: payload.len() as usize }
        } else {
            ReceiverAction::Uncounted { peer: source.peer_spec() }
        },
        ReceivedView::Failed(f) => if crate::endpoint::receive_error_spec(f)
            == EndpointError::Timeout {
            ReceiverAction::Idle { pause_ms: IDLE_PAUSE_MS }
        } else {
            ReceiverAction::LogFailure { pause_ms: FAILURE_PAUSE_MS }
        },
    }
}

/// Handles the outcome of one receive. Every datagram counts as a reply from
/// the address it came from, whatever it holds and whichever probe it may
/// answer. A wait that ran out and a failed receive change no counter and
/// never end the receiver.
pub fn on_receive(stats: &mut StatsAggregator, outcome: &Received) -> (action: ReceiverAction)
    requires
        old(stats).wf(),
    ensures
        final(stats).wf(),
        action == receiver_action_spec(outcome@, old(stats).received() < u64::MAX),
        action is Uncounted ==> final(stats).tally() == old(stats).tally(),
        !(action is Uncounted) ==> final(stats).tally() == old(stats).tally().step(
            receive_event_spec(outcome@),
        ),
{
    match outcome {
        Received::Datagram { payload, source } => {
            let peer = source.peer();
            if stats.apply(ClientEvent::Reply(peer)) {
                ReceiverAction::Counted { peer, bytes: payload.len() }
            } else {
                ReceiverAction::Uncounted { peer }
            }
        },
        Received::Failed(f) => {
            match receive_error(*f) {
                EndpointError::Timeout => ReceiverAction::Idle { pause_ms: IDLE_PAUSE_MS },
                _ => ReceiverAction::LogFailure { pause_ms: FAILURE_PAUSE_MS },
            }
        },
    }
}

} // verus!
