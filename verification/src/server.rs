//! The server role: hear a probe, answer its sender.
//!
//! Receiving and sending are the caller's part. For every outcome of a
//! receive the loop decides here what happens next; for every datagram that
//! is one reply, addressed to the source the datagram came from.

use crate::endpoint::{
    receive_error, receive_error_spec, EndpointError, Received, ReceivedView, SourceAddress,
};
use crate::text::{decimal_bytes, push_all, push_decimal};
use vstd::prelude::*;

verus! {

/// How the payload of a reply is made.
#[derive(Debug)]
pub enum ReplyPolicy {
    /// Always the same bytes.
    Fixed(Vec<u8>),
    /// The given prefix, then the probe as it was heard.
    Echo(Vec<u8>),
    /// The given prefix, then the number of this reply in decimal, counted
    /// from one.
    Numbered(Vec<u8>),
}

/// [`ReplyPolicy`] as plain sequences.
pub enum ReplyPolicyView {
    Fixed(Seq<u8>),
    Echo(Seq<u8>),
    Numbered(Seq<u8>),
}

impl View for ReplyPolicy {
    type V = ReplyPolicyView;

    open spec fn view(&self) -> ReplyPolicyView {
        match self {
            ReplyPolicy::Fixed(b) => ReplyPolicyView::Fixed(b@),
            ReplyPolicy::Echo(b) => ReplyPolicyView::Echo(b@),
            ReplyPolicy::Numbered(b) => ReplyPolicyView::Numbered(b@),
        }
    }
}

/// Whether a reply may be handed to a worker or has to be sent in place.
#[derive(Clone, Copy, Debug, PartialEq, Eq, Structural)]
pub enum Dispatch {
    /// Hand the reply to an independent unit of work and listen on.
    Detached,
    /// The bound on replies in flight is reached: send before listening on.
    Inline,
}

/// What the server does after one receive.
#[derive(Debug)]
pub enum ServerAction {
    /// Send `payload` to `destination`, as unicast.
    Reply { destination: SourceAddress, payload: Vec<u8>, dispatch: Dispatch },
    /// Nothing arrived in time: listen on.
    Wait,
    /// The receive failed: note it and listen on.
    LogFailure,
}

/// [`ServerAction`] as plain sequences.
pub enum ServerActionView {
    Reply { destination: SourceAddress, payload: Seq<u8>, dispatch: Dispatch },
    Wait,
    LogFailure,
}

impl View for ServerAction {
    type V = ServerActionView;

    open spec fn view(&self) -> ServerActionView {
        match self {
            ServerAction::Reply { destination, payload, dispatch } => ServerActionView::Reply {
                destination: *destination,
                payload: payload@,
                dispatch: *dispatch,
            },
            ServerAction::Wait => ServerActionView::Wait,
            ServerAction::LogFailure => ServerActionView::LogFailure,
        }
    }
}

/// The two states of the server loop.
#[derive(Clone, Copy, Debug, PartialEq, Eq, Structural)]
pub enum Phase {
    /// No reply is in flight.
    Listening,
    /// At least one detached reply has not been reported done.
    Replying,
}

/// The payload of reply number `number` to `probe`.
pub open spec fn reply_payload_spec(policy: ReplyPolicyView, probe: Seq<u8>, number: nat) -> Seq<u8> {
    match policy {
        ReplyPolicyView::Fixed(b) => b,
        ReplyPolicyView::Echo(prefix) => prefix + probe,
        ReplyPolicyView::Numbered(prefix) => prefix + decimal_bytes(number),
    }
}

/// Builds the payload of reply number `number` to `probe`.
pub fn reply_payload(policy: &ReplyPolicy, probe: &[u8], number: u64) -> (payload: Vec<u8>)
    ensures
        payload@ == reply_payload_spec(policy@, probe@, number as nat),
{
    let mut out: Vec<u8> = Vec::new();
    match policy {
        ReplyPolicy::Fixed(b) => {
            push_all(&mut out, b.as_slice());
        },
        ReplyPolicy::Echo(prefix) => {
            push_all(&mut out, prefix.as_slice());
            push_all(&mut out, probe);
        },
        ReplyPolicy::Numbered(prefix) => {
            push_all(&mut out, prefix.as_slice());
            push_decimal(&mut out, number);
        },
    }
    assert(out@ =~= reply_payload_spec(policy@, probe@, number as nat));
    out
}

/// The counters of the server loop, as mathematical values.
pub struct ServerModel {
    /// Replies attempted so far.
    pub attempted: nat,
    /// Detached replies not yet reported done.
    pub in_flight: nat,
    /// Most detached replies allowed in flight at once.
    pub limit: nat,
}

impl ServerModel {
    /// The number of the next reply: one more than the replies attempted,
    /// until the count stands at its largest value and stays there.
    pub open spec fn next_number(self) -> nat {
        if self.attempted < u64::MAX {
            self.attempted + 1
        } else {
            self.attempted
        }
    }

    /// The state the loop is in.
    pub open spec fn phase(self) -> Phase {
        if self.in_flight == 0 {
            Phase::Listening
        } else {
            Phase::Replying
        }
    }

    /// What the loop does after `event`.
    pub open spec fn action(self, policy: ReplyPolicyView, event: ReceivedView) -> ServerActionView {
        match event {
            ReceivedView::Datagram { payload, source } => ServerActionView::Reply {
                destination: source,
                payload: reply_payload_spec(policy, payload, self.next_number()),
                dispatch: if self.in_flight < self.limit {
                    Dispatch::Detached
                } else {
                    Dispatch::Inline
                },
            },
            ReceivedView::Failed(f) => if receive_error_spec(f) == EndpointError::Timeout {
                ServerActionView::Wait
            } else {
                ServerActionView::LogFailure
            },
        }
    }

    /// The counters after `event`.
    pub open spec fn after(self, event: ReceivedView) -> ServerModel {
        match event {
            ReceivedView::Datagram { .. } => ServerModel {
                attempted: self.next_number(),
                in_flight: if self.in_flight < self.limit {
                    self.in_flight + 1
                } else {
                    self.in_flight
                },
                limit: self.limit,
            },
            ReceivedView::Failed(_) => self,
        }
    }

    /// The counters after every event of `events`, in order.
    pub open spec fn after_all(self, events: Seq<ReceivedView>) -> ServerModel
        decreases events.len(),
    {
        if events.len() == 0 {
            self
        } else {
            self.after_all(events.drop_last()).after(events.last())
        }
    }
}

/// The actions the loop takes on `events`, one per event, starting from
/// `start`.
pub open spec fn actions_on(
    start: ServerModel,
    policy: ReplyPolicyView,
    events: Seq<ReceivedView>,
) -> Seq<ServerActionView>
    decreases events.len(),
{
    if events.len() == 0 {
        Seq::empty()
    } else {
        actions_on(start, policy, events.drop_last()).push(
            start.after_all(events.drop_last()).action(policy, events.last()),
        )
    }
}

/// The sources of the datagrams among `events`, in order.
pub open spec fn datagram_sources(events: Seq<ReceivedView>) -> Seq<SourceAddress>
    decreases events.len(),
{
    if events.len() == 0 {
        Seq::empty()
    } else {
        match events.last() {
            ReceivedView::Datagram { source, .. } => datagram_sources(events.drop_last()).push(source),
            ReceivedView::Failed(_) => datagram_sources(events.drop_last()),
        }
    }
}

/// The destinations of the replies among `actions`, in order.
pub open spec fn reply_destinations(actions: Seq<ServerActionView>) -> Seq<SourceAddress>
    decreases actions.len(),
{
    if actions.len() == 0 {
        Seq::empty()
    } else {
        match actions.last() {
            ServerActionView::Reply { destination, .. } => reply_destinations(
                actions.drop_last(),
            ).push(destination),
            _ => reply_destinations(actions.drop_last()),
        }
    }
}

/// Over any run of receive outcomes the server attempts exactly one reply per
/// datagram heard, in the order heard, each addressed to the source of its
/// datagram. So no reply goes to the address `group` unless a datagram came
/// from it. The count of replies attempted grows by the number of datagrams,
/// as long as it has room to.
pub proof fn lemma_one_reply_per_datagram(
    start: ServerModel,
    policy: ReplyPolicyView,
    events: Seq<ReceivedView>,
    group: u128,
)
    ensures
        reply_destinations(actions_on(start, policy, events)) == datagram_sources(events),
        actions_on(start, policy, events).len() == events.len(),
        datagram_sources(events).len() <= events.len(),
        start.attempted + events.len() <= u64::MAX ==> start.after_all(events).attempted
            == start.attempted + datagram_sources(events).len(),
        (forall|i: int|
            0 <= i < datagram_sources(events).len() ==> (#[trigger] datagram_sources(events)[i]).ip
                != group) ==> (forall|j: int|
            0 <= j < reply_destinations(actions_on(start, policy, events)).len() ==> (
            #[trigger] reply_destinations(actions_on(start, policy, events))[j]).ip != group),
    decreases events.len(),
{
    if events.len() > 0 {
        lemma_one_reply_per_datagram(start, policy, events.drop_last(), group);
        let actions = actions_on(start, policy, events);
        assert(actions.drop_last() =~= actions_on(start, policy, events.drop_last()));
    }
}

/// The server loop between two receives.
pub struct ServerLoop {
    policy: ReplyPolicy,
    attempted: u64,
    in_flight: u64,
    limit: u64,
}

impl ServerLoop {
    /// The counters of the loop.
    pub closed spec fn model(&self) -> ServerModel {
        ServerModel {
            attempted: self.attempted as nat,
            in_flight: self.in_flight as nat,
            limit: self.limit as nat,
        }
    }

    /// How replies are made.
    pub closed spec fn policy(&self) -> ReplyPolicyView {
        self.policy@
    }

    /// No more replies are in flight than the limit allows.
    pub open spec fn wf(&self) -> bool {
        &&& self.model().in_flight <= self.model().limit <= u64::MAX
        &&& self.model().attempted <= u64::MAX
    }

    /// A loop that has heard nothing yet. At most `limit` detached replies
    /// are in flight at once; with a limit of zero every reply is sent in
    /// place.
    pub fn new(policy: ReplyPolicy, limit: u64) -> (s: Self)
        ensures
            s.wf(),
            s.policy() == policy@,
            s.model() == (ServerModel { attempted: 0, in_flight: 0, limit: limit as nat }),
    {
        ServerLoop { policy, attempted: 0, in_flight: 0, limit }
    }

    /// The state the loop is in.
    pub fn phase(&self) -> (p: Phase)
        ensures
            p == self.model().phase(),
    {
        if self.in_flight == 0 {
            Phase::Listening
        } else {
            Phase::Replying
        }
    }

    /// Replies attempted so far.
    pub fn attempted(&self) -> (n: u64)
        ensures
            n == self.model().attempted,
    {
        self.attempted
    }

    /// Detached replies not yet reported done.
    pub fn in_flight(&self) -> (n: u64)
        ensures
            n == self.model().in_flight,
    {
        self.in_flight
    }

    /// Decides what follows one receive. A datagram is answered to its
    /// source; a wait that ran out or a failed receive never stops the loop.
    pub fn on_receive(&mut self, event: &Received) -> (action: ServerAction)
        requires
            old(self).wf(),
        ensures
            final(self).wf(),
            final(self).policy() == old(self).policy(),
            action@ == old(self).model().action(old(self).policy(), event@),
            final(self).model() == old(self).model().after(event@),
    {
        match event {
            Received::Datagram { payload, source } => {
                let number: u64 = if self.attempted < u64::MAX {
                    self.attempted + 1
                } else {
                    self.attempted
                };
                let bytes = reply_payload(&self.policy, payload.as_slice(), number);
                let dispatch = if self.in_flight < self.limit {
                    self.in_flight = self.in_flight + 1;
                    Dispatch::Detached
                } else {
                    Dispatch::Inline
                };
                self.attempted = number;
                ServerAction::Reply { destination: *source, payload: bytes, dispatch }
            },
            Received::Failed(f) => {
                match receive_error(*f) {
                    EndpointError::Timeout => ServerAction::Wait,
                    _ => ServerAction::LogFailure,
                }
            },
        }
    }

    /// Notes that one detached reply is done, whether it was sent or not: a
    /// reply that could not be sent is lost, and the loop goes on. Returns
    /// `false`, and changes nothing, when no reply was in flight.
    pub fn on_reply_done(&mut self) -> (noted: bool)
        requires
            old(self).wf(),
        ensures
            final(self).wf(),
            final(self).policy() == old(self).policy(),
            noted == (old(self).model().in_flight > 0),
            final(self).model() == (ServerModel {
                in_flight: if noted {
                    (old(self).model().in_flight - 1) as nat
                } else {
                    0
                },
                ..old(self).model()
            }),
    {
        if self.in_flight > 0 {
            self.in_flight = self.in_flight - 1;
            true
        } else {
            false
        }
    }
}

} // verus!
