//! Counters of probes sent and replies heard, in total and per replying peer.
//!
//! The aggregator is plain owned data. Callers that share it between a sender
//! and a receiver put it behind a lock and hold the lock for one call only;
//! printing works on a [`StatsSnapshot`], a copy taken under the lock.

use std::collections::HashMap;
use vstd::prelude::*;
use vstd::std_specs::hash::{axiom_spec_hash_map_iter, spec_hash_map_iter};
use vstd::std_specs::iter::IteratorSpec;

verus! {

/// A replying node, identified by the source IPv6 address of its reply.
#[derive(Clone, Copy, Debug, PartialEq, Eq, Structural, Hash)]
pub struct PeerAddress {
    /// The 128 address bits, most significant first.
    pub ip: u128,
}

/// Sum of all reply counts held in a per-peer map.
pub open spec fn sum_of_counts(m: Map<u128, u64>) -> nat
    decreases m.dom().len(),
    when m.dom().finite()
{
    if m.dom().len() == 0 {
        0
    } else {
        let k = m.dom().choose();
        m[k] as nat + sum_of_counts(m.remove(k))
    }
}

/// The sum does not depend on which peer is taken out first.
pub proof fn lemma_sum_take_out(m: Map<u128, u64>, k: u128)
    requires
        m.dom().finite(),
        m.contains_key(k),
    ensures
        sum_of_counts(m) == m[k] as nat + sum_of_counts(m.remove(k)),
    decreases m.dom().len(),
{
    let c = m.dom().choose();
    if c != k {
        lemma_sum_take_out(m.remove(c), k);
        lemma_sum_take_out(m.remove(k), c);
        assert(m.remove(c).remove(k) =~= m.remove(k).remove(c));
    }
}

/// Setting one peer's count changes the sum by the difference.
pub proof fn lemma_sum_set_count(m: Map<u128, u64>, k: u128, v: u64)
    requires
        m.dom().finite(),
    ensures
        sum_of_counts(m.insert(k, v)) + (if m.contains_key(k) {
            m[k] as nat
        } else {
            0
        }) == sum_of_counts(m) + v as nat,
{
    let m2 = m.insert(k, v);
    lemma_sum_take_out(m2, k);
    assert(m2.remove(k) =~= m.remove(k));
    if m.contains_key(k) {
        lemma_sum_take_out(m, k);
    } else {
        assert(m.remove(k) =~= m);
    }
}

/// No single count exceeds the sum.
pub proof fn lemma_count_at_most_sum(m: Map<u128, u64>, k: u128)
    requires
        m.dom().finite(),
        m.contains_key(k),
    ensures
        m[k] as nat <= sum_of_counts(m),
{
    lemma_sum_take_out(m, k);
}

/// Sum of the reply counts of a list of per-peer entries.
pub open spec fn sum_of_entries(entries: Seq<PeerCount>) -> nat
    decreases entries.len(),
{
    if entries.len() == 0 {
        0
    } else {
        sum_of_entries(entries.drop_last()) + entries.last().replies as nat
    }
}

/// `entries` lists every peer of `m` once, each with its count.
pub open spec fn lists_peers(entries: Seq<PeerCount>, m: Map<u128, u64>) -> bool {
    &&& forall|i: int|
        0 <= i < entries.len() ==> m.contains_key(#[trigger] entries[i].peer.ip) && m[entries[i].peer.ip]
            == entries[i].replies
    &&& forall|i: int, j: int|
        0 <= i < j < entries.len() ==> #[trigger] entries[i].peer.ip != #[trigger] entries[j].peer.ip
    &&& forall|k: u128|
        m.contains_key(k) ==> exists|i: int| 0 <= i < entries.len() && #[trigger] entries[i].peer.ip == k
}

/// A complete list of a map's peers adds up to the map's sum.
pub proof fn lemma_listed_sum(entries: Seq<PeerCount>, m: Map<u128, u64>)
    requires
        m.dom().finite(),
        lists_peers(entries, m),
    ensures
        sum_of_entries(entries) == sum_of_counts(m),
        entries.len() == m.dom().len(),
    decreases entries.len(),
{
    if entries.len() == 0 {
        assert forall|k: u128| !m.contains_key(k) by {
            if m.contains_key(k) {
                let i = choose|i: int| 0 <= i < entries.len() && #[trigger] entries[i].peer.ip == k;
            }
        }
        assert(m.dom() =~= Set::<u128>::empty());
    } else {
        let last = entries.last();
        let rest = entries.drop_last();
        let m1 = m.remove(last.peer.ip);
        assert(m.contains_key(entries[entries.len() - 1].peer.ip));
        assert forall|k: u128| m1.contains_key(k) implies exists|i: int|
            0 <= i < rest.len() && #[trigger] rest[i].peer.ip == k by {
            let i = choose|i: int| 0 <= i < entries.len() && #[trigger] entries[i].peer.ip == k;
            assert(i < rest.len());
            assert(rest[i].peer.ip == k);
        }
        assert forall|i: int| 0 <= i < rest.len() implies m1.contains_key(
            #[trigger] rest[i].peer.ip,
        ) && m1[rest[i].peer.ip] == rest[i].replies by {
            assert(rest[i] == entries[i]);
            assert(entries[i].peer.ip != entries[entries.len() - 1].peer.ip);
        }
        assert forall|i: int, j: int| 0 <= i < j < rest.len() implies #[trigger] rest[i].peer.ip
            != #[trigger] rest[j].peer.ip by {
            assert(rest[i] == entries[i]);
            assert(rest[j] == entries[j]);
        }
        lemma_listed_sum(rest, m1);
        lemma_sum_take_out(m, last.peer.ip);
    }
}

/// One line of the per-peer breakdown.
#[derive(Clone, Copy, Debug, PartialEq, Eq, Structural)]
pub struct PeerCount {
    pub peer: PeerAddress,
    pub replies: u64,
}

/// An exact fraction, kept as two integers so that no rounding happens here.
#[derive(Clone, Copy, Debug, PartialEq, Eq, Structural)]
pub struct Ratio {
    pub numerator: u128,
    pub denominator: u64,
}

/// Replies per hundred probes: `count * 100` over `max(sent, 1)`.
pub open spec fn percent_of(count: u64, sent: u64) -> Ratio {
    Ratio {
        numerator: (count as nat * 100) as u128,
        denominator: if sent == 0 {
            1
        } else {
            sent
        },
    }
}

/// Computes [`percent_of`].
pub fn percent(count: u64, sent: u64) -> (r: Ratio)
    ensures
        r == percent_of(count, sent),
        r.denominator >= 1,
{
    let wide: u128 = count as u128;
    Ratio { numerator: wide * 100, denominator: if sent == 0 { 1 } else { sent } }
}

/// Replies per ten thousand probes, rounded down: a rate of `12.34` percent
/// is `1234`.
pub open spec fn hundredths_of(count: u64, sent: u64) -> nat {
    (count as nat * 10000) / (percent_of(count, sent).denominator as nat)
}

/// Computes [`hundredths_of`], for callers that print without fractions.
pub fn percent_hundredths(count: u64, sent: u64) -> (h: u128)
    ensures
        h == hundredths_of(count, sent),
{
    let wide: u128 = count as u128;
    let d: u128 = if sent == 0 { 1 } else { sent as u128 };
    (wide * 10000) / d
}

/// A copy of the counters, safe to read and print at leisure.
#[derive(Clone, Debug)]
pub struct StatsSnapshot {
    pub total_sent: u64,
    pub total_received: u64,
    /// One entry per peer heard from, in no particular order.
    pub per_peer: Vec<PeerCount>,
}

impl StatsSnapshot {
    /// Every entry names a different peer and the entries add up to the total.
    pub open spec fn wf(&self) -> bool {
        &&& self.total_received as nat == sum_of_entries(self.per_peer@)
        &&& forall|i: int, j: int|
            0 <= i < j < self.per_peer@.len() ==> #[trigger] self.per_peer@[i].peer.ip
                != #[trigger] self.per_peer@[j].peer.ip
    }

    /// Share of probes that drew any reply, as replies per hundred probes.
    pub fn success_rate(&self) -> (r: Ratio)
        ensures
            r == percent_of(self.total_received, self.total_sent),
    {
        percent(self.total_received, self.total_sent)
    }

    /// Share of all probes sent that the peer of `entry` answered. Several
    /// peers may answer one probe, so the shares may add up to more than a
    /// hundred.
    pub fn peer_share(&self, entry: &PeerCount) -> (r: Ratio)
        ensures
            r == percent_of(entry.replies, self.total_sent),
    {
        percent(entry.replies, self.total_sent)
    }
}

/// What can happen to a client that the counters take note of.
#[derive(Clone, Copy, Debug, PartialEq, Eq, Structural)]
pub enum ClientEvent {
    /// A probe went out.
    ProbeSent,
    /// A probe could not be sent.
    ProbeFailed,
    /// A reply arrived from the given peer.
    Reply(PeerAddress),
    /// A receive came back without a reply.
    Silence,
}

/// The counters as mathematical values.
pub struct Tally {
    pub sent: nat,
    pub received: nat,
    pub peers: Map<u128, u64>,
}

impl Tally {
    /// Nothing sent, nothing heard.
    pub open spec fn zero() -> Tally {
        Tally { sent: 0, received: 0, peers: Map::empty() }
    }

    /// Replies counted under the peer with address bits `ip`.
    pub open spec fn count_of(self, ip: u128) -> nat {
        if self.peers.contains_key(ip) {
            self.peers[ip] as nat
        } else {
            0
        }
    }

    /// The total of replies is the sum of the per-peer counts.
    pub open spec fn balanced(self) -> bool {
        self.peers.dom().finite() && self.received == sum_of_counts(self.peers)
    }

    /// The counters after one event: a probe that went out counts as sent, a
    /// reply counts in the total and under its peer, nothing else counts.
    pub open spec fn step(self, event: ClientEvent) -> Tally {
        match event {
            ClientEvent::ProbeSent => Tally { sent: self.sent + 1, ..self },
            ClientEvent::Reply(peer) => Tally {
                received: self.received + 1,
                peers: self.peers.insert(peer.ip, (self.count_of(peer.ip) + 1) as u64),
                ..self
            },
            _ => self,
        }
    }

    /// The counters after every event of `events`, in order.
    pub open spec fn after(self, events: Seq<ClientEvent>) -> Tally
        decreases events.len(),
    {
        if events.len() == 0 {
            self
        } else {
            self.after(events.drop_last()).step(events.last())
        }
    }
}

/// Number of probes that went out among `events`.
pub open spec fn probes_sent(events: Seq<ClientEvent>) -> nat
    decreases events.len(),
{
    if events.len() == 0 {
        0
    } else {
        probes_sent(events.drop_last()) + (if events.last() is ProbeSent {
            1nat
        } else {
            0nat
        })
    }
}

/// Number of replies among `events`.
pub open spec fn replies_heard(events: Seq<ClientEvent>) -> nat
    decreases events.len(),
{
    if events.len() == 0 {
        0
    } else {
        replies_heard(events.drop_last()) + (if events.last() is Reply {
            1nat
        } else {
            0nat
        })
    }
}

/// Number of replies from the peer with address bits `ip` among `events`.
pub open spec fn replies_heard_from(events: Seq<ClientEvent>, ip: u128) -> nat
    decreases events.len(),
{
    if events.len() == 0 {
        0
    } else {
        replies_heard_from(events.drop_last(), ip) + (if events.last() == ClientEvent::Reply(
            PeerAddress { ip },
        ) {
            1nat
        } else {
            0nat
        })
    }
}

/// No update is lost: whatever the order in which events reach the counters,
/// afterwards the total of probes has grown by the probes that went out, the
/// total of replies by the replies heard, every peer's count by the replies
/// heard from it, and the total of replies is still the sum of the per-peer
/// counts.
pub proof fn lemma_every_event_counted(start: Tally, events: Seq<ClientEvent>, ip: u128)
    requires
        start.balanced(),
        start.received + events.len() <= u64::MAX,
    ensures
        start.after(events).balanced(),
        start.after(events).sent == start.sent + probes_sent(events),
        start.after(events).received == start.received + replies_heard(events),
        start.after(events).count_of(ip) == start.count_of(ip) + replies_heard_from(events, ip),
        replies_heard(events) <= events.len(),
    decreases events.len(),
{
    if events.len() > 0 {
        let before = start.after(events.drop_last());
        lemma_every_event_counted(start, events.drop_last(), ip);
        match events.last() {
            ClientEvent::Reply(peer) => {
                if before.peers.contains_key(peer.ip) {
                    lemma_count_at_most_sum(before.peers, peer.ip);
                }
                lemma_sum_set_count(before.peers, peer.ip, (before.count_of(peer.ip) + 1) as u64);
            },
            _ => {},
        }
    }
}

/// Every reply answers a probe sent before it: at no point of `events` have
/// more replies been heard than probes have gone out.
pub open spec fn replies_answer_probes(events: Seq<ClientEvent>) -> bool {
    forall|n: int|
        0 <= n <= events.len() ==> replies_heard(#[trigger] events.take(n)) <= probes_sent(
            events.take(n),
        )
}

/// Where every reply answers an earlier probe, the counters never show more
/// replies than probes, at any point of the run.
pub proof fn lemma_replies_never_exceed_probes(events: Seq<ClientEvent>, n: int)
    requires
        replies_answer_probes(events),
        events.len() <= u64::MAX,
        0 <= n <= events.len(),
    ensures
        Tally::zero().after(events.take(n)).received <= Tally::zero().after(events.take(n)).sent,
{
    assert(Tally::zero().peers.dom() =~= Set::<u128>::empty());
    lemma_every_event_counted(Tally::zero(), events.take(n), 0);
}

/// The live counters.
pub struct StatsAggregator {
    total_sent: u64,
    total_received: u64,
    per_peer: HashMap<u128, u64>,
}

impl StatsAggregator {
    /// Probes sent so far.
    pub closed spec fn sent(&self) -> nat {
        self.total_sent as nat
    }

    /// Replies heard so far.
    pub closed spec fn received(&self) -> nat {
        self.total_received as nat
    }

    /// Reply count of every peer heard from, keyed by address bits.
    pub closed spec fn peers(&self) -> Map<u128, u64> {
        self.per_peer@
    }

    /// The counters as mathematical values.
    pub open spec fn tally(&self) -> Tally {
        Tally { sent: self.sent(), received: self.received(), peers: self.peers() }
    }

    /// Replies heard from `peer`; zero for a peer never heard from.
    pub open spec fn replies_from(&self, peer: PeerAddress) -> nat {
        if self.peers().contains_key(peer.ip) {
            self.peers()[peer.ip] as nat
        } else {
            0
        }
    }

    /// The total of replies is the sum of the per-peer counts, and a peer is
    /// listed only once it has replied.
    pub open spec fn wf(&self) -> bool {
        &&& self.peers().dom().finite()
        &&& self.received() == sum_of_counts(self.peers())
        &&& self.sent() <= u64::MAX
        &&& self.received() <= u64::MAX
        &&& forall|k: u128| self.peers().contains_key(k) ==> #[trigger] self.peers()[k] >= 1
    }

    /// Fresh counters: nothing sent, nothing heard.
    pub fn new() -> (s: Self)
        ensures
            s.wf(),
            s.sent() == 0,
            s.received() == 0,
            s.peers() == Map::<u128, u64>::empty(),
    {
        let s = StatsAggregator { total_sent: 0, total_received: 0, per_peer: HashMap::new() };
        assert(s.peers().dom() =~= Set::<u128>::empty());
        s
    }

    /// Counts one probe as sent. Returns `false`, and counts nothing, only
    /// when the counter already stands at its largest value.
    pub fn record_sent(&mut self) -> (counted: bool)
        requires
            old(self).wf(),
        ensures
            final(self).wf(),
            counted == (old(self).sent() < u64::MAX),
            final(self).sent() == old(self).sent() + (if counted {
                1nat
            } else {
                0nat
            }),
            final(self).received() == old(self).received(),
            final(self).peers() == old(self).peers(),
    {
        if self.total_sent < u64::MAX {
            self.total_sent = self.total_sent + 1;
            true
        } else {
            false
        }
    }

    /// Counts one reply from `peer`, in the total and under the peer. Returns
    /// `false`, and counts nothing, only when the total already stands at its
    /// largest value.
    pub fn record_reply(&mut self, peer: PeerAddress) -> (counted: bool)
        requires
            old(self).wf(),
        ensures
            final(self).wf(),
            counted == (old(self).received() < u64::MAX),
            final(self).sent() == old(self).sent(),
            counted ==> final(self).received() == old(self).received() + 1 && final(self).peers()
                == old(self).peers().insert(peer.ip, (old(self).replies_from(peer) + 1) as u64),
            counted ==> final(self).replies_from(peer) == old(self).replies_from(peer) + 1,
            !counted ==> final(self).received() == old(self).received() && final(self).peers()
                == old(self).peers(),
    {
        if self.total_received == u64::MAX {
            return false;
        }
        let before: u64 = match self.per_peer.get(&peer.ip) {
            Some(c) => *c,
            None => 0,
        };
        proof {
            if self.per_peer@.contains_key(peer.ip) {
                lemma_count_at_most_sum(self.per_peer@, peer.ip);
            }
            lemma_sum_set_count(self.per_peer@, peer.ip, (before + 1) as u64);
        }
        self.per_peer.insert(peer.ip, before + 1);
        self.total_received = self.total_received + 1;
        true
    }

    /// Takes note of one event. Returns `false`, and counts nothing, only
    /// when the counter that the event would raise stands at its largest
    /// value.
    pub fn apply(&mut self, event: ClientEvent) -> (counted: bool)
        requires
            old(self).wf(),
        ensures
            final(self).wf(),
            counted ==> final(self).tally() == old(self).tally().step(event),
            !counted ==> final(self).tally() == old(self).tally(),
            counted == match event {
                ClientEvent::ProbeSent => old(self).sent() < u64::MAX,
                ClientEvent::Reply(_) => old(self).received() < u64::MAX,
                _ => true,
            },
    {
        match event {
            ClientEvent::ProbeSent => self.record_sent(),
            ClientEvent::Reply(peer) => self.record_reply(peer),
            ClientEvent::ProbeFailed => true,
            ClientEvent::Silence => true,
        }
    }

    /// Probes sent so far.
    pub fn total_sent(&self) -> (n: u64)
        ensures
            n == self.sent(),
    {
        self.total_sent
    }

    /// Replies heard so far.
    pub fn total_received(&self) -> (n: u64)
        ensures
            n == self.received(),
    {
        self.total_received
    }

    /// Replies heard from `peer`.
    pub fn replies_of(&self, peer: PeerAddress) -> (n: u64)
        ensures
            n == self.replies_from(peer),
    {
        match self.per_peer.get(&peer.ip) {
            Some(c) => *c,
            None => 0,
        }
    }

    /// Number of distinct peers heard from.
    pub fn peer_count(&self) -> (n: usize)
        ensures
            n == self.peers().dom().len(),
    {
        self.per_peer.len()
    }

    /// Copies the counters. The per-peer entries come in no fixed order.
    pub fn snapshot(&self) -> (snap: StatsSnapshot)
        requires
            self.wf(),
        ensures
            snap.wf(),
            snap.total_sent == self.sent(),
            snap.total_received == self.received(),
            lists_peers(snap.per_peer@, self.peers()),
            snap.per_peer@.len() == self.peers().dom().len(),
    {
        let mut entries: Vec<PeerCount> = Vec::new();
        for pair in it: self.per_peer.iter()
            invariant
                it.seq() == spec_hash_map_iter(&self.per_peer).remaining(),
                it.seq().no_duplicates(),
                entries@.len() == it.index(),
                forall|i: int|
                    0 <= i < entries@.len() ==> (#[trigger] entries@[i]).peer.ip == *it.seq()[i].0
                        && entries@[i].replies == *it.seq()[i].1,
        {
            let (k, v) = pair;
            entries.push(PeerCount { peer: PeerAddress { ip: *k }, replies: *v });
        }
        proof {
            let all = spec_hash_map_iter(&self.per_peer).remaining();
            let m = self.per_peer@;
            let listed = entries@;
            axiom_spec_hash_map_iter(&self.per_peer);
            assert forall|i: int| 0 <= i < listed.len() implies m.contains_key(
                #[trigger] listed[i].peer.ip,
            ) && m[listed[i].peer.ip] == listed[i].replies by {
                assert(m.contains_key(*all[i].0));
            }
            assert forall|i: int, j: int| 0 <= i < j < listed.len() implies #[trigger] listed[i].peer.ip
                != #[trigger] listed[j].peer.ip by {
                assert(m.contains_key(*all[i].0));
                assert(m.contains_key(*all[j].0));
                if listed[i].peer.ip == listed[j].peer.ip {
                    assert(*all[i].1 == *all[j].1);
                    assert(all[i] == all[j]);
                }
            }
            assert forall|k: u128| m.contains_key(k) implies exists|i: int|
                0 <= i < listed.len() && #[trigger] listed[i].peer.ip == k by {
                assert(all.contains((&k, &m[k])));
                let i = choose|i: int| 0 <= i < all.len() && all[i] == (&k, &m[k]);
                assert(listed[i].peer.ip == k);
            }
            lemma_listed_sum(listed, m);
        }
        StatsSnapshot {
            total_sent: self.total_sent,
            total_received: self.total_received,
            per_peer: entries,
        }
    }
}

} // verus!
