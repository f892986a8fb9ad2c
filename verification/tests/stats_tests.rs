use mcast_probe::stats::{
    percent, percent_hundredths, ClientEvent, PeerAddress, Ratio, StatsAggregator,
};
use std::sync::{Arc, Mutex};

fn peer(n: u128) -> PeerAddress {
    PeerAddress { ip: 0xfe80_0000_0000_0000_0000_0000_0000_0000u128 + n }
}

#[test]
fn fresh_counters_are_zero() {
    let s = StatsAggregator::new();
    assert_eq!(s.total_sent(), 0);
    assert_eq!(s.total_received(), 0);
    assert_eq!(s.peer_count(), 0);
    let snap = s.snapshot();
    assert_eq!(snap.total_sent, 0);
    assert_eq!(snap.total_received, 0);
    assert!(snap.per_peer.is_empty());
}

#[test]
fn replies_are_counted_in_total_and_per_peer() {
    let mut s = StatsAggregator::new();
    assert!(s.record_sent());
    assert!(s.record_sent());
    assert!(s.record_reply(peer(1)));
    assert!(s.record_reply(peer(2)));
    assert!(s.record_reply(peer(1)));
    assert_eq!(s.total_sent(), 2);
    assert_eq!(s.total_received(), 3);
    assert_eq!(s.replies_of(peer(1)), 2);
    assert_eq!(s.replies_of(peer(2)), 1);
    assert_eq!(s.replies_of(peer(3)), 0);
    assert_eq!(s.peer_count(), 2);
}

#[test]
fn snapshot_lists_every_peer_once_and_adds_up() {
    let mut s = StatsAggregator::new();
    for i in 0..50u128 {
        for _ in 0..=(i % 4) {
            s.record_reply(peer(i));
        }
    }
    let snap = s.snapshot();
    assert_eq!(snap.per_peer.len(), 50);
    let sum: u64 = snap.per_peer.iter().map(|e| e.replies).sum();
    assert_eq!(sum, snap.total_received);
    assert_eq!(snap.total_received, s.total_received());
    let mut seen: Vec<u128> = snap.per_peer.iter().map(|e| e.peer.ip).collect();
    seen.sort();
    seen.dedup();
    assert_eq!(seen.len(), 50);
    for e in &snap.per_peer {
        assert_eq!(e.replies, s.replies_of(e.peer));
    }
}

#[test]
fn a_snapshot_is_a_copy() {
    let mut s = StatsAggregator::new();
    s.record_sent();
    s.record_reply(peer(1));
    let snap = s.snapshot();
    s.record_sent();
    s.record_reply(peer(1));
    assert_eq!(snap.total_sent, 1);
    assert_eq!(snap.total_received, 1);
    assert_eq!(snap.per_peer[0].replies, 1);
}

#[test]
fn apply_counts_only_what_happened() {
    let mut s = StatsAggregator::new();
    assert!(s.apply(ClientEvent::ProbeSent));
    assert!(s.apply(ClientEvent::ProbeFailed));
    assert!(s.apply(ClientEvent::Silence));
    assert!(s.apply(ClientEvent::Reply(peer(9))));
    assert_eq!(s.total_sent(), 1);
    assert_eq!(s.total_received(), 1);
    assert_eq!(s.replies_of(peer(9)), 1);
}

#[test]
fn success_rate_is_replies_per_hundred_probes() {
    assert_eq!(percent(3, 4), Ratio { numerator: 300, denominator: 4 });
    assert_eq!(percent(0, 0), Ratio { numerator: 0, denominator: 1 });
    assert_eq!(percent(5, 0), Ratio { numerator: 500, denominator: 1 });
    assert_eq!(
        percent(u64::MAX, 1),
        Ratio { numerator: u64::MAX as u128 * 100, denominator: 1 }
    );
    let r = percent(1, 3);
    let rate = r.numerator as f64 / r.denominator as f64;
    assert!((rate - 33.333333333333336).abs() < 1e-9);
}

#[test]
fn hundredths_round_down() {
    assert_eq!(percent_hundredths(3, 4), 7500);
    assert_eq!(percent_hundredths(1, 3), 3333);
    assert_eq!(percent_hundredths(2, 3), 6666);
    assert_eq!(percent_hundredths(5, 5), 10000);
    assert_eq!(percent_hundredths(7, 0), 70000);
    assert_eq!(percent_hundredths(u64::MAX, u64::MAX), 10000);
}

#[test]
fn snapshot_rates() {
    let mut s = StatsAggregator::new();
    for _ in 0..8 {
        s.record_sent();
    }
    for _ in 0..6 {
        s.record_reply(peer(1));
    }
    for _ in 0..2 {
        s.record_reply(peer(2));
    }
    let snap = s.snapshot();
    assert_eq!(snap.success_rate(), Ratio { numerator: 800, denominator: 8 });
    for e in snap.per_peer.iter() {
        let share = snap.peer_share(e);
        assert_eq!(share.denominator, 8);
        assert_eq!(share.numerator, e.replies as u128 * 100);
    }
}

#[test]
fn rate_before_anything_was_sent_divides_by_one() {
    let mut s = StatsAggregator::new();
    s.record_reply(peer(1));
    let snap = s.snapshot();
    assert_eq!(snap.success_rate(), Ratio { numerator: 100, denominator: 1 });
}

#[test]
fn hundred_receives_through_shared_handles_lose_no_update() {
    let shared = Arc::new(Mutex::new(StatsAggregator::new()));
    let receivers: Vec<Arc<Mutex<StatsAggregator>>> = (0..4).map(|_| Arc::clone(&shared)).collect();
    for i in 0..100u128 {
        let handle = &receivers[(i % 4) as usize];
        let mut guard = handle.lock().unwrap();
        assert!(guard.record_reply(peer(i % 7)));
    }
    let snap = shared.lock().unwrap().snapshot();
    assert_eq!(snap.total_received, 100);
    let sum: u64 = snap.per_peer.iter().map(|e| e.replies).sum();
    assert_eq!(sum, 100);
    assert_eq!(snap.per_peer.len(), 7);
}

#[test]
fn hundred_receives_in_any_order_lose_no_update() {
    let mut s = StatsAggregator::new();
    for i in 0..100u128 {
        let who = (i * 37) % 5;
        assert!(s.apply(ClientEvent::Reply(peer(who))));
    }
    let snap = s.snapshot();
    assert_eq!(snap.total_received, 100);
    assert_eq!(snap.per_peer.iter().map(|e| e.replies).sum::<u64>(), 100);
    for e in &snap.per_peer {
        assert_eq!(e.replies, 20);
    }
}
