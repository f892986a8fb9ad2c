use mcast_probe::client::{
    on_receive, on_send_result, probe_payload, ProbeFormat, ProbeSender, ReceiverAction,
    FAILURE_PAUSE_MS, IDLE_PAUSE_MS, REPORT_INTERVAL_MS,
};
use mcast_probe::endpoint::{send_result, EndpointError, IoFailure, Received, SourceAddress};
use mcast_probe::server::{ReplyPolicy, ServerAction, ServerLoop};
use mcast_probe::stats::{PeerAddress, StatsAggregator};

fn source(n: u16) -> SourceAddress {
    SourceAddress { ip: 0x2001_0db8_0000_0000_0000_0000_0000_0000u128 + n as u128, port: 12345, flowinfo: 0, scope_id: 0 }
}

#[test]
fn probe_payloads() {
    assert_eq!(probe_payload(b"ping", ProbeFormat::Plain, 9), b"ping".to_vec());
    assert_eq!(probe_payload(b"PING ", ProbeFormat::Numbered, 1), b"PING 1".to_vec());
    assert_eq!(probe_payload(b"PING ", ProbeFormat::Numbered, 0), b"PING 0".to_vec());
    assert_eq!(probe_payload(b"PING ", ProbeFormat::Numbered, 10), b"PING 10".to_vec());
    assert_eq!(probe_payload(b"PING ", ProbeFormat::Numbered, 12345678901234567890), b"PING 12345678901234567890".to_vec());
    assert_eq!(probe_payload(b"", ProbeFormat::Numbered, 407), b"407".to_vec());
    assert_eq!(probe_payload(b"PING:", ProbeFormat::Numbered, 3), b"PING:3".to_vec());
}

#[test]
fn sequence_numbers_rise_by_one_from_one() {
    let mut sender = ProbeSender::new(b"PING ".to_vec(), ProbeFormat::Numbered, 100, REPORT_INTERVAL_MS, 0);
    assert_eq!(sender.last_sequence(), 0);
    for n in 1..=20u64 {
        let probe = sender.next_probe().unwrap();
        assert_eq!(probe.sequence, n);
        assert_eq!(probe.payload, format!("PING {}", n).into_bytes());
        assert_eq!(sender.last_sequence(), n);
    }
}

#[test]
fn a_stopped_sender_sends_and_reports_no_more() {
    let mut sender = ProbeSender::new(b"ping".to_vec(), ProbeFormat::Plain, 1000, 5000, 0);
    assert!(sender.next_probe().is_some());
    assert!(!sender.is_stopped());
    sender.stop();
    assert!(sender.is_stopped());
    assert!(sender.next_probe().is_none());
    assert!(!sender.report_due(1_000_000));
    assert_eq!(sender.last_sequence(), 1);
}

#[test]
fn the_pause_is_the_interval_but_never_zero() {
    let pause = |ms| ProbeSender::new(Vec::new(), ProbeFormat::Plain, ms, 5000, 0).pause_ms();
    assert_eq!(pause(0), 1);
    assert_eq!(pause(1), 1);
    assert_eq!(pause(1000), 1000);
    assert_eq!(pause(u64::MAX), u64::MAX);
}

#[test]
fn reports_come_one_interval_after_the_last() {
    let mut sender = ProbeSender::new(Vec::new(), ProbeFormat::Plain, 100, 5000, 1000);
    assert!(!sender.report_due(1000));
    assert!(!sender.report_due(5999));
    assert!(sender.report_due(6000));
    assert!(!sender.report_due(6000));
    assert!(!sender.report_due(10999));
    assert!(sender.report_due(11250));
    assert!(!sender.report_due(16249));
    assert!(sender.report_due(16250));
}

#[test]
fn the_report_time_stays_at_the_end_of_the_clock() {
    let mut sender = ProbeSender::new(Vec::new(), ProbeFormat::Plain, 100, 5000, u64::MAX - 10);
    assert!(!sender.report_due(u64::MAX - 1));
    assert!(sender.report_due(u64::MAX));
    assert!(sender.report_due(u64::MAX));
}

#[test]
fn only_a_probe_that_went_out_counts_as_sent() {
    let mut stats = StatsAggregator::new();
    assert!(on_send_result(&mut stats, &Ok(4)));
    assert!(on_send_result(&mut stats, &Err(EndpointError::SendFailed)));
    assert!(on_send_result(&mut stats, &send_result(Some(0))));
    assert!(on_send_result(&mut stats, &send_result(None)));
    assert_eq!(stats.total_sent(), 2);
    assert_eq!(stats.total_received(), 0);
}

#[test]
fn every_datagram_counts_as_a_reply_from_its_source() {
    let mut stats = StatsAggregator::new();
    let action = on_receive(&mut stats, &Received::Datagram { payload: b"anything at all".to_vec(), source: source(1) });
    assert_eq!(action, ReceiverAction::Counted { peer: PeerAddress { ip: source(1).ip }, bytes: 15 });
    let action = on_receive(&mut stats, &Received::Datagram { payload: Vec::new(), source: source(1) });
    assert_eq!(action, ReceiverAction::Counted { peer: PeerAddress { ip: source(1).ip }, bytes: 0 });
    assert_eq!(stats.total_received(), 2);
    assert_eq!(stats.replies_of(PeerAddress { ip: source(1).ip }), 2);
}

#[test]
fn peers_are_told_apart_by_address_not_port() {
    let mut stats = StatsAggregator::new();
    let mut a = source(1);
    let mut b = source(1);
    a.port = 1000;
    b.port = 2000;
    b.scope_id = 3;
    on_receive(&mut stats, &Received::Datagram { payload: b"x".to_vec(), source: a });
    on_receive(&mut stats, &Received::Datagram { payload: b"x".to_vec(), source: b });
    assert_eq!(stats.peer_count(), 1);
    assert_eq!(a.peer(), b.peer());
}

#[test]
fn silence_changes_no_counter() {
    let mut stats = StatsAggregator::new();
    assert_eq!(on_receive(&mut stats, &Received::Failed(IoFailure::TimedOut)), ReceiverAction::Idle { pause_ms: IDLE_PAUSE_MS });
    assert_eq!(on_receive(&mut stats, &Received::Failed(IoFailure::WouldBlock)), ReceiverAction::Idle { pause_ms: 10 });
    assert_eq!(on_receive(&mut stats, &Received::Failed(IoFailure::Other)), ReceiverAction::LogFailure { pause_ms: FAILURE_PAUSE_MS });
    assert_eq!(FAILURE_PAUSE_MS, 100);
    assert_eq!(REPORT_INTERVAL_MS, 5000);
    assert_eq!(stats.total_received(), 0);
    assert_eq!(stats.total_sent(), 0);
    assert_eq!(stats.peer_count(), 0);
}

#[test]
fn five_probes_to_one_server_without_loss() {
    let server_address = source(77);
    let client_address = source(5);
    let mut server = ServerLoop::new(ReplyPolicy::Echo(b"ACK:".to_vec()), u64::MAX);
    let mut sender = ProbeSender::new(b"PING ".to_vec(), ProbeFormat::Numbered, 100, REPORT_INTERVAL_MS, 0);
    let mut stats = StatsAggregator::new();
    let mut now: u64 = 0;
    for _ in 0..5 {
        let probe = sender.next_probe().unwrap();
        assert!(on_send_result(&mut stats, &send_result(Some(probe.payload.len()))));
        let heard = Received::Datagram { payload: probe.payload.clone(), source: client_address };
        match server.on_receive(&heard) {
            ServerAction::Reply { destination, payload, .. } => {
                assert_eq!(destination, client_address);
                let mut expected = b"ACK:".to_vec();
                expected.extend_from_slice(&probe.payload);
                assert_eq!(payload, expected);
                let reply = Received::Datagram { payload, source: server_address };
                assert!(matches!(on_receive(&mut stats, &reply), ReceiverAction::Counted { .. }));
            }
            other => panic!("no reply: {:?}", other),
        }
        assert!(stats.total_received() <= stats.total_sent());
        assert!(!sender.report_due(now));
        now += sender.pause_ms();
    }
    sender.stop();
    let snap = stats.snapshot();
    assert_eq!(snap.total_sent, 5);
    assert_eq!(snap.total_received, 5);
    assert_eq!(snap.per_peer.len(), 1);
    assert_eq!(snap.per_peer[0].replies, snap.total_received);
    assert_eq!(snap.per_peer[0].peer, server_address.peer());
    assert_eq!(snap.success_rate().numerator, 500);
    assert_eq!(snap.success_rate().denominator, 5);
}

#[test]
fn five_probes_with_some_replies_lost() {
    let server_address = source(77);
    let mut sender = ProbeSender::new(b"PING ".to_vec(), ProbeFormat::Numbered, 100, REPORT_INTERVAL_MS, 0);
    let mut stats = StatsAggregator::new();
    for n in 0..5 {
        let probe = sender.next_probe().unwrap();
        on_send_result(&mut stats, &send_result(Some(probe.payload.len())));
        if n % 2 == 0 {
            on_receive(&mut stats, &Received::Datagram { payload: probe.payload, source: server_address });
        } else {
            on_receive(&mut stats, &Received::Failed(IoFailure::TimedOut));
        }
        assert!(stats.total_received() <= stats.total_sent());
    }
    let snap = stats.snapshot();
    assert_eq!(snap.total_sent, 5);
    assert_eq!(snap.total_received, 3);
    assert_eq!(snap.per_peer.len(), 1);
    assert_eq!(snap.per_peer[0].replies, 3);
}
