use mcast_probe::endpoint::{IoFailure, Received, SourceAddress};
use mcast_probe::server::{reply_payload, Dispatch, Phase, ReplyPolicy, ServerAction, ServerLoop};

const GROUP: u128 = 0xff12_000c_0909_3199_e8ba_6f6f_7d23_e6aeu128;

fn source(n: u16) -> SourceAddress {
    SourceAddress {
        ip: 0xfe80_0000_0000_0000_0000_0000_0000_0000u128 + n as u128,
        port: 40000 + n,
        flowinfo: 0,
        scope_id: 2,
    }
}

fn datagram(payload: &[u8], n: u16) -> Received {
    Received::Datagram { payload: payload.to_vec(), source: source(n) }
}

#[test]
fn reply_payloads() {
    assert_eq!(reply_payload(&ReplyPolicy::Fixed(b"ACK".to_vec()), b"PING 7", 3), b"ACK".to_vec());
    assert_eq!(
        reply_payload(&ReplyPolicy::Echo(b"ACK:".to_vec()), b"PING 7", 3),
        b"ACK:PING 7".to_vec()
    );
    assert_eq!(
        reply_payload(&ReplyPolicy::Numbered(b"RESPONSE:".to_vec()), b"PING 7", 3),
        b"RESPONSE:3".to_vec()
    );
    assert_eq!(
        reply_payload(&ReplyPolicy::Numbered(Vec::new()), b"", u64::MAX),
        b"18446744073709551615".to_vec()
    );
    assert_eq!(reply_payload(&ReplyPolicy::Echo(Vec::new()), b"", 1), Vec::<u8>::new());
}

#[test]
fn a_datagram_is_answered_to_its_source() {
    let mut server = ServerLoop::new(ReplyPolicy::Fixed(b"ping".to_vec()), u64::MAX);
    match server.on_receive(&datagram(b"hello", 1)) {
        ServerAction::Reply { destination, payload, dispatch } => {
            assert_eq!(destination, source(1));
            assert_ne!(destination.ip, GROUP);
            assert_eq!(payload, b"ping".to_vec());
            assert_eq!(dispatch, Dispatch::Detached);
        }
        other => panic!("no reply: {:?}", other),
    }
    assert_eq!(server.attempted(), 1);
}

#[test]
fn n_datagrams_from_n_sources_draw_n_replies_each_to_its_source() {
    let mut server = ServerLoop::new(ReplyPolicy::Echo(b"ACK:".to_vec()), u64::MAX);
    let mut destinations = Vec::new();
    for n in 0..25u16 {
        if n % 5 == 0 {
            assert!(matches!(
                server.on_receive(&Received::Failed(IoFailure::TimedOut)),
                ServerAction::Wait
            ));
        }
        match server.on_receive(&datagram(format!("PING {}", n).as_bytes(), n)) {
            ServerAction::Reply { destination, payload, .. } => {
                assert_eq!(payload, format!("ACK:PING {}", n).into_bytes());
                destinations.push(destination);
            }
            other => panic!("no reply: {:?}", other),
        }
    }
    assert_eq!(destinations.len(), 25);
    assert_eq!(server.attempted(), 25);
    for (n, d) in destinations.iter().enumerate() {
        assert_eq!(*d, source(n as u16));
        assert_ne!(d.ip, GROUP);
    }
}

#[test]
fn numbered_replies_count_from_one() {
    let mut server = ServerLoop::new(ReplyPolicy::Numbered(b"RESPONSE:".to_vec()), 0);
    for n in 1..=12u16 {
        match server.on_receive(&datagram(b"x", n)) {
            ServerAction::Reply { payload, .. } => {
                assert_eq!(payload, format!("RESPONSE:{}", n).into_bytes());
            }
            other => panic!("no reply: {:?}", other),
        }
    }
}

#[test]
fn a_failed_receive_never_stops_the_loop() {
    let mut server = ServerLoop::new(ReplyPolicy::Fixed(b"ACK".to_vec()), 4);
    assert!(matches!(
        server.on_receive(&Received::Failed(IoFailure::WouldBlock)),
        ServerAction::Wait
    ));
    assert!(matches!(
        server.on_receive(&Received::Failed(IoFailure::TimedOut)),
        ServerAction::Wait
    ));
    assert!(matches!(
        server.on_receive(&Received::Failed(IoFailure::Other)),
        ServerAction::LogFailure
    ));
    assert_eq!(server.attempted(), 0);
    assert_eq!(server.phase(), Phase::Listening);
    assert!(matches!(
        server.on_receive(&datagram(b"after", 3)),
        ServerAction::Reply { .. }
    ));
}

#[test]
fn replies_in_flight_are_bounded() {
    let mut server = ServerLoop::new(ReplyPolicy::Fixed(b"ACK".to_vec()), 2);
    assert_eq!(server.phase(), Phase::Listening);
    let mut modes = Vec::new();
    for n in 0..4u16 {
        if let ServerAction::Reply { dispatch, .. } = server.on_receive(&datagram(b"p", n)) {
            modes.push(dispatch);
        }
    }
    assert_eq!(
        modes,
        vec![Dispatch::Detached, Dispatch::Detached, Dispatch::Inline, Dispatch::Inline]
    );
    assert_eq!(server.in_flight(), 2);
    assert_eq!(server.phase(), Phase::Replying);
    assert!(server.on_reply_done());
    assert_eq!(server.in_flight(), 1);
    if let ServerAction::Reply { dispatch, .. } = server.on_receive(&datagram(b"p", 9)) {
        assert_eq!(dispatch, Dispatch::Detached);
    } else {
        panic!("no reply");
    }
    assert!(server.on_reply_done());
    assert!(server.on_reply_done());
    assert!(!server.on_reply_done());
    assert_eq!(server.phase(), Phase::Listening);
    assert_eq!(server.attempted(), 5);
}

#[test]
fn with_no_worker_every_reply_is_sent_in_place() {
    let mut server = ServerLoop::new(ReplyPolicy::Fixed(b"ACK".to_vec()), 0);
    for n in 0..3u16 {
        match server.on_receive(&datagram(b"p", n)) {
            ServerAction::Reply { dispatch, .. } => assert_eq!(dispatch, Dispatch::Inline),
            other => panic!("no reply: {:?}", other),
        }
        assert_eq!(server.phase(), Phase::Listening);
    }
}
