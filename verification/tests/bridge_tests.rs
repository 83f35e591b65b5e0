use tg_ws_proxy::proxy::bridge::{
    bridge_tcp_reencrypt, bridge_ws_reencrypt_halves, BridgeAction, BridgeEvent, SessionStats,
};
use tg_ws_proxy::proxy::crypto::aes_ctr_new;
use tg_ws_proxy::proxy::handshake::{generate_relay_init, CryptoContext, MsgSplitter};
use tg_ws_proxy::proxy::stats::Stats;
use tg_ws_proxy::proxy::utils::{PROTO_INTERMEDIATE_INT, ZERO_64};

fn context(ri: &[u8]) -> CryptoContext {
    let key = &ri[8..40];
    let iv = &ri[40..56];
    CryptoContext {
        clt_dec: aes_ctr_new(key, iv),
        clt_enc: aes_ctr_new(key, iv),
        tg_enc: aes_ctr_new(key, iv),
        tg_dec: aes_ctr_new(key, iv),
    }
}

struct Bridge {
    ctx: CryptoContext,
    splitter: Option<MsgSplitter>,
    session: SessionStats,
    totals: Stats,
}

impl Bridge {
    fn new(ri: &[u8]) -> Self {
        Bridge {
            ctx: context(ri),
            splitter: None,
            session: SessionStats::new(),
            totals: Stats::new(),
        }
    }

    fn step(&mut self, event: BridgeEvent) -> BridgeAction {
        bridge_ws_reencrypt_halves(
            &mut self.ctx,
            &mut self.splitter,
            &mut self.session,
            &mut self.totals,
            event,
        )
    }
}

#[test]
fn test_session_stats_defaults() {
    let s = SessionStats::new();
    assert_eq!(s.bytes_up, 0);
    assert_eq!(s.bytes_down, 0);
    assert_eq!(s.packets_up, 0);
    assert_eq!(s.packets_down, 0);
    let s: SessionStats = Default::default();
    assert_eq!(s.bytes_up, 0);
}

#[test]
fn test_bridge_ws_simple_flow() {
    let mut bridge = Bridge::new(&generate_relay_init(&[0xee, 0xee, 0xee, 0xee], 2));
    assert!(matches!(
        bridge.step(BridgeEvent::FromClient(b"hello".to_vec())),
        BridgeAction::ToRelay(_)
    ));
    assert!(matches!(bridge.step(BridgeEvent::RelayGone), BridgeAction::Close));
    let stats = bridge.session;
    assert!(stats.packets_up >= 1, "packets_up >= 1, got {}", stats.packets_up);
    assert_eq!(stats.packets_down, 0, "no WS responses");
}

#[test]
fn test_bridge_ws_end_to_end() {
    let mut bridge = Bridge::new(&generate_relay_init(&[0xee, 0xee, 0xee, 0xee], 2));
    match bridge.step(BridgeEvent::FromClient(b"PING".to_vec())) {
        BridgeAction::ToRelay(sent) => assert_eq!(sent, b"PING".to_vec()),
        other => panic!("{:?}", other),
    }
    match bridge.step(BridgeEvent::FromRelay(b"RESP".to_vec())) {
        BridgeAction::ToClient(sent) => assert_eq!(&sent[..], b"RESP"),
        other => panic!("{:?}", other),
    }
    assert!(matches!(bridge.step(BridgeEvent::RelayGone), BridgeAction::Close));
    let stats = bridge.session;
    assert!(stats.packets_up >= 1, "packets_up >= 1, got {}", stats.packets_up);
    assert_eq!(stats.packets_down, 1, "one WS responses");
    assert_eq!((bridge.totals.bytes_up, bridge.totals.bytes_down), (4, 4));
}

fn interleaved(bridges: usize, data: &[u8]) {
    let mut all: Vec<Bridge> = (0..bridges)
        .map(|_| Bridge::new(&generate_relay_init(&[0xee, 0xee, 0xee, 0xee], 2)))
        .collect();
    for bridge in all.iter_mut() {
        match bridge.step(BridgeEvent::FromClient(data.to_vec())) {
            BridgeAction::ToRelay(sent) => assert_eq!(sent, data.to_vec()),
            other => panic!("{:?}", other),
        }
    }
    for bridge in all.iter_mut() {
        match bridge.step(BridgeEvent::FromRelay(b"ok".to_vec())) {
            BridgeAction::ToClient(sent) => assert_eq!(&sent[..], b"ok"),
            other => panic!("{:?}", other),
        }
        assert!(matches!(bridge.step(BridgeEvent::RelayGone), BridgeAction::Close));
    }
}

#[test]
fn test_concurrent_ws_bridges() {
    interleaved(5, b"data");
}

#[test]
fn test_stress_20_concurrent_bridges() {
    interleaved(20, b"x");
}

#[test]
fn a_splitter_sends_one_message_for_each_packet() {
    let ri: Vec<u8> = (0..64u8).collect();
    let mut bridge = Bridge::new(&ri);
    // The client's cipher differs from the relay's, which starts behind its handshake.
    bridge.ctx.clt_dec = aes_ctr_new(&[1; 32], &[2; 16]);
    bridge.ctx.tg_enc.apply_keystream(&mut ZERO_64.to_vec());
    bridge.splitter = Some(MsgSplitter::new(&ri, PROTO_INTERMEDIATE_INT));

    let mut plain: Vec<u8> = Vec::new();
    for len in [3u32, 5] {
        plain.extend_from_slice(&len.to_le_bytes());
        plain.extend_from_slice(&vec![len as u8; len as usize]);
    }
    plain.extend_from_slice(&[9, 0, 0]);
    let mut sent = plain.clone();
    aes_ctr_new(&[1; 32], &[2; 16]).apply_keystream(&mut sent);

    let parts = match bridge.step(BridgeEvent::FromClient(sent)) {
        BridgeAction::ToRelayInParts(parts) => parts,
        other => panic!("{:?}", other),
    };
    let lens: Vec<usize> = parts.iter().map(|p| p.len()).collect();
    assert_eq!(lens, vec![7, 9]);
    let mut relay = aes_ctr_new(&ri[8..40], &ri[40..56]);
    relay.apply_keystream(&mut ZERO_64.to_vec());
    let mut got = parts.concat();
    relay.apply_keystream(&mut got);
    assert_eq!(got, plain[..16]);
    assert_eq!((bridge.session.packets_up, bridge.session.bytes_up), (2, 19));

    // One more byte completes no packet: nothing to send, nothing to count but the byte.
    match bridge.step(BridgeEvent::FromClient(vec![0])) {
        BridgeAction::ToRelayInParts(parts) => assert!(parts.is_empty()),
        other => panic!("{:?}", other),
    }
    assert_eq!((bridge.session.packets_up, bridge.session.bytes_up), (2, 20));
}

#[test]
fn a_session_ends_when_either_side_does() {
    let ri: Vec<u8> = (0..64u8).collect();
    let ends = [
        BridgeEvent::FromClient(Vec::new()),
        BridgeEvent::ClientFailed,
        BridgeEvent::RelayGone,
        BridgeEvent::SendFailed,
    ];
    for event in ends {
        let mut bridge = Bridge::new(&ri);
        assert!(matches!(bridge.step(event), BridgeAction::Close));
        assert_eq!(bridge.session, SessionStats::new());
    }
    // An empty WebSocket message is handed on, and counts as a packet.
    let mut bridge = Bridge::new(&ri);
    assert!(matches!(
        bridge.step(BridgeEvent::FromRelay(Vec::new())),
        BridgeAction::ToClient(data) if data.is_empty()
    ));
    assert_eq!(bridge.session.packets_down, 1);
}

#[test]
fn over_tcp_no_bytes_mean_the_end() {
    let ri: Vec<u8> = (0..64u8).collect();
    let mut ctx = context(&ri);
    let mut session = SessionStats::new();
    let mut totals = Stats::new();
    let mut step = |event: BridgeEvent| {
        bridge_tcp_reencrypt(&mut ctx, &mut session, &mut totals, event)
    };
    assert!(matches!(
        step(BridgeEvent::FromClient(b"up".to_vec())),
        BridgeAction::ToRelay(d) if d == b"up"
    ));
    assert!(matches!(
        step(BridgeEvent::FromRelay(b"down".to_vec())),
        BridgeAction::ToClient(d) if d == b"down"
    ));
    assert!(matches!(step(BridgeEvent::FromRelay(Vec::new())), BridgeAction::Close));
    assert!(matches!(step(BridgeEvent::FromClient(Vec::new())), BridgeAction::Close));
    assert!(matches!(step(BridgeEvent::SendFailed), BridgeAction::Close));
    assert_eq!(
        session,
        SessionStats { bytes_up: 2, bytes_down: 4, packets_up: 1, packets_down: 1 }
    );
    assert_eq!((totals.bytes_up, totals.bytes_down), (2, 4));
}

#[test]
fn counters_wrap() {
    let mut bridge = Bridge::new(&(0..64u8).collect::<Vec<u8>>());
    bridge.session.bytes_up = u64::MAX;
    bridge.totals.bytes_up = u64::MAX - 1;
    bridge.step(BridgeEvent::FromClient(vec![1, 2, 3]));
    assert_eq!((bridge.session.bytes_up, bridge.totals.bytes_up), (2, 1));
    assert!(bridge.ctx.can_carry(1000));
}

#[test]
fn pieces_make_no_difference_to_the_other_side() {
    let ri: Vec<u8> = (0..64u8).collect();
    let data: Vec<u8> = (0..200u8).collect();
    let mut whole = context(&ri);
    whole.clt_dec = aes_ctr_new(&[4; 32], &[5; 16]);
    whole.tg_dec = aes_ctr_new(&[6; 32], &[7; 16]);
    let mut pieces = whole;
    let (up, down) = (whole.reencrypt_up(data.clone()), whole.reencrypt_down(data.clone()));
    let mut up_pieces: Vec<u8> = Vec::new();
    let mut down_pieces: Vec<u8> = Vec::new();
    for chunk in data.chunks(33) {
        up_pieces.extend(pieces.reencrypt_up(chunk.to_vec()));
        down_pieces.extend(pieces.reencrypt_down(chunk.to_vec()));
    }
    assert_eq!((up_pieces, down_pieces), (up, down));
}
