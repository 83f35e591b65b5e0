use std::collections::HashMap;

use hmac::{Hmac, KeyInit, Mac};
use sha2::Digest;
use tg_ws_proxy::proxy::client::{
    open_session, session_with, DcHealth, DcKey, Dial, Session, DC_FAIL_COOLDOWN_NS,
};
use tg_ws_proxy::proxy::config::ProxyConfig;
use tg_ws_proxy::proxy::crypto::aes_ctr_new;
use tg_ws_proxy::proxy::fallback::{DialAction, DialEvent, Fallback};
use tg_ws_proxy::proxy::greeting::{Greeting, GreetingAction, GreetingEvent};
use tg_ws_proxy::proxy::handshake::try_handshake;
use tg_ws_proxy::proxy::stats::Stats;
use tg_ws_proxy::proxy::utils::{
    PROTO_ABRIDGED_INT, PROTO_INTERMEDIATE_INT, PROTO_PADDED_INTERMEDIATE_INT, PROTO_TAG_ABRIDGED,
    PROTO_TAG_INTERMEDIATE, PROTO_TAG_SECURE,
};

const SECRET: [u8; 16] = [3; 16];

fn texts(list: &[&str]) -> Vec<String> {
    list.iter().map(|s| s.to_string()).collect()
}

fn client_handshake(tag: &[u8; 4], index: i16) -> Vec<u8> {
    let start: Vec<u8> = (0..56u8).map(|i| i.wrapping_mul(13).wrapping_add(5)).collect();
    let mut plain = start.clone();
    plain.extend_from_slice(tag);
    plain.extend_from_slice(&index.to_le_bytes());
    plain.extend_from_slice(&[0, 0]);
    let mut joined = start[8..40].to_vec();
    joined.extend_from_slice(&SECRET);
    let key = sha2::Sha256::digest(&joined).to_vec();
    aes_ctr_new(&key, &start[40..56]).apply_keystream(&mut plain);
    let mut handshake = start;
    handshake.extend_from_slice(&plain[56..64]);
    handshake
}

#[test]
fn a_plain_client_sends_its_handshake_at_once() {
    let (mut greeting, action) = Greeting::start(false, "");
    assert!(matches!(action, GreetingAction::Read { len: 1, timed: true }));
    let action = greeting.step(&SECRET, GreetingEvent::Read(vec![0x16]));
    assert!(matches!(action, GreetingAction::Read { len: 63, timed: true }));
    match greeting.step(&SECRET, GreetingEvent::Read(vec![7; 63])) {
        GreetingAction::Handshake(bytes) => {
            assert_eq!((bytes.len(), bytes[0], bytes[63]), (64, 0x16, 7))
        }
        other => panic!("{:?}", other),
    }
}

#[test]
fn the_proxy_line_is_skipped_up_to_its_end() {
    let (mut greeting, mut action) = Greeting::start(true, "");
    for byte in b"PROXY TCP4 1.2.3.4 5.6.7.8 1 2\r\n" {
        assert!(matches!(action, GreetingAction::Read { len: 1, timed: false }));
        action = greeting.step(&SECRET, GreetingEvent::Read(vec![*byte]));
    }
    assert!(matches!(action, GreetingAction::Read { len: 1, timed: true }));
    let action = greeting.step(&SECRET, GreetingEvent::Read(vec![1]));
    assert!(matches!(action, GreetingAction::Read { len: 63, timed: true }));

    let (mut cut_off, _) = Greeting::start(true, "");
    let action = cut_off.step(&SECRET, GreetingEvent::ReadFailed(vec![0]));
    assert!(matches!(action, GreetingAction::End));
}

#[test]
fn behind_a_domain_other_clients_are_sent_there() {
    let (mut greeting, _) = Greeting::start(false, "mask.example");
    match greeting.step(&SECRET, GreetingEvent::Read(b"G".to_vec())) {
        GreetingAction::SendLast(answer) => assert_eq!(
            answer,
            "HTTP/1.1 301 Moved Permanently\r\nLocation: https://mask.example/\r\n\
             Content-Length: 0\r\nConnection: close\r\n\r\n"
        ),
        other => panic!("{:?}", other),
    }
}

// A hello whose record has the length that its header gives.
fn tls_hello(time: u32) -> Vec<u8> {
    let mut hello = vec![0x16, 0x03, 0x01, 0x02, 0x00, 0x01, 0x00, 0x01, 0xfc, 0x03, 0x03];
    hello.extend_from_slice(&[0; 32]);
    hello.push(0x20);
    hello.resize(5 + 0x0200, 0xcc);
    let mut mac = Hmac::<sha2::Sha256>::new_from_slice(&SECRET).unwrap();
    mac.update(&hello);
    let mut random = mac.finalize().into_bytes().to_vec();
    for (i, b) in time.to_le_bytes().iter().enumerate() {
        random[28 + i] ^= b;
    }
    hello[11..43].copy_from_slice(&random);
    hello
}

#[test]
fn a_tls_client_is_answered_and_sends_its_handshake_in_records() {
    let now = std::time::SystemTime::UNIX_EPOCH.elapsed().unwrap().as_secs() as u32;
    let hello = tls_hello(now);
    let (mut greeting, _) = Greeting::start(false, "mask.example");
    let action = greeting.step(&SECRET, GreetingEvent::Read(hello[..1].to_vec()));
    assert!(matches!(action, GreetingAction::Read { len: 4, timed: true }));
    let action = greeting.step(&SECRET, GreetingEvent::Read(hello[1..5].to_vec()));
    assert!(matches!(action, GreetingAction::Read { len: 0x0200, timed: true }));
    match greeting.step(&SECRET, GreetingEvent::Read(hello[5..].to_vec())) {
        GreetingAction::SendHello(answer) => {
            assert_eq!(answer[44..76], [0xcc; 32]);
            let mut zeroed = answer.clone();
            zeroed[11..43].copy_from_slice(&[0; 32]);
            let mut mac = Hmac::<sha2::Sha256>::new_from_slice(&SECRET).unwrap();
            mac.update(&hello[11..43]);
            mac.update(&zeroed);
            assert_eq!(answer[11..43].to_vec(), mac.finalize().into_bytes().to_vec());
        }
        other => panic!("{:?}", other),
    }
    let action = greeting.step(&SECRET, GreetingEvent::Sent);
    assert!(matches!(action, GreetingAction::ReadRecords { len: 64 }));
    match greeting.step(&SECRET, GreetingEvent::Read(vec![4; 64])) {
        GreetingAction::Handshake(bytes) => assert_eq!(bytes, vec![4; 64]),
        other => panic!("{:?}", other),
    }
}

fn passed_on(action: GreetingAction) -> (String, Vec<u8>) {
    match action {
        GreetingAction::PassOn { domain, seen } => (domain, seen),
        other => panic!("{:?}", other),
    }
}

#[test]
fn a_hello_that_is_not_verified_is_passed_on_to_the_masking_domain() {
    let mut hello = vec![0x16, 3, 1, 2, 0];
    hello.extend_from_slice(&[1; 0x0200]);
    let (mut greeting, _) = Greeting::start(false, "mask.example");
    greeting.step(&SECRET, GreetingEvent::Read(hello[..1].to_vec()));
    greeting.step(&SECRET, GreetingEvent::Read(hello[1..5].to_vec()));
    let action = greeting.step(&SECRET, GreetingEvent::Read(hello[5..].to_vec()));
    assert_eq!(passed_on(action), ("mask.example".to_string(), hello));
    assert!(matches!(greeting.step(&SECRET, GreetingEvent::Sent), GreetingAction::End));

    let (mut other, _) = Greeting::start(false, "mask.example");
    assert_eq!(
        passed_on(other.answer_hello(&SECRET, vec![7, 8, 9], None)),
        ("mask.example".to_string(), vec![7, 8, 9])
    );
    let (mut answered, _) = Greeting::start(false, "mask.example");
    assert!(matches!(
        answered.answer_hello(&SECRET, vec![7, 8, 9], Some(([1; 32], [2; 32], 0))),
        GreetingAction::SendHello(_)
    ));
}

#[test]
fn a_hello_out_of_time_is_passed_on_as_it_came() {
    let now = std::time::SystemTime::UNIX_EPOCH.elapsed().unwrap().as_secs() as u32;
    let hello = tls_hello(now - 1000);
    let (mut greeting, _) = Greeting::start(false, "mask.example");
    greeting.step(&SECRET, GreetingEvent::Read(hello[..1].to_vec()));
    greeting.step(&SECRET, GreetingEvent::Read(hello[1..5].to_vec()));
    let action = greeting.step(&SECRET, GreetingEvent::Read(hello[5..].to_vec()));
    assert_eq!(passed_on(action), ("mask.example".to_string(), hello));
}

#[test]
fn an_authentic_hello_is_answered_if_the_clocks_agree() {
    let time = 1_700_000_000u32;
    let hello = tls_hello(time);
    let mut forged = hello.clone();
    forged[20] ^= 1;
    let t = time as u64;
    for (hello, now, answered) in [
        (&hello, Some(t), true),
        (&hello, Some(t + 120), true),
        (&hello, Some(t - 120), true),
        (&hello, Some(t + 121), false),
        (&hello, Some(t - 121), false),
        (&hello, None, false),
        (&forged, Some(t), false),
    ] {
        let (mut greeting, _) = Greeting::start(false, "mask.example");
        greeting.step_at(&SECRET, GreetingEvent::Read(hello[..1].to_vec()), now);
        greeting.step_at(&SECRET, GreetingEvent::Read(hello[1..5].to_vec()), now);
        match greeting.step_at(&SECRET, GreetingEvent::Read(hello[5..].to_vec()), now) {
            GreetingAction::SendHello(answer) => {
                assert!(answered);
                assert_eq!(answer[44..76], [0xcc; 32]);
            }
            action => {
                assert!(!answered);
                assert_eq!(passed_on(action), ("mask.example".to_string(), hello.clone()));
            }
        }
    }
}

#[test]
fn a_client_that_takes_too_long_is_dropped() {
    for event in [GreetingEvent::TimedOut, GreetingEvent::SendFailed, GreetingEvent::Sent] {
        let (mut greeting, _) = Greeting::start(false, "");
        assert!(matches!(greeting.step(&SECRET, event), GreetingAction::End));
    }
    // A read that fails, but in time, leaves the buffer as it is.
    let (mut greeting, _) = Greeting::start(false, "");
    let action = greeting.step(&SECRET, GreetingEvent::ReadFailed(vec![0]));
    assert!(matches!(action, GreetingAction::Read { len: 63, timed: true }));
}

#[test]
fn a_session_asks_the_relay_for_what_the_client_asks_for() {
    let mut totals = Stats::new();
    for (tag, proto, index) in [
        (PROTO_TAG_ABRIDGED, PROTO_ABRIDGED_INT, 2i16),
        (PROTO_TAG_INTERMEDIATE, PROTO_INTERMEDIATE_INT, -203),
        (PROTO_TAG_SECURE, PROTO_PADDED_INTERMEDIATE_INT, i16::MIN),
    ] {
        let handshake = client_handshake(&tag, index);
        let session = open_session(&handshake, &SECRET, &mut totals).expect("accepted");
        assert_eq!(session.dc, index.unsigned_abs() as u32);
        assert_eq!(session.is_media, index < 0);
        assert_eq!(session.proto_int, proto);
        assert_eq!(session.relay_init.len(), 64);
        assert_eq!(session.ctx.tg_enc.key, session.relay_init[8..40]);
        let accepted = try_handshake(&handshake, &SECRET).unwrap();
        let again = session_with(accepted, &SECRET, session.relay_init.clone());
        assert_eq!(again.ctx.clt_enc.key, session.ctx.clt_enc.key);
        assert_eq!(again.ctx.tg_dec.iv, session.ctx.tg_dec.iv);
    }
    assert_eq!(totals.connections_bad, 0);
    assert!(open_session(&[0; 64], &SECRET, &mut totals).is_none());
    assert!(open_session(&[0; 3], &SECRET, &mut totals).is_none());
    assert_eq!(totals.connections_bad, 2);
}

const KEY: DcKey = DcKey { dc: 2, is_media: false };

#[test]
fn a_failure_is_remembered_for_half_a_minute() {
    let mut health = DcHealth::new();
    assert_eq!(health.timeout_secs(KEY, 0), 10);
    health.cool_down(KEY, 1000);
    assert_eq!(health.timeout_secs(KEY, 1000), 2);
    assert_eq!(health.timeout_secs(KEY, 999 + DC_FAIL_COOLDOWN_NS), 2);
    assert_eq!(health.timeout_secs(KEY, 1000 + DC_FAIL_COOLDOWN_NS), 10);
    assert_eq!(health.timeout_secs(DcKey { dc: 2, is_media: true }, 1000), 10);
    health.recover(KEY);
    assert_eq!(health.timeout_secs(KEY, 1000), 10);
    health.cool_down(KEY, u64::MAX);
    assert_eq!(health.timeout_secs(KEY, u64::MAX), 2);
}

#[test]
fn the_blacklist_is_shown() {
    let mut health: DcHealth = Default::default();
    assert_eq!(health.blacklist_text(), "none");
    health.add_to_blacklist(KEY);
    health.add_to_blacklist(DcKey { dc: 203, is_media: true });
    health.add_to_blacklist(KEY);
    assert_eq!(health.blacklist_text(), "DC2, DC203m");
    assert!(health.is_blacklisted(KEY));
    assert!(!health.is_blacklisted(DcKey { dc: 203, is_media: false }));
}

fn session(dc: u32, is_media: bool) -> Session {
    let mut session =
        open_session(&client_handshake(&PROTO_TAG_ABRIDGED, 2), &SECRET, &mut Stats::new())
            .unwrap();
    session.dc = dc;
    session.is_media = is_media;
    session
}

struct World {
    health: DcHealth,
    totals: Stats,
    redirects: HashMap<u32, String>,
    config: ProxyConfig,
    balanced: Vec<String>,
}

impl World {
    fn new() -> Self {
        let mut config = ProxyConfig::default();
        config.fallback_cfproxy = true;
        config.cfproxy_user_domains = Vec::new();
        config.cfproxy_worker_domains = Vec::new();
        World {
            health: DcHealth::new(),
            totals: Stats::new(),
            redirects: HashMap::from([(2u32, "7.7.7.7".to_string())]),
            config,
            balanced: Vec::new(),
        }
    }

    fn dial(&mut self, dc: u32, workers: &[&str], fronts: &[&str]) -> (Dial, DialAction) {
        self.config.cfproxy_worker_domains = texts(workers);
        self.balanced = texts(fronts);
        let (mut dial, action) =
            Dial::start(&session(dc, false), &self.redirects, &self.health, 5000);
        let action = self.turned(&mut dial, action);
        (dial, action)
    }

    fn step(&mut self, dial: &mut Dial, event: DialEvent) -> DialAction {
        let action = dial.step(event, &mut self.health, &mut self.totals);
        self.turned(dial, action)
    }

    fn turned(&self, dial: &mut Dial, action: DialAction) -> DialAction {
        match action {
            DialAction::BeginFallback => dial.begin_fallback(&self.config, &self.balanced),
            other => other,
        }
    }
}

fn shown(action: &DialAction) -> String {
    match action {
        DialAction::TakePooled => "pool".to_string(),
        DialAction::Connect { host, domain, path, timeout_secs } => {
            format!("ws {} {} {} {}", host, domain, path, timeout_secs)
        }
        DialAction::TakeWorker { domain, dst } => format!("worker {} {}", domain, dst),
        DialAction::ConnectTcp { host, timeout_secs } => format!("tcp {} {}", host, timeout_secs),
        DialAction::SendInit => "init".to_string(),
        DialAction::BridgeWs { proto_int } => format!("bridge {:x}", proto_int),
        DialAction::BridgeTcp => "bridge tcp".to_string(),
        DialAction::BeginFallback => "fallback".to_string(),
        DialAction::End => "end".to_string(),
    }
}

const FAILED: DialEvent = DialEvent::NotReady { redirect: false };
const MOVED: DialEvent = DialEvent::NotReady { redirect: true };

#[test]
fn an_idle_connection_is_used_first() {
    let mut world = World::new();
    world.health.cool_down(KEY, 5000);
    let (mut dial, action) = world.dial(2, &[], &[]);
    assert_eq!(shown(&action), "pool");
    assert_eq!(shown(&world.step(&mut dial, DialEvent::Ready)), "init");
    assert_eq!(world.totals.connections_ws, 1);
    assert_eq!(world.health.timeout_secs(KEY, 5000), 10);
    assert_eq!(shown(&world.step(&mut dial, DialEvent::Sent)), "bridge efefefef");
    assert_eq!(shown(&world.step(&mut dial, DialEvent::Sent)), "end");
}

#[test]
fn fronts_are_tried_in_turn() {
    let mut world = World::new();
    let (mut dial, _) = world.dial(2, &[], &[]);
    assert_eq!(
        shown(&world.step(&mut dial, FAILED)),
        "ws 7.7.7.7 kws2.web.telegram.org /apiws 10"
    );
    assert_eq!(
        shown(&world.step(&mut dial, MOVED)),
        "ws 7.7.7.7 kws2-1.web.telegram.org /apiws 10"
    );
    assert_eq!(shown(&world.step(&mut dial, DialEvent::Ready)), "init");
    assert_eq!((world.totals.ws_errors, world.totals.connections_ws), (1, 1));
    assert_eq!(shown(&world.step(&mut dial, DialEvent::SendFailed)), "end");
    assert!(world.health.blacklist.is_empty());
}

#[test]
fn a_data_centre_whose_fronts_all_redirect_is_blacklisted() {
    let mut world = World::new();
    let (mut dial, _) = world.dial(2, &[], &[]);
    world.step(&mut dial, FAILED);
    world.step(&mut dial, MOVED);
    assert_eq!(shown(&world.step(&mut dial, MOVED)), "tcp 149.154.167.51 10");
    assert_eq!(world.health.blacklist_text(), "DC2");
    assert_eq!(world.health.timeout_secs(KEY, 5000), 10);
    // From then on its fronts are not tried any more.
    let (_, action) = world.dial(2, &[], &[]);
    assert_eq!(shown(&action), "tcp 149.154.167.51 10");
}

#[test]
fn any_other_failure_is_remembered_for_a_while() {
    for events in [[MOVED, FAILED], [FAILED, MOVED], [FAILED, FAILED]] {
        let mut world = World::new();
        let (mut dial, _) = world.dial(2, &[], &[]);
        world.step(&mut dial, FAILED);
        world.step(&mut dial, events[0]);
        assert_eq!(shown(&world.step(&mut dial, events[1])), "tcp 149.154.167.51 10");
        assert!(world.health.blacklist.is_empty());
        assert_eq!(world.health.timeout_secs(KEY, 5000), 2);
        assert_eq!(world.totals.ws_errors, 2);
        let (mut dial, _) = world.dial(2, &[], &[]);
        assert_eq!(
            shown(&world.step(&mut dial, FAILED)),
            "ws 7.7.7.7 kws2.web.telegram.org /apiws 2"
        );
    }
}

#[test]
fn the_fallback_goes_from_workers_to_fronts_to_tcp() {
    let mut world = World::new();
    let (mut dial, action) = world.dial(5, &["a.dev", "b.dev"], &["c.com", "d.com"]);
    assert_eq!(shown(&action), "worker a.dev 149.154.171.5");
    assert_eq!(shown(&world.step(&mut dial, FAILED)), "worker b.dev 149.154.171.5");
    assert_eq!(shown(&world.step(&mut dial, DialEvent::Ready)), "init");
    assert_eq!(
        shown(&world.step(&mut dial, DialEvent::SendFailed)),
        "ws c.com c.com /149.154.171.5 10"
    );
    assert_eq!(shown(&world.step(&mut dial, MOVED)), "ws d.com d.com /149.154.171.5 10");
    assert_eq!(shown(&world.step(&mut dial, DialEvent::Ready)), "init");
    assert_eq!(
        shown(&world.step(&mut dial, DialEvent::SendFailed)),
        "tcp 149.154.171.5 10"
    );
    assert_eq!(shown(&world.step(&mut dial, DialEvent::Ready)), "init");
    assert_eq!(shown(&world.step(&mut dial, DialEvent::Sent)), "bridge tcp");
    assert_eq!(
        (world.totals.connections_cfproxy, world.totals.connections_tcp_fallback),
        (2, 1)
    );
    assert_eq!(shown(&world.step(&mut dial, FAILED)), "end");
}

#[test]
fn the_fallback_carries_intermediate_packets() {
    let mut world = World::new();
    for fronts in [&[][..], &["c.com"][..]] {
        let workers: &[&str] = if fronts.is_empty() { &["a.dev"] } else { &[] };
        let (mut dial, _) = world.dial(3, workers, fronts);
        world.step(&mut dial, DialEvent::Ready);
        assert_eq!(shown(&world.step(&mut dial, DialEvent::Sent)), "bridge eeeeeeee");
    }
    let (mut dial, _) = world.dial(3, &[], &[]);
    assert_eq!(shown(&world.step(&mut dial, FAILED)), "end");
    let (mut dial, _) = world.dial(3, &[], &[]);
    world.step(&mut dial, DialEvent::Ready);
    assert_eq!(shown(&world.step(&mut dial, DialEvent::SendFailed)), "end");
}

#[test]
fn an_unknown_data_centre_has_no_fallback() {
    let mut world = World::new();
    let (mut dial, action) = world.dial(77, &["a.dev"], &["c.com"]);
    assert_eq!(shown(&action), "end");
    assert_eq!(shown(&world.step(&mut dial, DialEvent::Ready)), "end");
    assert!(Fallback::new(77, &Vec::new(), true, &Vec::new()).is_none());
}

#[test]
fn cloudflare_domains_are_left_out_if_they_are_not_wanted() {
    let mut totals = Stats::new();
    let fallback = Fallback::new(1, &Vec::new(), false, &texts(&["c.com"])).unwrap();
    assert_eq!(shown(&fallback.action()), "tcp 149.154.175.50 10");
    let mut fallback = Fallback::new(1, &Vec::new(), true, &texts(&["c.com"])).unwrap();
    assert_eq!(shown(&fallback.action()), "ws c.com c.com /149.154.175.50 10");
    assert_eq!(shown(&fallback.step(FAILED, &mut totals)), "tcp 149.154.175.50 10");
}

#[test]
fn a_users_own_domain_is_tried_before_tcp() {
    let mut world = World::new();
    world.config.cfproxy_user_domains = texts(&["u.example"]);
    let (mut dial, action) = world.dial(1, &[], &[]);
    assert_eq!(shown(&action), "ws u.example u.example /149.154.175.50 10");
    assert_eq!(shown(&world.step(&mut dial, FAILED)), "tcp 149.154.175.50 10");
    // Before the balancer's, and each domain once.
    let (mut dial, action) = world.dial(1, &[], &["c.com", "u.example"]);
    assert_eq!(shown(&action), "ws u.example u.example /149.154.175.50 10");
    assert_eq!(
        shown(&world.step(&mut dial, FAILED)),
        "ws c.com c.com /149.154.175.50 10"
    );
    assert_eq!(shown(&world.step(&mut dial, FAILED)), "tcp 149.154.175.50 10");
    world.config.fallback_cfproxy = false;
    let (_, action) = world.dial(1, &[], &["c.com"]);
    assert_eq!(shown(&action), "tcp 149.154.175.50 10");
}

#[test]
fn the_fallback_goes_by_the_settings_of_the_moment_it_begins() {
    let mut world = World::new();
    let (mut dial, _) =
        Dial::start(&session(2, false), &world.redirects, &world.health, 5000);
    dial.step(FAILED, &mut world.health, &mut world.totals);
    dial.step(FAILED, &mut world.health, &mut world.totals);
    let action = dial.step(FAILED, &mut world.health, &mut world.totals);
    assert_eq!(shown(&action), "fallback");
    world.config.cfproxy_worker_domains = texts(&["late.dev"]);
    let action = dial.begin_fallback(&world.config, &texts(&["c.com"]));
    assert_eq!(shown(&action), "worker late.dev 149.154.167.51");
    assert_eq!(
        shown(&world.step(&mut dial, FAILED)),
        "ws c.com c.com /149.154.167.51 10"
    );
}
