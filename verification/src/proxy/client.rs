//! A client's session: what it asks for, and how a connection to its data centre is made.

use std::collections::HashMap;

use vstd::prelude::*;

use crate::proxy::balancer::fronts_for;
use crate::proxy::bytes::same_bytes;
use crate::proxy::config::ProxyConfig;
use crate::proxy::fallback::{DialAction, DialEvent, Fallback};
use crate::proxy::handshake::{
    build_crypto_ctx, generate_relay_init, try_handshake, CryptoContext,
};
use crate::proxy::stats::Stats;
use crate::proxy::text::{decimal_text, join_texts};
use crate::proxy::utils::{
    ws_domains, HANDSHAKE_LEN, PROTO_ABRIDGED_INT, PROTO_INTERMEDIATE_INT,
    PROTO_PADDED_INTERMEDIATE_INT, PROTO_TAG_ABRIDGED, PROTO_TAG_INTERMEDIATE,
};
use crate::proxy::{balancer, bridge, bytes, crypto, fallback, handshake, text, utils};

verus! {

/// How long a data centre that could not be reached is given less time, in nanoseconds.
pub const DC_FAIL_COOLDOWN_NS: u64 = 30_000_000_000;

/// How long making a WebSocket connection may take right after a failure, in seconds.
pub const WS_FAIL_TIMEOUT_SECS: u64 = 2;

/// How long making a WebSocket connection may take otherwise, in seconds.
pub const WS_TIMEOUT_SECS: u64 = 10;

/// The number of the transport that a tag stands for.
pub open spec fn proto_number(tag: Seq<u8>) -> u32 {
    if tag == PROTO_TAG_ABRIDGED@ {
        PROTO_ABRIDGED_INT
    } else if tag == PROTO_TAG_INTERMEDIATE@ {
        PROTO_INTERMEDIATE_INT
    } else {
        PROTO_PADDED_INTERMEDIATE_INT
    }
}

fn proto_number_of(tag: &[u8; 4]) -> (proto: u32)
    ensures
        proto == proto_number(tag@),
{
    if same_bytes(tag.as_slice(), PROTO_TAG_ABRIDGED.as_slice()) {
        PROTO_ABRIDGED_INT
    } else if same_bytes(tag.as_slice(), PROTO_TAG_INTERMEDIATE.as_slice()) {
        PROTO_INTERMEDIATE_INT
    } else {
        PROTO_PADDED_INTERMEDIATE_INT
    }
}

/// The index of a data centre: negative for media.
pub open spec fn dc_index(dc: u32, is_media: bool) -> int {
    if is_media {
        -(dc as int)
    } else {
        dc as int
    }
}

/// What a client asks for, and what the session needs to carry it.
#[derive(Debug)]
pub struct Session {
    pub dc: u32,
    pub is_media: bool,
    pub proto_int: u32,
    pub relay_init: Vec<u8>,
    pub ctx: CryptoContext,
}

impl Session {
    /// The session that a handshake asks for, with this relay handshake.
    pub open spec fn is_for(
        &self,
        client: Seq<u8>,
        secret: Seq<u8>,
        relay_init: Seq<u8>,
    ) -> bool {
        let index = handshake::handshake_dc_index(client, secret);
        &&& dc_index(self.dc, self.is_media) == index
        &&& self.is_media == (index < 0)
        &&& self.proto_int == proto_number(
            handshake::handshake_plain(client, secret).subrange(56, 60),
        )
        &&& self.relay_init@ == relay_init
        &&& self.ctx.fresh(client.subrange(8, 56), secret, relay_init)
    }
}

/// A relay handshake that asks the relay for what the client's handshake asks the proxy for.
pub open spec fn relays(nonce: Seq<u8>, client: Seq<u8>, secret: Seq<u8>) -> Seq<u8> {
    handshake::relay_init(
        nonce,
        handshake::handshake_plain(client, secret).subrange(56, 60),
        handshake::handshake_dc_index(client, secret),
    )
}

/// Opens the session that an accepted handshake asks for, with a given relay handshake.
pub fn session_with(
    accepted: (u32, bool, [u8; 4], [u8; 48]),
    secret: &[u8],
    relay_init: Vec<u8>,
) -> (session: Session)
    requires
        relay_init@.len() == HANDSHAKE_LEN,
    ensures
        session.dc == accepted.0,
        session.is_media == accepted.1,
        session.proto_int == proto_number(accepted.2@),
        session.relay_init@ == relay_init@,
        session.ctx.fresh(accepted.3@, secret@, relay_init@),
        accepted.2@ == seq![0xefu8, 0xef, 0xef, 0xef] ==> session.proto_int == 0xEFEF_EFEF,
        accepted.2@ == seq![0xeeu8, 0xee, 0xee, 0xee] ==> session.proto_int == 0xEEEE_EEEE,
        accepted.2@ == seq![0xddu8, 0xdd, 0xdd, 0xdd] ==> session.proto_int == 0xDDDD_DDDD,
        session.ctx.clt_dec.key@ == crypto::sha256(accepted.3@.subrange(0, 32) + secret@),
{
    let (dc, is_media, proto_tag, prekey_iv) = accepted;
    let ctx = build_crypto_ctx(&prekey_iv, secret, relay_init.as_slice());
    proof {
        law_transport_number(proto_tag@);
    }
    Session { dc, is_media, proto_int: proto_number_of(&proto_tag), relay_init, ctx }
}

/// Opens the session that a client's handshake asks for, with a random relay handshake for the
/// same data centre and transport. A handshake that is not accepted is counted.
pub fn open_session(client: &[u8], secret: &[u8], totals: &mut Stats) -> (out: Option<Session>)
    ensures
        out is Some <==> handshake::accepts_handshake(client@, secret@),
        out is None ==> *final(totals) == (Stats {
            connections_bad: bridge::wrapped_sum(old(totals).connections_bad, 1),
            ..*old(totals)
        }),
        out matches Some(session) ==> {
            &&& *final(totals) == *old(totals)
            &&& session.relay_init@.len() == HANDSHAKE_LEN
            &&& exists|nonce: Seq<u8>|
                {
                    &&& nonce.len() == HANDSHAKE_LEN
                    &&& !handshake::is_reserved_start(nonce)
                    &&& session.is_for(
                        client@,
                        secret@,
                        #[trigger] relays(nonce, client@, secret@),
                    )
                }
        },
{
    match try_handshake(client, secret) {
        None => {
            totals.connections_bad = totals.connections_bad.wrapping_add(1);
            None
        },
        Some((dc, is_media, proto_tag, prekey_iv)) => {
            proof {
                let plain = handshake::handshake_plain(client@, secret@).subrange(60, 62);
                assert(plain.take(2) =~= plain);
                bytes::lemma_le_value_2(plain);
            }
            let index: i32 = if is_media {
                -(dc as i32)
            } else {
                dc as i32
            };
            let relay_init = generate_relay_init(&proto_tag, index as i16);
            let ghost nonce = choose|nonce: Seq<u8>|
                {
                    &&& nonce.len() == HANDSHAKE_LEN
                    &&& !handshake::is_reserved_start(nonce)
                    &&& relay_init@ == #[trigger] handshake::relay_init(
                        nonce,
                        proto_tag@,
                        index as int,
                    )
                };
            let session = session_with((dc, is_media, proto_tag, prekey_iv), secret, relay_init);
            assert(session.is_for(client@, secret@, relays(nonce, client@, secret@)));
            Some(session)
        },
    }
}

/// The relay, which takes the key from the relay handshake itself, reads from it the transport
/// and the data centre that the client asked for.
pub proof fn law_relay_asked_as_client_asks(nonce: Seq<u8>, client: Seq<u8>, secret: Seq<u8>)
    requires
        nonce.len() == HANDSHAKE_LEN,
        handshake::accepts_handshake(client, secret),
    ensures
        ({
            let plain = handshake::relay_view(relays(nonce, client, secret));
            &&& plain.subrange(56, 60) == handshake::handshake_plain(client, secret).subrange(
                56,
                60,
            )
            &&& handshake::signed_index(plain.subrange(60, 62)) == handshake::handshake_dc_index(
                client,
                secret,
            )
        }),
{
    let two = handshake::handshake_plain(client, secret).subrange(60, 62);
    assert(two.take(2) =~= two);
    bytes::lemma_le_value_2(two);
    handshake::law_relay_init_decrypts(
        nonce,
        handshake::handshake_plain(client, secret).subrange(56, 60),
        handshake::handshake_dc_index(client, secret),
    );
}

/// A data centre, for media or not.
#[derive(Debug, Clone, Copy, PartialEq, Eq, Structural)]
pub struct DcKey {
    pub dc: u32,
    pub is_media: bool,
}

impl DcKey {
    /// One number for each key.
    pub open spec fn code(self) -> u64 {
        if self.is_media {
            (2 * self.dc + 1) as u64
        } else {
            (2 * self.dc) as u64
        }
    }

    fn number(&self) -> (code: u64)
        ensures
            code == self.code(),
    {
        if self.is_media {
            2 * self.dc as u64 + 1
        } else {
            2 * self.dc as u64
        }
    }

    /// The key as it is shown: the number, and `m` for media.
    pub open spec fn text(self) -> Seq<char> {
        "DC"@ + text::decimal(self.dc as nat) + (if self.is_media {
            "m"@
        } else {
            ""@
        })
    }

    fn label(&self) -> (out: String)
        ensures
            out@ == self.text(),
    {
        let mut out = "DC".to_owned();
        out.append(decimal_text(self.dc as u64).as_str());
        if self.is_media {
            out.append("m");
        } else {
            out.append("");
        }
        out
    }
}

/// Which data centres cannot be reached over WebSocket: some not at all, some not for a while.
#[derive(Debug)]
pub struct DcHealth {
    pub blacklist: Vec<DcKey>,
    pub fail_until: HashMap<u64, u128>,
}

impl Default for DcHealth {
    fn default() -> (health: Self)
        ensures
            health.blacklist@.len() == 0,
            health.fail_until@ == Map::<u64, u128>::empty(),
    {
        DcHealth::new()
    }
}

impl DcHealth {
    /// All data centres can be reached.
    pub fn new() -> (health: Self)
        ensures
            health.blacklist@.len() == 0,
            health.fail_until@ == Map::<u64, u128>::empty(),
    {
        DcHealth { blacklist: Vec::new(), fail_until: HashMap::new() }
    }

    /// Whether a data centre cannot be reached at all.
    pub fn is_blacklisted(&self, key: DcKey) -> (listed: bool)
        ensures
            listed == self.blacklist@.contains(key),
    {
        let mut i: usize = 0;
        while i < self.blacklist.len()
            invariant
                i <= self.blacklist@.len(),
                forall|j: int| 0 <= j < i ==> self.blacklist@[j] != key,
            decreases self.blacklist@.len() - i,
        {
            if self.blacklist[i] == key {
                assert(self.blacklist@[i as int] == key);
                return true;
            }
            i = i + 1;
        }
        false
    }

    /// Notes that a data centre cannot be reached at all.
    pub fn add_to_blacklist(&mut self, key: DcKey)
        ensures
            final(self).fail_until == old(self).fail_until,
            final(self).blacklist@ == if old(self).blacklist@.contains(key) {
                old(self).blacklist@
            } else {
                old(self).blacklist@.push(key)
            },
    {
        if !self.is_blacklisted(key) {
            self.blacklist.push(key);
        }
    }

    /// Whether a failure is less than `DC_FAIL_COOLDOWN_NS` ago.
    pub open spec fn cooling(&self, key: DcKey, now: u64) -> bool {
        self.fail_until@.contains_key(key.code()) && now < self.fail_until@[key.code()]
    }

    /// How long making a connection may take.
    pub fn timeout_secs(&self, key: DcKey, now: u64) -> (secs: u64)
        ensures
            secs == if self.cooling(key, now) {
                WS_FAIL_TIMEOUT_SECS
            } else {
                WS_TIMEOUT_SECS
            },
            secs == 2 || secs == 10,
    {
        let code: u64 = key.number();
        match self.fail_until.get(&code) {
            Some(until) => if (now as u128) < *until {
                WS_FAIL_TIMEOUT_SECS
            } else {
                WS_TIMEOUT_SECS
            },
            None => WS_TIMEOUT_SECS,
        }
    }

    /// Notes a failure.
    pub fn cool_down(&mut self, key: DcKey, now: u64)
        ensures
            final(self).blacklist == old(self).blacklist,
            final(self).fail_until@ == old(self).fail_until@.insert(
                key.code(),
                (now + DC_FAIL_COOLDOWN_NS) as u128,
            ),
    {
        self.fail_until.insert(key.number(), now as u128 + DC_FAIL_COOLDOWN_NS as u128);
    }

    /// Forgets a failure.
    pub fn recover(&mut self, key: DcKey)
        ensures
            final(self).blacklist == old(self).blacklist,
            final(self).fail_until@ == old(self).fail_until@.remove(key.code()),
    {
        let code: u64 = key.number();
        self.fail_until.remove(&code);
    }

    /// The data centres that cannot be reached at all, as they are shown.
    pub open spec fn blacklist_line(&self) -> Seq<char> {
        if self.blacklist@.len() == 0 {
            "none"@
        } else {
            text::joined(self.blacklist@.map_values(|key: DcKey| key.text()), ", "@)
        }
    }

    /// The data centres that cannot be reached at all, as they are shown.
    pub fn blacklist_text(&self) -> (out: String)
        ensures
            out@ == self.blacklist_line(),
    {
        if self.blacklist.len() == 0 {
            return "none".to_owned();
        }
        let ghost all = self.blacklist@.map_values(|key: DcKey| key.text());
        let mut labels: Vec<String> = Vec::new();
        let mut i: usize = 0;
        assert(text::text_views(labels@) =~= all.take(0));
        while i < self.blacklist.len()
            invariant
                i <= self.blacklist@.len(),
                all == self.blacklist@.map_values(|key: DcKey| key.text()),
                text::text_views(labels@) =~= all.take(i as int),
            decreases self.blacklist@.len() - i,
        {
            let ghost before = text::text_views(labels@);
            let label = self.blacklist[i].label();
            let ghost shown = label@;
            labels.push(label);
            assert(text::text_views(labels@) =~= before.push(shown));
            assert(all.take(i + 1) =~= all.take(i as int).push(all[i as int]));
            i = i + 1;
        }
        assert(all.take(i as int) =~= all);
        join_texts(&labels, ", ")
    }
}

/// A failure gives a data centre less time for `DC_FAIL_COOLDOWN_NS`, and no longer; no other
/// data centre is affected.
pub proof fn law_cooldown(before: DcHealth, after: DcHealth, key: DcKey, now: u64, later: u64)
    requires
        after.fail_until@ == before.fail_until@.insert(
            key.code(),
            (now + DC_FAIL_COOLDOWN_NS) as u128,
        ),
    ensures
        after.cooling(key, later) <==> later < now + DC_FAIL_COOLDOWN_NS,
        forall|other: DcKey|
            other != key ==> #[trigger] after.cooling(other, later) == before.cooling(
                other,
                later,
            ),
{
}

/// How far the way to a data centre has come.
#[derive(Debug, Clone, Copy, PartialEq, Eq, Structural)]
pub enum DialStage {
    /// An idle connection is looked for.
    Pooled,
    /// The front at this position is being connected to.
    Connecting(usize),
    /// The relay handshake is being sent.
    Greeting,
    /// The session is being carried.
    Carrying,
    /// The fallback is to begin.
    Turning,
    /// The fallback has taken over.
    Falling,
    /// It is over.
    Ended,
}

/// The way to a data centre: over its WebSocket fronts if it has an address of its own and is not
/// blacklisted, else, or if that fails, by the fallback.
#[derive(Debug)]
pub struct Dial {
    pub key: DcKey,
    pub proto_int: u32,
    /// The data centre's own address.
    pub target: String,
    /// Its fronts, in the order in which they are tried.
    pub domains: Vec<String>,
    pub timeout_secs: u64,
    /// When the way began, in nanoseconds on the machine's steady clock.
    pub started: u64,
    /// Some front has sent the proxy elsewhere.
    pub redirected: bool,
    /// No front has failed in any other way.
    pub all_redirects: bool,
    pub stage: DialStage,
    pub fallback: Option<Fallback>,
}

/// The flags `redirected` and `all_redirects` after fronts have failed one by one, each with or
/// without a redirect.
pub open spec fn failure_flags(redirects: Seq<bool>) -> (bool, bool)
    decreases redirects.len(),
{
    if redirects.len() == 0 {
        (false, true)
    } else {
        let (redirected, all_redirects) = failure_flags(redirects.drop_last());
        (redirected || redirects.last(), all_redirects && redirects.last())
    }
}

/// A data centre is blacklisted exactly when some front was tried and every one of them sent the
/// proxy elsewhere.
pub proof fn law_blacklisted_when_all_redirect(redirects: Seq<bool>)
    ensures
        ({
            let (redirected, all_redirects) = failure_flags(redirects);
            redirected && all_redirects <==> redirects.len() > 0 && forall|i: int|
                0 <= i < redirects.len() ==> redirects[i]
        }),
    decreases redirects.len(),
{
    if redirects.len() > 0 {
        let before = redirects.drop_last();
        law_blacklisted_when_all_redirect(before);
        if failure_flags(before).1 {
            lemma_all_redirects(before);
        }
        assert(forall|i: int| 0 <= i < before.len() ==> before[i] == redirects[i]);
        assert(redirects.last() == redirects[redirects.len() - 1]);
    }
}

proof fn lemma_all_redirects(redirects: Seq<bool>)
    requires
        failure_flags(redirects).1,
    ensures
        forall|i: int| 0 <= i < redirects.len() ==> redirects[i],
    decreases redirects.len(),
{
    if redirects.len() > 0 {
        lemma_all_redirects(redirects.drop_last());
        assert forall|i: int| 0 <= i < redirects.len() implies redirects[i] by {
            if i < redirects.len() - 1 {
                assert(redirects[i] == redirects.drop_last()[i]);
            }
        }
    }
}

/// Whether the WebSocket fronts of a data centre are tried at all.
pub open spec fn goes_direct(
    key: DcKey,
    redirects: Map<u32, String>,
    health: DcHealth,
) -> bool {
    redirects.contains_key(key.dc) && !health.blacklist@.contains(key)
}

impl Dial {
    /// The fallback stands at a place that it has, and is there from when it has begun on. The
    /// front being tried is one of those.
    pub open spec fn wf(&self) -> bool {
        &&& self.fallback matches Some(f) ==> f.wf()
        &&& self.fallback is Some <==> self.stage is Falling
        &&& self.stage matches DialStage::Connecting(i) ==> i < self.domains.len()
    }

    /// Everything but the stage and the fallback.
    pub open spec fn same_plan(&self, other: &Dial) -> bool {
        &&& self.key == other.key
        &&& self.proto_int == other.proto_int
        &&& self.target == other.target
        &&& self.domains == other.domains
        &&& self.timeout_secs == other.timeout_secs
        &&& self.started == other.started
    }

    /// Nothing has changed but the stage.
    pub open spec fn moved(&self, other: &Dial, stage: DialStage) -> bool {
        &&& self.same_plan(other)
        &&& self.redirected == other.redirected
        &&& self.all_redirects == other.all_redirects
        &&& self.fallback == other.fallback
        &&& self.stage == stage
    }

    /// The fallback is to begin.
    pub open spec fn turns(&self, action: DialAction) -> bool {
        self.stage is Turning && action is BeginFallback
    }

    /// The front at position `i` is connected to.
    pub open spec fn connects(&self, i: int, action: DialAction) -> bool {
        &&& action matches DialAction::Connect { host, domain, path, timeout_secs }
        &&& host@ == self.target@
        &&& domain@ == self.domains@[i]@
        &&& path@ == "/apiws"@
        &&& timeout_secs == self.timeout_secs
    }

    /// The way has come to its end.
    pub open spec fn is_over(&self) -> bool {
        self.stage is Ended || (self.stage is Falling && (self.fallback matches Some(f)
            ==> f.stage is Ended))
    }

    /// How far the way has come.
    pub open spec fn progress(&self) -> int {
        let fronts: int = self.domains@.len() as int;
        match self.stage {
            DialStage::Pooled => 0,
            DialStage::Connecting(i) => 1 + i,
            DialStage::Greeting => 1 + fronts,
            DialStage::Carrying => 2 + fronts,
            DialStage::Turning => 3 + fronts,
            DialStage::Falling => match self.fallback {
                Some(f) => 4 + fronts + fallback::progress(
                    f.stage,
                    f.workers@.len(),
                    f.fronts@.len(),
                ),
                None => 4 + fronts,
            },
            DialStage::Ended => self.longest(),
        }
    }

    /// An upper bound on how far a way can come.
    pub open spec fn longest(&self) -> int {
        let fronts: int = self.domains@.len() as int;
        match self.fallback {
            Some(f) => fronts + 2 * (f.workers@.len() + f.fronts@.len()) + 8,
            None => fronts + 5,
        }
    }

    /// Begins the way to a data centre.
    pub fn start(
        session: &Session,
        redirects: &HashMap<u32, String>,
        health: &DcHealth,
        now: u64,
    ) -> (out: (Dial, DialAction))
        ensures
            out.0.wf(),
            ({
                let (dial, action) = out;
                let key = DcKey { dc: session.dc, is_media: session.is_media };
                &&& dial.key == key
                &&& dial.proto_int == session.proto_int
                &&& text::text_views(dial.domains@) == seq![
                    utils::ws_domain(key.dc, key.is_media),
                    utils::ws_domain(key.dc, !key.is_media),
                ]
                &&& dial.timeout_secs == if health.cooling(key, now) {
                    WS_FAIL_TIMEOUT_SECS
                } else {
                    WS_TIMEOUT_SECS
                }
                &&& dial.started == now
                &&& !dial.redirected
                &&& dial.all_redirects
                &&& dial.fallback is None
                &&& redirects@.contains_key(key.dc) ==> dial.target@ == redirects@[key.dc]@
                &&& if goes_direct(key, redirects@, *health) {
                    dial.stage is Pooled && action is TakePooled
                } else {
                    dial.turns(action)
                }
            }),
    {
        let key = DcKey { dc: session.dc, is_media: session.is_media };
        let target: String = match redirects.get(&key.dc) {
            Some(ip) => ip.clone(),
            None => String::new(),
        };
        let direct: bool = redirects.contains_key(&key.dc) && !health.is_blacklisted(key);
        let dial = Dial {
            key,
            proto_int: session.proto_int,
            target,
            domains: ws_domains(key.dc, key.is_media),
            timeout_secs: health.timeout_secs(key, now),
            started: now,
            redirected: false,
            all_redirects: true,
            stage: if direct {
                DialStage::Pooled
            } else {
                DialStage::Turning
            },
            fallback: None,
        };
        if direct {
            (dial, DialAction::TakePooled)
        } else {
            (dial, DialAction::BeginFallback)
        }
    }

    /// Begins the fallback, with the settings and the balancer's domains of that moment: through
    /// the workers of the settings, then, if the settings want it, through the user's own
    /// Cloudflare domains and the balancer's, then over TCP. A data centre without a known address
    /// is given up.
    pub fn begin_fallback(&mut self, config: &ProxyConfig, balanced: &Vec<String>) -> (action:
        DialAction)
        requires
            old(self).wf(),
            old(self).stage is Turning,
        ensures
            final(self).wf(),
            final(self).same_plan(old(self)),
            final(self).redirected == old(self).redirected,
            final(self).all_redirects == old(self).all_redirects,
            old(self).progress() < final(self).progress() <= final(self).longest(),
            match utils::default_ip(old(self).key.dc) {
                None => {
                    &&& action is End
                    &&& final(self).stage is Ended
                    &&& final(self).fallback is None
                },
                Some(ip) => {
                    &&& final(self).stage is Falling
                    &&& final(self).fallback matches Some(f)
                    &&& f.dc == old(self).key.dc
                    &&& f.dst@ == ip
                    &&& text::text_views(f.workers@) == text::text_views(
                        config.cfproxy_worker_domains@,
                    )
                    &&& text::text_views(f.fronts@) == if config.fallback_cfproxy {
                        balancer::front_order(
                            text::text_views(config.cfproxy_user_domains@),
                            text::text_views(balanced@),
                        )
                    } else {
                        Seq::empty()
                    }
                    &&& f.stage == fallback::worker_or_front(
                        f.workers@.len(),
                        f.fronts@.len(),
                        0,
                    )
                    &&& f.does(action)
                },
            },
    {
        let fronts = fronts_for(&config.cfproxy_user_domains, balanced);
        match Fallback::new(
            self.key.dc,
            &config.cfproxy_worker_domains,
            config.fallback_cfproxy,
            &fronts,
        ) {
            Some(f) => {
                let action = f.action();
                self.fallback = Some(f);
                self.stage = DialStage::Falling;
                action
            },
            None => {
                self.stage = DialStage::Ended;
                DialAction::End
            },
        }
    }

    fn connect_to(&self, i: usize) -> (action: DialAction)
        requires
            i < self.domains@.len(),
        ensures
            self.connects(i as int, action),
    {
        DialAction::Connect {
            host: self.target.clone(),
            domain: self.domains[i].clone(),
            path: "/apiws".to_owned(),
            timeout_secs: self.timeout_secs,
        }
    }

    /// No front could be connected to: notes it, and turns to the fallback.
    fn give_up(&mut self, health: &mut DcHealth) -> (action: DialAction)
        requires
            old(self).wf(),
            old(self).fallback is None,
        ensures
            final(self).wf(),
            final(self).moved(old(self), DialStage::Turning),
            action is BeginFallback,
            old(self).given_up(*old(health), *final(health)),
    {
        if self.redirected && self.all_redirects {
            health.add_to_blacklist(self.key);
        } else {
            health.cool_down(self.key, self.started);
        }
        self.stage = DialStage::Turning;
        DialAction::BeginFallback
    }

    /// What is noted when no front could be connected to: if all of them sent the proxy
    /// elsewhere, the data centre cannot be reached at all, else not for a while.
    pub open spec fn given_up(&self, before: DcHealth, after: DcHealth) -> bool {
        if self.redirected && self.all_redirects {
            &&& after.fail_until == before.fail_until
            &&& after.blacklist@ == if before.blacklist@.contains(self.key) {
                before.blacklist@
            } else {
                before.blacklist@.push(self.key)
            }
        } else {
            &&& after.blacklist == before.blacklist
            &&& after.fail_until@ == before.fail_until@.insert(
                self.key.code(),
                (self.started + DC_FAIL_COOLDOWN_NS) as u128,
            )
        }
    }

    /// What is noted when there is a connection.
    pub open spec fn connected(
        &self,
        health: DcHealth,
        health_after: DcHealth,
        totals: Stats,
        totals_after: Stats,
    ) -> bool {
        &&& health_after.blacklist == health.blacklist
        &&& health_after.fail_until@ == health.fail_until@.remove(self.key.code())
        &&& totals_after == (Stats {
            connections_ws: bridge::wrapped_sum(totals.connections_ws, 1),
            ..totals
        })
    }

    /// Takes an event, notes what it shows of the data centre, and says what is to be done next.
    #[verifier::rlimit(40)]
    pub fn step(&mut self, event: DialEvent, health: &mut DcHealth, totals: &mut Stats) -> (action:
        DialAction)
        requires
            old(self).wf(),
        ensures
            final(self).wf(),
            final(self).same_plan(old(self)),
            !old(self).is_over() ==> old(self).progress() < final(self).progress(),
            final(self).progress() <= final(self).longest() == old(self).longest(),
            match old(self).stage {
                DialStage::Pooled => if event is Ready {
                    &&& action is SendInit
                    &&& final(self).moved(old(self), DialStage::Greeting)
                    &&& old(self).connected(
                        *old(health),
                        *final(health),
                        *old(totals),
                        *final(totals),
                    )
                } else {
                    &&& *final(totals) == *old(totals)
                    &&& final(self).fallback == old(self).fallback
                    &&& final(self).redirected == old(self).redirected
                    &&& final(self).all_redirects == old(self).all_redirects
                    &&& if old(self).domains@.len() > 0 {
                        &&& final(self).stage == DialStage::Connecting(0)
                        &&& final(self).connects(0, action)
                        &&& *final(health) == *old(health)
                    } else {
                        &&& final(self).turns(action)
                        &&& old(self).given_up(*old(health), *final(health))
                    }
                },
                DialStage::Connecting(i) => if event is Ready {
                    &&& action is SendInit
                    &&& final(self).fallback == old(self).fallback
                    &&& final(self).redirected == old(self).redirected
                    &&& !final(self).all_redirects
                    &&& final(self).stage is Greeting
                    &&& old(self).connected(
                        *old(health),
                        *final(health),
                        *old(totals),
                        *final(totals),
                    )
                } else {
                    let redirect = event == (DialEvent::NotReady { redirect: true });
                    &&& *final(totals) == (Stats {
                        ws_errors: bridge::wrapped_sum(old(totals).ws_errors, 1),
                        ..*old(totals)
                    })
                    &&& final(self).redirected == (old(self).redirected || redirect)
                    &&& final(self).all_redirects == (old(self).all_redirects && redirect)
                    &&& final(self).fallback == old(self).fallback
                    &&& if i + 1 < old(self).domains@.len() {
                        &&& final(self).stage == DialStage::Connecting((i + 1) as usize)
                        &&& final(self).connects(i + 1, action)
                        &&& *final(health) == *old(health)
                    } else {
                        &&& final(self).turns(action)
                        &&& final(self).given_up(*old(health), *final(health))
                    }
                },
                DialStage::Greeting => {
                    &&& *final(totals) == *old(totals)
                    &&& *final(health) == *old(health)
                    &&& if event is Sent {
                        &&& action == (DialAction::BridgeWs { proto_int: old(self).proto_int })
                        &&& final(self).moved(old(self), DialStage::Carrying)
                    } else {
                        &&& action is End
                        &&& final(self).moved(old(self), DialStage::Ended)
                    }
                },
                DialStage::Falling => {
                    &&& *final(health) == *old(health)
                    &&& final(self).redirected == old(self).redirected
                    &&& final(self).all_redirects == old(self).all_redirects
                    &&& final(self).stage is Falling
                    &&& old(self).fallback matches Some(f)
                    &&& final(self).fallback matches Some(g)
                    &&& g.dc == f.dc
                    &&& g.dst == f.dst
                    &&& g.workers == f.workers
                    &&& g.fronts == f.fronts
                    &&& g.stage == fallback::next_stage(
                        f.stage,
                        f.workers@.len(),
                        f.fronts@.len(),
                        event,
                    )
                    &&& g.does(action)
                    &&& *final(totals) == fallback::counted(f.stage, event, *old(totals))
                },
                _ => {
                    &&& action is End
                    &&& final(self).moved(old(self), DialStage::Ended)
                    &&& *final(totals) == *old(totals)
                    &&& *final(health) == *old(health)
                },
            },
    {
        let ready: bool = match event {
            DialEvent::Ready => true,
            _ => false,
        };
        match self.stage {
            DialStage::Pooled => {
                if ready {
                    health.recover(self.key);
                    totals.connections_ws = totals.connections_ws.wrapping_add(1);
                    self.stage = DialStage::Greeting;
                    return DialAction::SendInit;
                }
                if self.domains.len() > 0 {
                    self.stage = DialStage::Connecting(0);
                    return self.connect_to(0);
                }
                self.give_up(health)
            },
            DialStage::Connecting(i) => {
                if ready {
                    self.all_redirects = false;
                    health.recover(self.key);
                    totals.connections_ws = totals.connections_ws.wrapping_add(1);
                    self.stage = DialStage::Greeting;
                    return DialAction::SendInit;
                }
                totals.ws_errors = totals.ws_errors.wrapping_add(1);
                let redirect: bool = match event {
                    DialEvent::NotReady { redirect } => redirect,
                    _ => false,
                };
                if redirect {
                    self.redirected = true;
                } else {
                    self.all_redirects = false;
                }
                if i < self.domains.len() - 1 {
                    self.stage = DialStage::Connecting(i + 1);
                    return self.connect_to(i + 1);
                }
                self.give_up(health)
            },
            DialStage::Greeting => match event {
                DialEvent::Sent => {
                    self.stage = DialStage::Carrying;
                    DialAction::BridgeWs { proto_int: self.proto_int }
                },
                _ => {
                    self.stage = DialStage::Ended;
                    DialAction::End
                },
            },
            DialStage::Falling => match &mut self.fallback {
                Some(f) => f.step(event, totals),
                None => {
                    self.stage = DialStage::Ended;
                    DialAction::End
                },
            },
            _ => {
                self.stage = DialStage::Ended;
                DialAction::End
            },
        }
    }
}

/// The number of the transport that four equal bytes stand for has these four bytes.
pub proof fn law_transport_number(tag: Seq<u8>)
    ensures
        tag == seq![0xefu8, 0xef, 0xef, 0xef] ==> proto_number(tag) == 0xEFEF_EFEF,
        tag == seq![0xeeu8, 0xee, 0xee, 0xee] ==> proto_number(tag) == 0xEEEE_EEEE,
        tag == seq![0xddu8, 0xdd, 0xdd, 0xdd] ==> proto_number(tag) == 0xDDDD_DDDD,
{
    utils::law_transports();
    assert(seq![0xefu8, 0xef, 0xef, 0xef][0] == 0xef);
    assert(seq![0xeeu8, 0xee, 0xee, 0xee][0] == 0xee);
    assert(seq![0xddu8, 0xdd, 0xdd, 0xdd][0] == 0xdd);
}

/// A session is what the client asks for in bytes 56 to 62 of its handshake: the transport, and
/// the data centre, for media if the index is negative. Its ciphers go by the secret, the client's
/// bytes and the relay handshake.
pub proof fn law_session_is_what_the_client_asks(
    session: Session,
    client: Seq<u8>,
    secret: Seq<u8>,
    relay_init: Seq<u8>,
)
    requires
        client.len() >= 64,
        relay_init.len() == 64,
        session.is_for(client, secret, relay_init),
    ensures
        ({
            let key = crypto::sha256(client.subrange(8, 40) + secret);
            let iv = client.subrange(40, 56);
            let plain = Seq::new(
                64,
                |i: int| client[i] ^ crypto::ctr_keystream(key, iv, i as nat),
            );
            let asked = plain.subrange(56, 60);
            let number: int = plain[60] + 256 * plain[61];
            &&& asked == seq![0xefu8, 0xef, 0xef, 0xef] ==> session.proto_int == 0xEFEF_EFEF
            &&& asked == seq![0xeeu8, 0xee, 0xee, 0xee] ==> session.proto_int == 0xEEEE_EEEE
            &&& asked == seq![0xddu8, 0xdd, 0xdd, 0xdd] ==> session.proto_int == 0xDDDD_DDDD
            &&& session.is_media == (number >= 32768)
            &&& session.dc == if number >= 32768 {
                65536 - number
            } else {
                number
            }
            &&& session.relay_init@ == relay_init
            &&& session.ctx.clt_dec.key@ == key
            &&& session.ctx.clt_dec.iv@ == iv
            &&& session.ctx.clt_dec.pos == 64
            &&& session.ctx.clt_enc.key@ == crypto::sha256(
                Seq::new(32, |i: int| client[55 - i]) + secret,
            )
            &&& session.ctx.clt_enc.iv@ == Seq::new(16, |i: int| client[23 - i])
            &&& session.ctx.clt_enc.pos == 0
            &&& session.ctx.tg_enc.key@ == relay_init.subrange(8, 40)
            &&& session.ctx.tg_enc.iv@ == relay_init.subrange(40, 56)
            &&& session.ctx.tg_enc.pos == 64
            &&& session.ctx.tg_dec.key@ == Seq::new(32, |i: int| relay_init[55 - i])
            &&& session.ctx.tg_dec.iv@ == Seq::new(16, |i: int| relay_init[23 - i])
            &&& session.ctx.tg_dec.pos == 0
        }),
{
    handshake::law_handshake_read(client, secret);
    let own = client.subrange(8, 56);
    handshake::law_fresh_ciphers(session.ctx, own, secret, relay_init);
    assert(own.subrange(0, 32) =~= client.subrange(8, 40));
    assert(own.subrange(32, 48) =~= client.subrange(40, 56));
    assert(Seq::new(32, |i: int| own[47 - i]) =~= Seq::new(32, |i: int| client[55 - i]));
    assert(Seq::new(16, |i: int| own[15 - i]) =~= Seq::new(16, |i: int| client[23 - i]));
    law_transport_number(handshake::handshake_plain(client, secret).subrange(56, 60));
}

/// The relay reads in bytes 56 to 62 of the relay handshake, under the key in that handshake, what
/// the proxy reads in the same bytes of the client's handshake under the client's key.
pub proof fn law_relay_reads_what_the_proxy_read(
    nonce: Seq<u8>,
    client: Seq<u8>,
    secret: Seq<u8>,
    i: int,
)
    requires
        nonce.len() == 64,
        client.len() >= 64,
        56 <= i < 62,
    ensures
        ({
            let init = relays(nonce, client, secret);
            init.len() == 64 && init[i] ^ crypto::ctr_keystream(
                init.subrange(8, 40),
                init.subrange(40, 56),
                i as nat,
            ) == client[i] ^ crypto::ctr_keystream(
                crypto::sha256(client.subrange(8, 40) + secret),
                client.subrange(40, 56),
                i as nat,
            )
        }),
{
    handshake::law_handshake_read(client, secret);
    let read = handshake::handshake_plain(client, secret);
    let asked = read.subrange(56, 60);
    let index = handshake::handshake_dc_index(client, secret);
    handshake::law_relay_init_bytes(nonce, asked, index);
    let key = crypto::sha256(client.subrange(8, 40) + secret);
    let iv = client.subrange(40, 56);
    let plain = Seq::new(64, |k: int| client[k] ^ crypto::ctr_keystream(key, iv, k as nat));
    let init = relays(nonce, client, secret);
    let said = Seq::new(
        8,
        |k: int|
            init[56 + k] ^ crypto::ctr_keystream(
                init.subrange(8, 40),
                init.subrange(40, 56),
                (56 + k) as nat,
            ),
    );
    assert(said[i - 56] == init[i] ^ crypto::ctr_keystream(
        init.subrange(8, 40),
        init.subrange(40, 56),
        i as nat,
    ));
    if i < 60 {
        assert(said.take(4)[i - 56] == said[i - 56]);
        assert(asked[i - 56] == read[i]);
        assert(plain.subrange(56, 60)[i - 56] == plain[i]);
    } else {
        let number: int = plain[60] + 256 * plain[61];
        assert(said[4] + 256 * said[5] == number);
    }
}

/// Each data centre, for media or not, has a number of its own.
pub proof fn law_keys_do_not_collide(a: DcKey, b: DcKey)
    ensures
        a.code() == b.code() <==> a.dc == b.dc && a.is_media == b.is_media,
        a.text() == if a.is_media {
            "DC"@ + text::decimal(a.dc as nat) + "m"@
        } else {
            "DC"@ + text::decimal(a.dc as nat)
        },
{
    reveal_strlit("");
    assert("DC"@ + text::decimal(a.dc as nat) + ""@ =~= "DC"@ + text::decimal(a.dc as nat));
}

/// A data centre that could not be reached is given two seconds instead of ten for the next thirty
/// seconds, to the nanosecond.
pub proof fn law_thirty_seconds(before: DcHealth, after: DcHealth, key: DcKey, now: u64, later: u64)
    requires
        after.fail_until@ == before.fail_until@.insert(
            key.code(),
            (now + DC_FAIL_COOLDOWN_NS) as u128,
        ),
    ensures
        after.cooling(key, later) <==> later < now + 30_000_000_000,
        WS_FAIL_TIMEOUT_SECS == 2,
        WS_TIMEOUT_SECS == 10,
{
}

/// What is noted of a data centre when none of its fronts could be connected to. If every one sent
/// the proxy elsewhere, it stays unreachable; else it is given less time for thirty seconds from
/// when the way began. Of no other data centre anything is noted.
pub proof fn law_failure_is_noted(
    dial: Dial,
    before: DcHealth,
    after: DcHealth,
    other: DcKey,
    later: u64,
)
    requires
        dial.given_up(before, after),
    ensures
        dial.redirected && dial.all_redirects ==> after.blacklist@.contains(dial.key),
        !(dial.redirected && dial.all_redirects) ==> {
            &&& after.blacklist@.contains(dial.key) <==> before.blacklist@.contains(dial.key)
            &&& after.cooling(dial.key, later) <==> later < dial.started + 30_000_000_000
        },
        other != dial.key ==> {
            &&& after.blacklist@.contains(other) <==> before.blacklist@.contains(other)
            &&& after.cooling(other, later) == before.cooling(other, later)
        },
{
    law_keys_do_not_collide(dial.key, other);
    let old_list = before.blacklist@;
    let new_list = after.blacklist@;
    if dial.redirected && dial.all_redirects && !old_list.contains(dial.key) {
        assert(new_list[old_list.len() as int] == dial.key);
        if old_list.contains(other) {
            let i = choose|i: int| 0 <= i < old_list.len() && old_list[i] == other;
            assert(new_list[i] == other);
        }
        if new_list.contains(other) && other != dial.key {
            let i = choose|i: int| 0 <= i < new_list.len() && new_list[i] == other;
            assert(old_list[i] == other);
        }
    }
}

/// What is noted of a data centre when there is a connection: it is not given less time any more,
/// and one more WebSocket connection is counted. Nothing else changes.
pub proof fn law_connection_is_noted(
    dial: Dial,
    before: DcHealth,
    after: DcHealth,
    totals: Stats,
    totals_after: Stats,
    other: DcKey,
    later: u64,
)
    requires
        dial.connected(before, after, totals, totals_after),
        totals.connections_ws < u64::MAX,
    ensures
        !after.cooling(dial.key, later),
        other != dial.key ==> after.cooling(other, later) == before.cooling(other, later),
        after.blacklist@ == before.blacklist@,
        totals_after == (Stats { connections_ws: (totals.connections_ws + 1) as u64, ..totals }),
{
    law_keys_do_not_collide(dial.key, other);
}

/// A front is connected to at the data centre's own address, by the front's name, on `/apiws`.
/// Data centres without an address of their own in the settings, and blacklisted ones, are not.
pub proof fn law_fronts_are_asked(
    dial: Dial,
    i: int,
    action: DialAction,
    redirects: Map<u32, String>,
    health: DcHealth,
)
    requires
        0 <= i < dial.domains@.len(),
        dial.connects(i, action),
    ensures
        action matches DialAction::Connect { host, domain, path, timeout_secs } && host@
            == dial.target@ && domain@ == dial.domains@[i]@ && path@ == "/apiws"@ && timeout_secs
            == dial.timeout_secs,
        goes_direct(dial.key, redirects, health) <==> redirects.contains_key(dial.key.dc)
            && !health.blacklist@.contains(dial.key),
{
}

/// The blacklist as it is shown: `none`, or each data centre, separated by commas.
pub proof fn law_blacklist_shown(health: DcHealth)
    ensures
        health.blacklist@.len() == 0 ==> health.blacklist_line() == "none"@,
        health.blacklist@.len() == 1 ==> health.blacklist_line() == health.blacklist@[0].text(),
        health.blacklist@.len() > 0 ==> health.blacklist_line() == text::joined(
            Seq::new(health.blacklist@.len(), |i: int| health.blacklist@[i].text()),
            ", "@,
        ),
{
    if health.blacklist@.len() > 0 {
        assert(health.blacklist@.map_values(|key: DcKey| key.text()) =~= Seq::new(
            health.blacklist@.len(),
            |i: int| health.blacklist@[i].text(),
        ));
    }
}

/// What a step leaves alone: the data centre, the transport, the address, the fronts, the time that
/// each may take and when the way began; where only the stage moves, also what has failed so far
/// and the fallback.
pub proof fn law_plan_is_kept(before: Dial, after: Dial, stage: DialStage, action: DialAction)
    ensures
        after.same_plan(&before) ==> {
            &&& after.key == before.key
            &&& after.proto_int == before.proto_int
            &&& after.target@ == before.target@
            &&& after.domains@ == before.domains@
            &&& after.timeout_secs == before.timeout_secs
            &&& after.started == before.started
        },
        after.moved(&before, stage) ==> {
            &&& after.same_plan(&before)
            &&& after.redirected == before.redirected
            &&& after.all_redirects == before.all_redirects
            &&& after.fallback == before.fallback
            &&& after.stage == stage
        },
        after.turns(action) ==> after.stage is Turning && action is BeginFallback,
{
}

/// A data centre is given less time exactly as long as a time for it is noted that has not come.
pub proof fn law_cooling(health: DcHealth, key: DcKey, now: u64)
    ensures
        !health.fail_until@.contains_key(key.code()) ==> !health.cooling(key, now),
        health.fail_until@.contains_key(key.code()) ==> (health.cooling(key, now) <==> now
            < health.fail_until@[key.code()]),
{
}

} // verus!
