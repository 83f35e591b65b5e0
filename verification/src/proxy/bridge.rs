//! Carries a session: re-encrypts what the client sends for the relay, and the other way round.

use vstd::prelude::*;

use crate::proxy::crypto::AesCtr;
use crate::proxy::handshake::CryptoContext;
use crate::proxy::splitter::{MsgSplitter, SplitterState};
use crate::proxy::stats::Stats;
use crate::proxy::{crypto, handshake, splitter};

verus! {

/// What one session has carried.
#[derive(Debug, Clone, Copy, PartialEq, Eq, Structural)]
pub struct SessionStats {
    pub bytes_up: u64,
    pub bytes_down: u64,
    pub packets_up: u64,
    pub packets_down: u64,
}

impl SessionStats {
    /// Nothing carried yet.
    pub fn new() -> (s: Self)
        ensures
            s == (SessionStats { bytes_up: 0, bytes_down: 0, packets_up: 0, packets_down: 0 }),
    {
        SessionStats { bytes_up: 0, bytes_down: 0, packets_up: 0, packets_down: 0 }
    }

    /// The counts after `bytes` more bytes in `packets` more packets towards the relay. Counts
    /// wrap at 64 bits.
    pub open spec fn sent(self, bytes: nat, packets: nat) -> SessionStats {
        SessionStats {
            bytes_up: wrapped_sum(self.bytes_up, bytes),
            packets_up: wrapped_sum(self.packets_up, packets),
            ..self
        }
    }

    /// The counts after one more packet of `bytes` bytes towards the client.
    pub open spec fn received(self, bytes: nat) -> SessionStats {
        SessionStats {
            bytes_down: wrapped_sum(self.bytes_down, bytes),
            packets_down: wrapped_sum(self.packets_down, 1),
            ..self
        }
    }
}

impl Default for SessionStats {
    fn default() -> (s: Self)
        ensures
            s == (SessionStats { bytes_up: 0, bytes_down: 0, packets_up: 0, packets_down: 0 }),
    {
        SessionStats::new()
    }
}

/// A 64-bit counter after `n` more.
pub open spec fn wrapped_sum(count: u64, n: nat) -> u64 {
    ((count + n) % 0x1_0000_0000_0000_0000) as u64
}

/// Adds to a 64-bit counter.
fn count_up(count: u64, n: usize) -> (sum: u64)
    ensures
        sum == wrapped_sum(count, n as nat),
        count + n < 0x1_0000_0000_0000_0000 ==> sum == count + n,
{
    count.wrapping_add(n as u64)
}

impl CryptoContext {
    /// What goes to the relay when the client sends `data`.
    pub open spec fn up(&self, data: Seq<u8>) -> Seq<u8> {
        self.tg_enc.output(self.clt_dec.output(data))
    }

    /// What goes to the client when the relay sends `data`.
    pub open spec fn down(&self, data: Seq<u8>) -> Seq<u8> {
        self.clt_enc.output(self.tg_dec.output(data))
    }

    /// The ciphers after `len` bytes from the client.
    pub open spec fn after_up(&self, len: nat) -> CryptoContext {
        CryptoContext {
            clt_dec: self.clt_dec.advanced(len),
            tg_enc: self.tg_enc.advanced(len),
            ..*self
        }
    }

    /// The ciphers after `len` bytes from the relay.
    pub open spec fn after_down(&self, len: nat) -> CryptoContext {
        CryptoContext {
            tg_dec: self.tg_dec.advanced(len),
            clt_enc: self.clt_enc.advanced(len),
            ..*self
        }
    }

    /// All four key streams reach `len` bytes further.
    pub open spec fn has_room(&self, len: nat) -> bool {
        &&& self.clt_dec.has_room(len)
        &&& self.clt_enc.has_room(len)
        &&& self.tg_enc.has_room(len)
        &&& self.tg_dec.has_room(len)
    }

    /// Whether all four key streams reach `len` bytes further.
    pub fn can_carry(&self, len: usize) -> (ok: bool)
        ensures
            ok == self.has_room(len as nat),
            ok == (self.clt_dec.pos + len <= u128::MAX && self.clt_enc.pos + len <= u128::MAX
                && self.tg_enc.pos + len <= u128::MAX && self.tg_dec.pos + len <= u128::MAX),
    {
        self.clt_dec.can_apply(len) && self.clt_enc.can_apply(len) && self.tg_enc.can_apply(len)
            && self.tg_dec.can_apply(len)
    }

    /// Re-encrypts what the client sent for the relay.
    pub fn reencrypt_up(&mut self, data: Vec<u8>) -> (out: Vec<u8>)
        requires
            old(self).has_room(data@.len()),
        ensures
            out@ == old(self).up(data@),
            *final(self) == old(self).after_up(data@.len()),
            out@.len() == data@.len(),
            forall|i: int|
                0 <= i < data@.len() ==> #[trigger] out@[i] == (data@[i] ^ crypto::ctr_keystream(
                    old(self).clt_dec.key@,
                    old(self).clt_dec.iv@,
                    (old(self).clt_dec.pos + i) as nat,
                )) ^ crypto::ctr_keystream(
                    old(self).tg_enc.key@,
                    old(self).tg_enc.iv@,
                    (old(self).tg_enc.pos + i) as nat,
                ),
    {
        let mut out = data;
        self.clt_dec.apply_keystream(&mut out);
        self.tg_enc.apply_keystream(&mut out);
        out
    }

    /// Re-encrypts what the relay sent for the client.
    pub fn reencrypt_down(&mut self, data: Vec<u8>) -> (out: Vec<u8>)
        requires
            old(self).has_room(data@.len()),
        ensures
            out@ == old(self).down(data@),
            *final(self) == old(self).after_down(data@.len()),
            out@.len() == data@.len(),
            forall|i: int|
                0 <= i < data@.len() ==> #[trigger] out@[i] == (data@[i] ^ crypto::ctr_keystream(
                    old(self).tg_dec.key@,
                    old(self).tg_dec.iv@,
                    (old(self).tg_dec.pos + i) as nat,
                )) ^ crypto::ctr_keystream(
                    old(self).clt_enc.key@,
                    old(self).clt_enc.iv@,
                    (old(self).clt_enc.pos + i) as nat,
                ),
    {
        let mut out = data;
        self.tg_dec.apply_keystream(&mut out);
        self.clt_enc.apply_keystream(&mut out);
        out
    }
}

/// What happens on the two sides of a bridge.
#[derive(Debug)]
pub enum BridgeEvent {
    /// The client sent bytes. None at all: it has closed its side.
    FromClient(Vec<u8>),
    /// Reading from the client failed.
    ClientFailed,
    /// The relay sent bytes.
    FromRelay(Vec<u8>),
    /// The relay has closed its side, or reading from it failed.
    RelayGone,
    /// What was to be sent could not be sent.
    SendFailed,
}

impl BridgeEvent {
    /// The bytes that came in.
    pub open spec fn data(self) -> Seq<u8> {
        match self {
            BridgeEvent::FromClient(data) => data@,
            BridgeEvent::FromRelay(data) => data@,
            _ => Seq::empty(),
        }
    }
}

/// What a bridge does next.
#[derive(Debug)]
pub enum BridgeAction {
    /// Send these bytes to the relay, in one message.
    ToRelay(Vec<u8>),
    /// Send these packets to the relay, one message each.
    ToRelayInParts(Vec<Vec<u8>>),
    /// Send these bytes to the client.
    ToClient(Vec<u8>),
    /// Close the session.
    Close,
}

/// One step of the bridge between a client and a WebSocket relay. What the client sends is
/// re-encrypted, cut into packets if there is a splitter, and sent to the relay; what the relay
/// sends is re-encrypted and sent to the client. The session ends when either side does.
pub fn bridge_ws_reencrypt_halves(
    ctx: &mut CryptoContext,
    splitter: &mut Option<MsgSplitter>,
    session: &mut SessionStats,
    totals: &mut Stats,
    event: BridgeEvent,
) -> (action: BridgeAction)
    requires
        old(ctx).has_room(event.data().len()),
        *old(splitter) matches Some(sp) ==> sp@.wf() && sp@.dec.has_room(event.data().len()),
    ensures
        *final(splitter) matches Some(sp) ==> sp@.wf(),
        *final(splitter) is Some <==> *old(splitter) is Some,
        match event {
            BridgeEvent::FromClient(data) => {
                if data@.len() == 0 {
                    &&& action is Close
                    &&& *final(ctx) == *old(ctx)
                    &&& *final(splitter) == *old(splitter)
                    &&& *final(session) == *old(session)
                    &&& *final(totals) == *old(totals)
                } else {
                    let out = old(ctx).up(data@);
                    &&& *final(ctx) == old(ctx).after_up(data@.len())
                    &&& *final(totals) == (Stats {
                        bytes_up: wrapped_sum(old(totals).bytes_up, data@.len()),
                        ..*old(totals)
                    })
                    &&& match *old(splitter) {
                        None => {
                            &&& action matches BridgeAction::ToRelay(sent)
                            &&& sent@ == out
                            &&& *final(session) == old(session).sent(data@.len(), 1)
                        },
                        Some(sp) => {
                            &&& action matches BridgeAction::ToRelayInParts(parts)
                            &&& splitter::part_views(parts@) == sp@.parts(out)
                            &&& final(splitter)->0@ == sp@.after(out)
                            &&& *final(session) == old(session).sent(
                                data@.len(),
                                sp@.parts(out).len(),
                            )
                        },
                    }
                }
            },
            BridgeEvent::FromRelay(data) => {
                &&& action matches BridgeAction::ToClient(sent)
                &&& sent@ == old(ctx).down(data@)
                &&& *final(ctx) == old(ctx).after_down(data@.len())
                &&& *final(splitter) == *old(splitter)
                &&& *final(session) == old(session).received(data@.len())
                &&& *final(totals) == (Stats {
                    bytes_down: wrapped_sum(old(totals).bytes_down, data@.len()),
                    ..*old(totals)
                })
            },
            _ => {
                &&& action is Close
                &&& *final(ctx) == *old(ctx)
                &&& *final(splitter) == *old(splitter)
                &&& *final(session) == *old(session)
                &&& *final(totals) == *old(totals)
            },
        },
{
    match event {
        BridgeEvent::FromClient(data) => {
            let n: usize = data.len();
            if n == 0 {
                return BridgeAction::Close;
            }
            session.bytes_up = count_up(session.bytes_up, n);
            totals.bytes_up = count_up(totals.bytes_up, n);
            let out = ctx.reencrypt_up(data);
            match splitter {
                Some(sp) => {
                    let parts = sp.split(out.as_slice());
                    session.packets_up = count_up(session.packets_up, parts.len());
                    BridgeAction::ToRelayInParts(parts)
                },
                None => {
                    session.packets_up = count_up(session.packets_up, 1);
                    BridgeAction::ToRelay(out)
                },
            }
        },
        BridgeEvent::FromRelay(data) => {
            session.bytes_down = count_up(session.bytes_down, data.len());
            session.packets_down = count_up(session.packets_down, 1);
            totals.bytes_down = count_up(totals.bytes_down, data.len());
            BridgeAction::ToClient(ctx.reencrypt_down(data))
        },
        _ => BridgeAction::Close,
    }
}

/// One step of the bridge between a client and a relay over TCP. There, no bytes from the relay
/// mean that it has closed its side.
pub fn bridge_tcp_reencrypt(
    ctx: &mut CryptoContext,
    session: &mut SessionStats,
    totals: &mut Stats,
    event: BridgeEvent,
) -> (action: BridgeAction)
    requires
        old(ctx).has_room(event.data().len()),
    ensures
        match event {
            BridgeEvent::FromClient(data) if data@.len() > 0 => {
                &&& action matches BridgeAction::ToRelay(sent)
                &&& sent@ == old(ctx).up(data@)
                &&& *final(ctx) == old(ctx).after_up(data@.len())
                &&& *final(session) == old(session).sent(data@.len(), 1)
                &&& *final(totals) == (Stats {
                    bytes_up: wrapped_sum(old(totals).bytes_up, data@.len()),
                    ..*old(totals)
                })
            },
            BridgeEvent::FromRelay(data) if data@.len() > 0 => {
                &&& action matches BridgeAction::ToClient(sent)
                &&& sent@ == old(ctx).down(data@)
                &&& *final(ctx) == old(ctx).after_down(data@.len())
                &&& *final(session) == old(session).received(data@.len())
                &&& *final(totals) == (Stats {
                    bytes_down: wrapped_sum(old(totals).bytes_down, data@.len()),
                    ..*old(totals)
                })
            },
            _ => {
                &&& action is Close
                &&& *final(ctx) == *old(ctx)
                &&& *final(session) == *old(session)
                &&& *final(totals) == *old(totals)
            },
        },
{
    match event {
        BridgeEvent::FromRelay(data) => {
            if data.len() == 0 {
                return BridgeAction::Close;
            }
            let mut uncut: Option<MsgSplitter> = None;
            bridge_ws_reencrypt_halves(
                ctx,
                &mut uncut,
                session,
                totals,
                BridgeEvent::FromRelay(data),
            )
        },
        other => {
            let mut uncut: Option<MsgSplitter> = None;
            bridge_ws_reencrypt_halves(ctx, &mut uncut, session, totals, other)
        },
    }
}

/// What a client encrypts for the proxy, the relay decrypts to the same bytes.
pub proof fn law_client_reaches_relay(ctx: CryptoContext, plain: Seq<u8>)
    ensures
        ctx.tg_enc.output(ctx.up(ctx.clt_dec.output(plain))) == plain,
{
    let c = ctx.clt_dec;
    crypto::law_ctr_round_trip(c.key@, c.iv@, c.pos as nat, plain);
    let t = ctx.tg_enc;
    crypto::law_ctr_round_trip(t.key@, t.iv@, t.pos as nat, plain);
}

/// What the relay encrypts for the proxy, the client decrypts to the same bytes.
pub proof fn law_relay_reaches_client(ctx: CryptoContext, plain: Seq<u8>)
    ensures
        ctx.clt_enc.output(ctx.down(ctx.tg_dec.output(plain))) == plain,
{
    let t = ctx.tg_dec;
    crypto::law_ctr_round_trip(t.key@, t.iv@, t.pos as nat, plain);
    let c = ctx.clt_enc;
    crypto::law_ctr_round_trip(c.key@, c.iv@, c.pos as nat, plain);
}

/// In what pieces a client's bytes come in makes no difference to what the relay gets.
pub proof fn law_up_in_pieces(ctx: CryptoContext, a: Seq<u8>, b: Seq<u8>)
    requires
        ctx.has_room(a.len() + b.len()),
    ensures
        ctx.up(a + b) == ctx.up(a) + ctx.after_up(a.len()).up(b),
        ctx.after_up(a.len()).after_up(b.len()) == ctx.after_up(a.len() + b.len()),
{
    let c = ctx.clt_dec;
    let t = ctx.tg_enc;
    crypto::law_ctr_split(c.key@, c.iv@, c.pos as nat, a, b);
    crypto::law_ctr_split(
        t.key@,
        t.iv@,
        t.pos as nat,
        c.output(a),
        c.advanced(a.len()).output(b),
    );
}

/// In what pieces a relay's bytes come in makes no difference to what the client gets.
pub proof fn law_down_in_pieces(ctx: CryptoContext, a: Seq<u8>, b: Seq<u8>)
    requires
        ctx.has_room(a.len() + b.len()),
    ensures
        ctx.down(a + b) == ctx.down(a) + ctx.after_down(a.len()).down(b),
        ctx.after_down(a.len()).after_down(b.len()) == ctx.after_down(a.len() + b.len()),
{
    let t = ctx.tg_dec;
    let c = ctx.clt_enc;
    crypto::law_ctr_split(t.key@, t.iv@, t.pos as nat, a, b);
    crypto::law_ctr_split(
        c.key@,
        c.iv@,
        c.pos as nat,
        t.output(a),
        t.advanced(a.len()).output(b),
    );
}

/// Two ciphers with the same key, counter block and position.
pub open spec fn same_cipher(a: AesCtr, b: AesCtr) -> bool {
    handshake::cipher_is(a, b.key@, b.iv@, b.pos as nat)
}

/// A splitter whose cipher stands where the cipher towards the relay stands sees the plain text
/// that the client sent, and the two stay in step until the splitter gives up cutting.
pub proof fn law_splitter_sees_plain_text(
    ctx: CryptoContext,
    state: SplitterState,
    data: Seq<u8>,
)
    requires
        same_cipher(state.dec, ctx.tg_enc),
    ensures
        state.dec.output(ctx.up(data)) == ctx.clt_dec.output(data),
        !state.disabled ==> same_cipher(
            state.after(ctx.up(data)).dec,
            ctx.after_up(data.len()).tg_enc,
        ),
{
    let t = ctx.tg_enc;
    crypto::law_ctr_round_trip(t.key@, t.iv@, t.pos as nat, ctx.clt_dec.output(data));
}

/// A fresh context and a fresh splitter for one relay handshake start in step.
pub proof fn law_fresh_splitter_in_step(
    ctx: CryptoContext,
    prekey_iv: Seq<u8>,
    secret: Seq<u8>,
    init: Seq<u8>,
    state: SplitterState,
)
    requires
        init.len() >= 56,
        ctx.fresh(prekey_iv, secret, init),
        handshake::cipher_is(state.dec, init.subrange(8, 40), init.subrange(40, 56), 64),
    ensures
        same_cipher(state.dec, ctx.tg_enc),
{
    let relay = init.subrange(8, 56);
    assert(relay.subrange(0, 32) =~= init.subrange(8, 40));
    assert(relay.subrange(32, 48) =~= init.subrange(40, 56));
}

/// What a client sends right behind its handshake, under the key that it derives from the secret,
/// the relay reads right behind the relay handshake, under the key in that handshake.
pub proof fn law_session_carries_up(
    ctx: CryptoContext,
    prekey_iv: Seq<u8>,
    secret: Seq<u8>,
    init: Seq<u8>,
    plain: Seq<u8>,
)
    requires
        prekey_iv.len() == 48,
        init.len() >= 56,
        ctx.fresh(prekey_iv, secret, init),
    ensures
        ({
            let sent = crypto::ctr_stream(
                handshake::client_key(prekey_iv.subrange(0, 32), secret),
                prekey_iv.subrange(32, 48),
                64,
                plain,
            );
            crypto::ctr_stream(init.subrange(8, 40), init.subrange(40, 56), 64, ctx.up(sent))
                == plain
        }),
{
    let relay = init.subrange(8, 56);
    assert(relay.subrange(0, 32) =~= init.subrange(8, 40));
    assert(relay.subrange(32, 48) =~= init.subrange(40, 56));
    law_client_reaches_relay(ctx, plain);
}

/// What the relay sends first, under the bytes of the relay handshake read backwards, the client
/// reads under the bytes of its own handshake read backwards.
pub proof fn law_session_carries_down(
    ctx: CryptoContext,
    prekey_iv: Seq<u8>,
    secret: Seq<u8>,
    init: Seq<u8>,
    plain: Seq<u8>,
)
    requires
        prekey_iv.len() == 48,
        init.len() >= 56,
        ctx.fresh(prekey_iv, secret, init),
    ensures
        ({
            let relay_back = init.subrange(8, 56).reverse();
            let client_back = prekey_iv.reverse();
            let sent = crypto::ctr_stream(
                relay_back.subrange(0, 32),
                relay_back.subrange(32, 48),
                0,
                plain,
            );
            crypto::ctr_stream(
                handshake::client_key(client_back.subrange(0, 32), secret),
                client_back.subrange(32, 48),
                0,
                ctx.down(sent),
            ) == plain
        }),
{
    law_relay_reaches_client(ctx, plain);
}

/// Every byte from the client loses the client's key stream and gets the relay's, each at its own
/// position; only the two ciphers in that direction move on, by as many bytes.
pub proof fn law_up_byte_by_byte(ctx: CryptoContext, data: Seq<u8>, i: int)
    requires
        0 <= i < data.len(),
        ctx.has_room(data.len()),
    ensures
        ctx.up(data).len() == data.len(),
        ctx.up(data)[i] == (data[i] ^ crypto::ctr_keystream(
            ctx.clt_dec.key@,
            ctx.clt_dec.iv@,
            (ctx.clt_dec.pos + i) as nat,
        )) ^ crypto::ctr_keystream(
            ctx.tg_enc.key@,
            ctx.tg_enc.iv@,
            (ctx.tg_enc.pos + i) as nat,
        ),
        ctx.after_up(data.len()).clt_dec.pos == ctx.clt_dec.pos + data.len(),
        ctx.after_up(data.len()).clt_dec.key == ctx.clt_dec.key,
        ctx.after_up(data.len()).clt_dec.iv == ctx.clt_dec.iv,
        ctx.after_up(data.len()).tg_enc.pos == ctx.tg_enc.pos + data.len(),
        ctx.after_up(data.len()).tg_enc.key == ctx.tg_enc.key,
        ctx.after_up(data.len()).tg_enc.iv == ctx.tg_enc.iv,
        ctx.after_up(data.len()).clt_enc == ctx.clt_enc,
        ctx.after_up(data.len()).tg_dec == ctx.tg_dec,
{
}

/// Every byte from the relay loses the relay's key stream and gets the client's, each at its own
/// position; only the two ciphers in that direction move on, by as many bytes.
pub proof fn law_down_byte_by_byte(ctx: CryptoContext, data: Seq<u8>, i: int)
    requires
        0 <= i < data.len(),
        ctx.has_room(data.len()),
    ensures
        ctx.down(data).len() == data.len(),
        ctx.down(data)[i] == (data[i] ^ crypto::ctr_keystream(
            ctx.tg_dec.key@,
            ctx.tg_dec.iv@,
            (ctx.tg_dec.pos + i) as nat,
        )) ^ crypto::ctr_keystream(
            ctx.clt_enc.key@,
            ctx.clt_enc.iv@,
            (ctx.clt_enc.pos + i) as nat,
        ),
        ctx.after_down(data.len()).tg_dec.pos == ctx.tg_dec.pos + data.len(),
        ctx.after_down(data.len()).tg_dec.key == ctx.tg_dec.key,
        ctx.after_down(data.len()).tg_dec.iv == ctx.tg_dec.iv,
        ctx.after_down(data.len()).clt_enc.pos == ctx.clt_enc.pos + data.len(),
        ctx.after_down(data.len()).clt_enc.key == ctx.clt_enc.key,
        ctx.after_down(data.len()).clt_enc.iv == ctx.clt_enc.iv,
        ctx.after_down(data.len()).clt_dec == ctx.clt_dec,
        ctx.after_down(data.len()).tg_enc == ctx.tg_enc,
{
}

/// A client that encrypts behind its handshake under the SHA-256 digest of its pre-key and the
/// secret is read by a relay that decrypts behind the relay handshake under the key in it, byte by
/// byte; and what the relay encrypts under those bytes read backwards, the client reads under its
/// own read backwards.
pub proof fn law_client_and_relay_understand_each_other(
    ctx: CryptoContext,
    prekey_iv: Seq<u8>,
    secret: Seq<u8>,
    init: Seq<u8>,
    plain: Seq<u8>,
    sent: Seq<u8>,
    i: int,
)
    requires
        prekey_iv.len() == 48,
        init.len() >= 56,
        ctx.fresh(prekey_iv, secret, init),
        sent.len() == plain.len(),
        0 <= i < plain.len(),
    ensures
        sent[i] == plain[i] ^ crypto::ctr_keystream(
            crypto::sha256(prekey_iv.subrange(0, 32) + secret),
            prekey_iv.subrange(32, 48),
            (64 + i) as nat,
        ) ==> ctx.up(sent)[i] ^ crypto::ctr_keystream(
            init.subrange(8, 40),
            init.subrange(40, 56),
            (64 + i) as nat,
        ) == plain[i],
        sent[i] == plain[i] ^ crypto::ctr_keystream(
            Seq::new(32, |k: int| init[55 - k]),
            Seq::new(16, |k: int| init[23 - k]),
            i as nat,
        ) ==> ctx.down(sent)[i] ^ crypto::ctr_keystream(
            crypto::sha256(Seq::new(32, |k: int| prekey_iv[47 - k]) + secret),
            Seq::new(16, |k: int| prekey_iv[15 - k]),
            i as nat,
        ) == plain[i],
{
    handshake::law_fresh_ciphers(ctx, prekey_iv, secret, init);
    let p = plain[i];
    let a = crypto::ctr_keystream(ctx.clt_dec.key@, ctx.clt_dec.iv@, (64 + i) as nat);
    let b = crypto::ctr_keystream(ctx.tg_enc.key@, ctx.tg_enc.iv@, (64 + i) as nat);
    assert((((p ^ a) ^ a) ^ b) ^ b == p) by (bit_vector);
    let c = crypto::ctr_keystream(ctx.tg_dec.key@, ctx.tg_dec.iv@, i as nat);
    let d = crypto::ctr_keystream(ctx.clt_enc.key@, ctx.clt_enc.iv@, i as nat);
    assert((((p ^ c) ^ c) ^ d) ^ d == p) by (bit_vector);
}

/// Counters count: below 64 bits by plain addition, each direction for itself.
pub proof fn law_session_counts(s: SessionStats, bytes: nat, packets: nat)
    requires
        s.bytes_up + bytes < 0x1_0000_0000_0000_0000,
        s.packets_up + packets < 0x1_0000_0000_0000_0000,
        s.bytes_down + bytes < 0x1_0000_0000_0000_0000,
        s.packets_down + 1 < 0x1_0000_0000_0000_0000,
    ensures
        s.sent(bytes, packets).bytes_up == s.bytes_up + bytes,
        s.sent(bytes, packets).packets_up == s.packets_up + packets,
        s.sent(bytes, packets).bytes_down == s.bytes_down,
        s.sent(bytes, packets).packets_down == s.packets_down,
        s.received(bytes).bytes_down == s.bytes_down + bytes,
        s.received(bytes).packets_down == s.packets_down + 1,
        s.received(bytes).bytes_up == s.bytes_up,
        s.received(bytes).packets_up == s.packets_up,
{
}

/// A counter that runs over starts again at zero.
pub proof fn law_counter_wraps(count: u64, n: nat)
    requires
        n < 0x1_0000_0000_0000_0000,
    ensures
        wrapped_sum(count, n) == if count + n < 0x1_0000_0000_0000_0000 {
            count + n
        } else {
            count + n - 0x1_0000_0000_0000_0000
        },
{
}

} // verus!
