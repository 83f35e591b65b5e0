//! The obfuscated MTProto handshake, and the ciphers of a session.

use vstd::prelude::*;
use vstd::slice::{slice_subrange, slice_to_vec};

use crate::proxy::bytes::{array_at, same_bytes};
use crate::proxy::crypto::{aes_ctr_new, sha256_digest, AesCtr};
use crate::proxy::random::random_bytes;
pub use crate::proxy::splitter::MsgSplitter;
use crate::proxy::utils::{
    DC_IDX_POS, HANDSHAKE_LEN, IV_LEN, KEY_LEN, PREKEY_LEN, PROTO_TAG_ABRIDGED,
    PROTO_TAG_INTERMEDIATE, PROTO_TAG_POS, PROTO_TAG_SECURE, RESERVED_CONTINUE,
    RESERVED_FIRST_BYTES, RESERVED_STARTS, SKIP_LEN, ZERO_64,
};
use crate::proxy::{bytes, crypto};

verus! {

/// The first two bytes of `s` as a signed little-endian number.
pub open spec fn signed_index(s: Seq<u8>) -> int {
    let v = bytes::le_value(s.take(2)) as int;
    if v < 32768 {
        v
    } else {
        v - 65536
    }
}

/// The two little-endian bytes of a signed number.
pub open spec fn index_bytes(index: int) -> Seq<u8> {
    let v = if index < 0 {
        index + 65536
    } else {
        index
    };
    seq![(v % 256) as u8, (v / 256) as u8]
}

/// The three transports that a client may ask for.
pub open spec fn is_proto_tag(tag: Seq<u8>) -> bool {
    ||| tag == PROTO_TAG_ABRIDGED@
    ||| tag == PROTO_TAG_INTERMEDIATE@
    ||| tag == PROTO_TAG_SECURE@
}

/// The key that a client derives from its pre-key and the proxy's secret.
pub open spec fn client_key(prekey: Seq<u8>, secret: Seq<u8>) -> Seq<u8> {
    crypto::sha256(prekey + secret)
}

/// The handshake as the client had it before it encrypted it.
pub open spec fn handshake_plain(handshake: Seq<u8>, secret: Seq<u8>) -> Seq<u8> {
    crypto::ctr_stream(
        client_key(handshake.subrange(8, 40), secret),
        handshake.subrange(40, 56),
        0,
        handshake,
    )
}

/// Whether the proxy takes the handshake: it is long enough and decrypts to a known transport.
pub open spec fn accepts_handshake(handshake: Seq<u8>, secret: Seq<u8>) -> bool {
    &&& handshake.len() >= HANDSHAKE_LEN
    &&& is_proto_tag(handshake_plain(handshake, secret).subrange(56, 60))
}

/// The data centre index that the client asks for: negative for a media one.
pub open spec fn handshake_dc_index(handshake: Seq<u8>, secret: Seq<u8>) -> int {
    signed_index(handshake_plain(handshake, secret).subrange(60, 62))
}

/// The absolute value of a data centre index.
pub open spec fn index_number(index: int) -> int {
    if index < 0 {
        -index
    } else {
        index
    }
}

/// The SHA-256 digest of `prekey` followed by `secret`.
fn derive_client_key(prekey: &[u8], secret: &[u8]) -> (key: Vec<u8>)
    ensures
        key@ == client_key(prekey@, secret@),
        key@ == crypto::sha256(prekey@ + secret@),
        key@.len() == 32,
{
    let mut joined: Vec<u8> = slice_to_vec(prekey);
    joined.extend_from_slice(secret);
    assert(joined@ =~= prekey@ + secret@);
    sha256_digest(joined.as_slice())
}

/// Decrypts a client's handshake. On success gives the data centre, whether it is a media one,
/// the transport tag, and the 48 bytes of pre-key and counter block that the client sent.
pub fn try_handshake(handshake: &[u8], secret: &[u8]) -> (out: Option<
    (u32, bool, [u8; 4], [u8; 48]),
>)
    ensures
        out is Some <==> accepts_handshake(handshake@, secret@),
        out matches Some((dc, is_media, tag, prekey_iv)) ==> {
            let index = handshake_dc_index(handshake@, secret@);
            &&& dc == index_number(index)
            &&& is_media == (index < 0)
            &&& tag@ == handshake_plain(handshake@, secret@).subrange(56, 60)
            &&& prekey_iv@ == handshake@.subrange(8, 56)
        },
        handshake@.len() < 64 ==> out is None,
        handshake@.len() >= 64 ==> {
            let key = crypto::sha256(handshake@.subrange(8, 40) + secret@);
            let iv = handshake@.subrange(40, 56);
            let plain = Seq::new(
                64,
                |i: int| handshake@[i] ^ crypto::ctr_keystream(key, iv, i as nat),
            );
            let asked = plain.subrange(56, 60);
            let number: int = plain[60] + 256 * plain[61];
            &&& out is Some <==> (asked == seq![0xefu8, 0xef, 0xef, 0xef] || asked == seq![
                0xeeu8,
                0xee,
                0xee,
                0xee,
            ] || asked == seq![0xddu8, 0xdd, 0xdd, 0xdd])
            &&& out matches Some((dc, is_media, tag, _)) ==> {
                &&& tag@ == asked
                &&& is_media == (number >= 32768)
                &&& dc == if number >= 32768 {
                    65536 - number
                } else {
                    number
                }
            }
        },
{
    if handshake.len() < HANDSHAKE_LEN {
        return None;
    }
    let prekey = slice_subrange(handshake, SKIP_LEN, SKIP_LEN + PREKEY_LEN);
    let iv = slice_subrange(handshake, SKIP_LEN + PREKEY_LEN, SKIP_LEN + PREKEY_LEN + IV_LEN);
    let key = derive_client_key(prekey, secret);
    let mut decryptor = aes_ctr_new(key.as_slice(), iv);
    let mut decrypted: Vec<u8> = slice_to_vec(handshake);
    decryptor.apply_keystream(&mut decrypted);
    assert(decrypted@ == handshake_plain(handshake@, secret@));
    proof {
        law_handshake_read(handshake@, secret@);
    }

    let proto_tag: [u8; 4] = array_at::<4>(decrypted.as_slice(), PROTO_TAG_POS);
    if !same_bytes(proto_tag.as_slice(), PROTO_TAG_ABRIDGED.as_slice()) && !same_bytes(
        proto_tag.as_slice(),
        PROTO_TAG_INTERMEDIATE.as_slice(),
    ) && !same_bytes(proto_tag.as_slice(), PROTO_TAG_SECURE.as_slice()) {
        return None;
    }
    let raw: u32 = decrypted[DC_IDX_POS] as u32 + 256 * decrypted[DC_IDX_POS + 1] as u32;
    proof {
        let two = decrypted@.subrange(60, 62);
        assert(two.take(2) =~= two);
        bytes::lemma_le_value_2(two);
    }
    let is_media: bool = raw >= 32768;
    let dc_id: u32 = if is_media {
        65536 - raw
    } else {
        raw
    };
    let prekey_iv: [u8; 48] = array_at::<48>(handshake, SKIP_LEN);
    Some((dc_id, is_media, proto_tag, prekey_iv))
}

/// Openings that a relay handshake must not have: they belong to other protocols.
pub open spec fn is_reserved_start(nonce: Seq<u8>) -> bool {
    ||| exists|i: int|
        0 <= i < RESERVED_FIRST_BYTES@.len() && nonce[0] == #[trigger] RESERVED_FIRST_BYTES@[i]
    ||| exists|i: int|
        0 <= i < RESERVED_STARTS@.len() && nonce.subrange(0, 4) == (#[trigger] RESERVED_STARTS@[i])@
    ||| nonce.subrange(4, 8) == RESERVED_CONTINUE@
}

/// What a relay handshake says at its end: the transport tag, the data centre index, two zeros.
pub open spec fn relay_tail(proto_tag: Seq<u8>, dc_idx: int) -> Seq<u8> {
    proto_tag + index_bytes(dc_idx) + seq![0u8, 0u8]
}

/// The relay handshake that `nonce` gives: its first 56 bytes in the clear, the key and the
/// counter block among them, and what it says encrypted under these.
pub open spec fn relay_init(nonce: Seq<u8>, proto_tag: Seq<u8>, dc_idx: int) -> Seq<u8> {
    nonce.take(56) + crypto::ctr_stream(
        nonce.subrange(8, 40),
        nonce.subrange(40, 56),
        56,
        relay_tail(proto_tag, dc_idx),
    )
}

/// The relay handshake as a receiver decrypts it, who takes the key and the counter block from
/// the handshake itself.
pub open spec fn relay_view(init: Seq<u8>) -> Seq<u8> {
    crypto::ctr_stream(init.subrange(8, 40), init.subrange(40, 56), 0, init)
}

/// Whether `nonce` opens like another protocol.
fn has_reserved_start(nonce: &[u8]) -> (reserved: bool)
    requires
        nonce@.len() == HANDSHAKE_LEN,
    ensures
        reserved == is_reserved_start(nonce@),
{
    let mut i: usize = 0;
    while i < 1
        invariant
            i <= 1,
            nonce@.len() == HANDSHAKE_LEN,
            forall|j: int| 0 <= j < i ==> nonce@[0] != #[trigger] RESERVED_FIRST_BYTES@[j],
        decreases 1 - i,
    {
        if nonce[0] == RESERVED_FIRST_BYTES[i] {
            assert(nonce@[0] == RESERVED_FIRST_BYTES@[i as int]);
            return true;
        }
        i = i + 1;
    }
    let start = slice_subrange(nonce, 0, 4);
    let mut k: usize = 0;
    while k < 6
        invariant
            k <= 6,
            start@ == nonce@.subrange(0, 4),
            forall|j: int| 0 <= j < k ==> start@ != (#[trigger] RESERVED_STARTS@[j])@,
        decreases 6 - k,
    {
        if same_bytes(start, RESERVED_STARTS[k].as_slice()) {
            assert(start@ == RESERVED_STARTS@[k as int]@);
            return true;
        }
        k = k + 1;
    }
    same_bytes(slice_subrange(nonce, 4, 8), RESERVED_CONTINUE.as_slice())
}

/// The relay handshake for a given nonce.
pub fn relay_init_from(nonce: &[u8], proto_tag: &[u8; 4], dc_idx: i16) -> (out: Vec<u8>)
    requires
        nonce@.len() == HANDSHAKE_LEN,
    ensures
        out@ == relay_init(nonce@, proto_tag@, dc_idx as int),
        out@.len() == 64,
        out@.take(56) == nonce@.take(56),
{
    let key = slice_subrange(nonce, SKIP_LEN, SKIP_LEN + PREKEY_LEN);
    let iv = slice_subrange(nonce, SKIP_LEN + PREKEY_LEN, SKIP_LEN + PREKEY_LEN + IV_LEN);
    let mut encryptor = aes_ctr_new(key, iv);
    let mut out: Vec<u8> = slice_to_vec(slice_subrange(nonce, 0, PROTO_TAG_POS));
    let mut skipped: Vec<u8> = slice_to_vec(out.as_slice());
    encryptor.apply_keystream(&mut skipped);
    let mut tail: Vec<u8> = slice_to_vec(proto_tag.as_slice());
    let raw: u32 = if dc_idx < 0 {
        (dc_idx as i32 + 65536) as u32
    } else {
        dc_idx as u32
    };
    tail.push((raw % 256) as u8);
    tail.push((raw / 256) as u8);
    tail.push(0);
    tail.push(0);
    assert(tail@ =~= relay_tail(proto_tag@, dc_idx as int));
    encryptor.apply_keystream(&mut tail);
    out.extend_from_slice(tail.as_slice());
    assert(out@ =~= relay_init(nonce@, proto_tag@, dc_idx as int));
    out
}

/// Makes the handshake that the proxy sends to the relay, from a random nonce that does not open
/// like another protocol. The relay, which takes the key from it, reads the transport tag and the
/// data centre index in it.
pub fn generate_relay_init(proto_tag: &[u8; 4], dc_idx: i16) -> (out: Vec<u8>)
    ensures
        out@.len() == HANDSHAKE_LEN,
        exists|nonce: Seq<u8>|
            {
                &&& nonce.len() == HANDSHAKE_LEN
                &&& !is_reserved_start(nonce)
                &&& out@ == #[trigger] relay_init(nonce, proto_tag@, dc_idx as int)
            },
        !is_reserved_start(out@),
        out@[0] != 0xef,
        out@.take(4) != seq![0x48u8, 0x45, 0x41, 0x44],
        out@.take(4) != seq![0x50u8, 0x4f, 0x53, 0x54],
        out@.take(4) != seq![0x47u8, 0x45, 0x54, 0x20],
        out@.take(4) != seq![0xeeu8, 0xee, 0xee, 0xee],
        out@.take(4) != seq![0xddu8, 0xdd, 0xdd, 0xdd],
        out@.take(4) != seq![0x16u8, 0x03, 0x01, 0x02],
        out@.subrange(4, 8) != seq![0u8, 0, 0, 0],
        relay_view(out@).subrange(56, 60) == proto_tag@,
        relay_view(out@).subrange(60, 62) == index_bytes(dc_idx as int),
{
    let mut tries: u64 = u64::MAX;
    while tries > 0
        decreases tries,
    {
        let nonce = random_bytes(HANDSHAKE_LEN);
        if !has_reserved_start(nonce.as_slice()) {
            proof {
                law_relay_init_decrypts(nonce@, proto_tag@, dc_idx as int);
                law_reserved_starts(relay_init(nonce@, proto_tag@, dc_idx as int));
            }
            return relay_init_from(nonce.as_slice(), proto_tag, dc_idx);
        }
        tries = tries - 1;
    }
    // Every nonce so far was reserved: no reserved opening starts with a zero, nor continues
    // with a one.
    let mut nonce = random_bytes(HANDSHAKE_LEN);
    nonce[0] = 0;
    nonce[4] = 1;
    proof {
        assert forall|i: int| 0 <= i < RESERVED_STARTS@.len() implies nonce@.subrange(0, 4) != (
        #[trigger] RESERVED_STARTS@[i])@ by {
            assert(nonce@.subrange(0, 4)[0] == 0);
            assert(RESERVED_STARTS@[i]@[0] != 0);
        }
        assert(nonce@.subrange(4, 8)[0] == 1);
        assert(RESERVED_CONTINUE@[0] == 0);
        law_relay_init_decrypts(nonce@, proto_tag@, dc_idx as int);
        law_reserved_starts(relay_init(nonce@, proto_tag@, dc_idx as int));
    }
    relay_init_from(nonce.as_slice(), proto_tag, dc_idx)
}

/// Reading back the two bytes of an index gives the index.
pub proof fn law_index_round_trip(index: int)
    requires
        -32768 <= index < 32768,
    ensures
        signed_index(index_bytes(index)) == index,
{
    let s = index_bytes(index);
    assert(s.take(2) =~= s);
    bytes::lemma_le_value_2(s);
}

/// The relay, which takes the key and the counter block from bytes 8 to 56 of the handshake,
/// reads the transport tag and the data centre index at its end. The handshake opens as the
/// nonce does.
pub proof fn law_relay_init_decrypts(nonce: Seq<u8>, proto_tag: Seq<u8>, dc_idx: int)
    requires
        nonce.len() == HANDSHAKE_LEN,
        proto_tag.len() == 4,
        -32768 <= dc_idx < 32768,
    ensures
        ({
            let init = relay_init(nonce, proto_tag, dc_idx);
            &&& init.len() == HANDSHAKE_LEN
            &&& init.take(56) == nonce.take(56)
            &&& is_reserved_start(init) == is_reserved_start(nonce)
            &&& relay_view(init).subrange(56, 60) == proto_tag
            &&& relay_view(init).subrange(60, 62) == index_bytes(dc_idx)
            &&& signed_index(relay_view(init).subrange(60, 62)) == dc_idx
        }),
{
    let key = nonce.subrange(8, 40);
    let iv = nonce.subrange(40, 56);
    let tail = relay_tail(proto_tag, dc_idx);
    let init = relay_init(nonce, proto_tag, dc_idx);
    assert(init.take(56) =~= nonce.take(56));
    assert(init.subrange(8, 40) =~= key);
    assert(init.subrange(40, 56) =~= iv);
    assert(init[0] == nonce[0]);
    assert(init.subrange(0, 4) =~= nonce.subrange(0, 4));
    assert(init.subrange(4, 8) =~= nonce.subrange(4, 8));
    crypto::law_ctr_split(key, iv, 0, nonce.take(56), crypto::ctr_stream(key, iv, 56, tail));
    crypto::law_ctr_round_trip(key, iv, 56, tail);
    assert(relay_view(init) =~= crypto::ctr_stream(key, iv, 0, nonce.take(56)) + tail);
    assert(relay_view(init).subrange(56, 60) =~= proto_tag);
    assert(relay_view(init).subrange(60, 62) =~= index_bytes(dc_idx));
    law_index_round_trip(dc_idx);
}

/// The handshake of a client that knows the secret: 56 bytes of nonce in the clear, then the
/// transport tag, the data centre index and two more bytes under the client's key.
pub open spec fn client_handshake(
    nonce: Seq<u8>,
    secret: Seq<u8>,
    proto_tag: Seq<u8>,
    dc_idx: int,
    rest: Seq<u8>,
) -> Seq<u8> {
    nonce + crypto::ctr_stream(
        client_key(nonce.subrange(8, 40), secret),
        nonce.subrange(40, 56),
        56,
        proto_tag + index_bytes(dc_idx) + rest,
    )
}

/// The proxy takes the handshake of every client that knows the secret and asks for a known
/// transport, and reads from it what the client wrote.
pub proof fn law_client_handshake_accepted(
    nonce: Seq<u8>,
    secret: Seq<u8>,
    proto_tag: Seq<u8>,
    dc_idx: int,
    rest: Seq<u8>,
)
    requires
        nonce.len() == 56,
        is_proto_tag(proto_tag),
        -32768 <= dc_idx < 32768,
        rest.len() == 2,
    ensures
        ({
            let handshake = client_handshake(nonce, secret, proto_tag, dc_idx, rest);
            &&& handshake.len() == HANDSHAKE_LEN
            &&& accepts_handshake(handshake, secret)
            &&& handshake_plain(handshake, secret).subrange(56, 60) == proto_tag
            &&& handshake_dc_index(handshake, secret) == dc_idx
            &&& handshake.subrange(8, 56) == nonce.subrange(8, 56)
        }),
{
    let handshake = client_handshake(nonce, secret, proto_tag, dc_idx, rest);
    let key = client_key(nonce.subrange(8, 40), secret);
    let iv = nonce.subrange(40, 56);
    let tail = proto_tag + index_bytes(dc_idx) + rest;
    assert(handshake.subrange(8, 40) =~= nonce.subrange(8, 40));
    assert(handshake.subrange(40, 56) =~= iv);
    assert(handshake.subrange(8, 56) =~= nonce.subrange(8, 56));
    crypto::law_ctr_split(key, iv, 0, nonce, crypto::ctr_stream(key, iv, 56, tail));
    crypto::law_ctr_round_trip(key, iv, 56, tail);
    let plain = handshake_plain(handshake, secret);
    assert(plain =~= crypto::ctr_stream(key, iv, 0, nonce) + tail);
    assert(plain.subrange(56, 60) =~= proto_tag);
    assert(plain.subrange(60, 62) =~= index_bytes(dc_idx));
    law_index_round_trip(dc_idx);
}

/// The four ciphers of a session: two towards the client, two towards the relay.
#[derive(Debug, Clone, Copy)]
pub struct CryptoContext {
    pub clt_dec: AesCtr,
    pub clt_enc: AesCtr,
    pub tg_enc: AesCtr,
    pub tg_dec: AesCtr,
}

/// A cipher with the given key, counter block and position.
pub open spec fn cipher_is(cipher: AesCtr, key: Seq<u8>, iv: Seq<u8>, pos: nat) -> bool {
    &&& cipher.key@ == key
    &&& cipher.iv@ == iv
    &&& cipher.pos == pos
}

impl CryptoContext {
    /// The ciphers that a client's pre-key and counter block and a relay handshake define. Each
    /// side's handshake has used up 64 bytes of the stream that carried it.
    pub open spec fn fresh(&self, prekey_iv: Seq<u8>, secret: Seq<u8>, init: Seq<u8>) -> bool {
        let back = prekey_iv.reverse();
        let relay = init.subrange(8, 56);
        let relay_back = relay.reverse();
        &&& cipher_is(
            self.clt_dec,
            client_key(prekey_iv.subrange(0, 32), secret),
            prekey_iv.subrange(32, 48),
            64,
        )
        &&& cipher_is(
            self.clt_enc,
            client_key(back.subrange(0, 32), secret),
            back.subrange(32, 48),
            0,
        )
        &&& cipher_is(self.tg_enc, relay.subrange(0, 32), relay.subrange(32, 48), 64)
        &&& cipher_is(self.tg_dec, relay_back.subrange(0, 32), relay_back.subrange(32, 48), 0)
    }
}

/// `data` from its last byte to its first.
fn reversed(data: &[u8]) -> (out: Vec<u8>)
    ensures
        out@ == data@.reverse(),
{
    let mut out: Vec<u8> = Vec::new();
    let mut i: usize = data.len();
    while i > 0
        invariant
            i <= data@.len(),
            out@ == data@.reverse().take(data@.len() - i),
        decreases i,
    {
        i = i - 1;
        out.push(data[i]);
        assert(out@ =~= data@.reverse().take(data@.len() - i));
    }
    assert(out@ =~= data@.reverse());
    out
}

/// Sets up the ciphers of a session.
pub fn build_crypto_ctx(
    client_dec_prekey_iv: &[u8; 48],
    secret: &[u8],
    relay_init: &[u8],
) -> (ctx: CryptoContext)
    requires
        relay_init@.len() >= SKIP_LEN + PREKEY_LEN + IV_LEN,
    ensures
        ctx.fresh(client_dec_prekey_iv@, secret@, relay_init@),
        ctx.clt_dec.key@ == crypto::sha256(client_dec_prekey_iv@.subrange(0, 32) + secret@),
        ctx.clt_dec.iv@ == client_dec_prekey_iv@.subrange(32, 48),
        ctx.clt_dec.pos == 64,
        ctx.clt_enc.key@ == crypto::sha256(
            Seq::new(32, |i: int| client_dec_prekey_iv@[47 - i]) + secret@,
        ),
        ctx.clt_enc.iv@ == Seq::new(16, |i: int| client_dec_prekey_iv@[15 - i]),
        ctx.clt_enc.pos == 0,
        ctx.tg_enc.key@ == relay_init@.subrange(8, 40),
        ctx.tg_enc.iv@ == relay_init@.subrange(40, 56),
        ctx.tg_enc.pos == 64,
        ctx.tg_dec.key@ == Seq::new(32, |i: int| relay_init@[55 - i]),
        ctx.tg_dec.iv@ == Seq::new(16, |i: int| relay_init@[23 - i]),
        ctx.tg_dec.pos == 0,
{
    let forward = client_dec_prekey_iv.as_slice();
    let clt_dec_key = derive_client_key(slice_subrange(forward, 0, PREKEY_LEN), secret);
    let mut clt_dec = aes_ctr_new(
        clt_dec_key.as_slice(),
        slice_subrange(forward, PREKEY_LEN, PREKEY_LEN + IV_LEN),
    );

    let back = reversed(forward);
    let clt_enc_key = derive_client_key(slice_subrange(back.as_slice(), 0, PREKEY_LEN), secret);
    let clt_enc = aes_ctr_new(
        clt_enc_key.as_slice(),
        slice_subrange(back.as_slice(), PREKEY_LEN, PREKEY_LEN + IV_LEN),
    );
    let mut clt_skipped: Vec<u8> = slice_to_vec(ZERO_64.as_slice());
    clt_dec.apply_keystream(&mut clt_skipped);

    let relay = slice_subrange(relay_init, SKIP_LEN, SKIP_LEN + PREKEY_LEN + IV_LEN);
    let relay_back = reversed(relay);
    let mut tg_enc = aes_ctr_new(
        slice_subrange(relay, 0, KEY_LEN),
        slice_subrange(relay, KEY_LEN, KEY_LEN + IV_LEN),
    );
    let tg_dec = aes_ctr_new(
        slice_subrange(relay_back.as_slice(), 0, KEY_LEN),
        slice_subrange(relay_back.as_slice(), KEY_LEN, KEY_LEN + IV_LEN),
    );
    let mut tg_skipped: Vec<u8> = slice_to_vec(ZERO_64.as_slice());
    tg_enc.apply_keystream(&mut tg_skipped);

    let ctx = CryptoContext { clt_dec, clt_enc, tg_enc, tg_dec };
    proof {
        law_fresh_ciphers(ctx, client_dec_prekey_iv@, secret@, relay_init@);
    }
    ctx
}

/// What is read from a handshake of 64 bytes: byte `i` is combined with byte `i` of the key stream
/// under the SHA-256 digest of bytes 8 to 40 and the secret, and the counter block of bytes 40 to
/// 56. Bytes 56 to 60 then have to be four times 0xef, 0xee or 0xdd, and bytes 60 and 61 are the
/// index, the low one first, in two's complement.
pub proof fn law_handshake_read(handshake: Seq<u8>, secret: Seq<u8>)
    requires
        handshake.len() >= 64,
    ensures
        ({
            let key = crypto::sha256(handshake.subrange(8, 40) + secret);
            let iv = handshake.subrange(40, 56);
            let plain = Seq::new(
                64,
                |i: int| handshake[i] ^ crypto::ctr_keystream(key, iv, i as nat),
            );
            let asked = plain.subrange(56, 60);
            let number: int = plain[60] + 256 * plain[61];
            &&& handshake_plain(handshake, secret).take(64) == plain
            &&& handshake_plain(handshake, secret).subrange(56, 60) == asked
            &&& accepts_handshake(handshake, secret) <==> (asked == seq![0xefu8, 0xef, 0xef, 0xef]
                || asked == seq![0xeeu8, 0xee, 0xee, 0xee] || asked == seq![
                0xddu8,
                0xdd,
                0xdd,
                0xdd,
            ])
            &&& handshake_dc_index(handshake, secret) == if number >= 32768 {
                number - 65536
            } else {
                number
            }
        }),
{
    let key = crypto::sha256(handshake.subrange(8, 40) + secret);
    let iv = handshake.subrange(40, 56);
    let plain = Seq::new(64, |i: int| handshake[i] ^ crypto::ctr_keystream(key, iv, i as nat));
    let read = handshake_plain(handshake, secret);
    assert forall|i: int| 0 <= i < 64 implies read[i] == plain[i] by {
        crypto::law_every_byte_encrypted(key, iv, 0, handshake, i);
    }
    assert(read.take(64) =~= plain);
    assert(read.subrange(56, 60) =~= plain.subrange(56, 60));
    assert(PROTO_TAG_ABRIDGED@ =~= seq![0xefu8, 0xef, 0xef, 0xef]);
    assert(PROTO_TAG_INTERMEDIATE@ =~= seq![0xeeu8, 0xee, 0xee, 0xee]);
    assert(PROTO_TAG_SECURE@ =~= seq![0xddu8, 0xdd, 0xdd, 0xdd]);
    let two = read.subrange(60, 62);
    assert(two.take(2) =~= two);
    bytes::lemma_le_value_2(two);
}

/// A client that derives its key as the SHA-256 digest of its pre-key followed by the secret, for
/// whatever secret, and encrypts under it the tag of a transport and the index of a data centre,
/// is taken, and the proxy reads what the client wrote.
pub proof fn law_client_with_the_secret_accepted(
    nonce: Seq<u8>,
    secret: Seq<u8>,
    tail: Seq<u8>,
    handshake: Seq<u8>,
    dc_idx: int,
)
    requires
        nonce.len() == 56,
        tail.len() == 8,
        tail.take(4) == seq![0xefu8, 0xef, 0xef, 0xef] || tail.take(4) == seq![
            0xeeu8,
            0xee,
            0xee,
            0xee,
        ] || tail.take(4) == seq![0xddu8, 0xdd, 0xdd, 0xdd],
        -32768 <= dc_idx < 32768,
        tail[4] + 256 * tail[5] == if dc_idx < 0 {
            dc_idx + 65536
        } else {
            dc_idx
        },
        handshake == nonce + Seq::new(
            8,
            |i: int|
                tail[i] ^ crypto::ctr_keystream(
                    crypto::sha256(nonce.subrange(8, 40) + secret),
                    nonce.subrange(40, 56),
                    (56 + i) as nat,
                ),
        ),
    ensures
        accepts_handshake(handshake, secret),
        handshake_plain(handshake, secret).subrange(56, 60) == tail.take(4),
        handshake_dc_index(handshake, secret) == dc_idx,
{
    law_handshake_read(handshake, secret);
    let key = crypto::sha256(nonce.subrange(8, 40) + secret);
    let iv = nonce.subrange(40, 56);
    assert(handshake.subrange(8, 40) =~= nonce.subrange(8, 40));
    assert(handshake.subrange(40, 56) =~= iv);
    let plain = Seq::new(64, |i: int| handshake[i] ^ crypto::ctr_keystream(key, iv, i as nat));
    assert forall|i: int| 0 <= i < 8 implies #[trigger] plain[56 + i] == tail[i] by {
        crypto::lemma_xor_twice(tail[i], crypto::ctr_keystream(key, iv, (56 + i) as nat));
    }
    assert(plain[60] == tail[4] && plain[61] == tail[5]) by {
        assert(plain[56 + 4int] == tail[4]);
        assert(plain[56 + 5int] == tail[5]);
    }
    assert forall|i: int| 0 <= i < 4 implies plain.subrange(56, 60)[i] == tail.take(4)[i] by {
        assert(plain[56 + i] == tail[i]);
    }
    assert(plain.subrange(56, 60) =~= tail.take(4));
}

/// The bytes of a relay handshake: 56 bytes of the nonce, and behind them, under the key in bytes
/// 8 to 40 and the counter block in bytes 40 to 56 of the handshake itself, the tag, the index,
/// the low byte first, in two's complement, and two zeros.
pub proof fn law_relay_init_bytes(nonce: Seq<u8>, proto_tag: Seq<u8>, dc_idx: int)
    requires
        nonce.len() == 64,
        proto_tag.len() == 4,
        -32768 <= dc_idx < 32768,
    ensures
        ({
            let init = relay_init(nonce, proto_tag, dc_idx);
            let said = Seq::new(
                8,
                |i: int|
                    init[56 + i] ^ crypto::ctr_keystream(
                        init.subrange(8, 40),
                        init.subrange(40, 56),
                        (56 + i) as nat,
                    ),
            );
            &&& init.len() == 64
            &&& init.take(56) == nonce.take(56)
            &&& said.take(4) == proto_tag
            &&& said[4] + 256 * said[5] == if dc_idx < 0 {
                dc_idx + 65536
            } else {
                dc_idx
            }
            &&& said[6] == 0
            &&& said[7] == 0
        }),
{
    let init = relay_init(nonce, proto_tag, dc_idx);
    let key = nonce.subrange(8, 40);
    let iv = nonce.subrange(40, 56);
    let tail = relay_tail(proto_tag, dc_idx);
    assert(init.take(56) =~= nonce.take(56));
    assert(init.subrange(8, 40) =~= key);
    assert(init.subrange(40, 56) =~= iv);
    let said = Seq::new(
        8,
        |i: int| init[56 + i] ^ crypto::ctr_keystream(key, iv, (56 + i) as nat),
    );
    assert forall|i: int| 0 <= i < 8 implies said[i] == tail[i] by {
        crypto::law_every_byte_encrypted(key, iv, 56, tail, i);
        crypto::lemma_xor_twice(tail[i], crypto::ctr_keystream(key, iv, (56 + i) as nat));
    }
    assert(said =~= tail);
    assert(said.take(4) =~= proto_tag);
}

/// The openings that a relay handshake must not have: 0xef, the words `HEAD`, `POST` and `GET `,
/// the tags of the two other transports, the start of a TLS record, and four zeros behind the
/// first four bytes. Every other opening can be had.
pub proof fn law_reserved_starts(nonce: Seq<u8>)
    requires
        nonce.len() >= 8,
    ensures
        is_reserved_start(nonce) <==> {
            let start = nonce.take(4);
            ||| nonce[0] == 0xef
            ||| start == seq![0x48u8, 0x45, 0x41, 0x44]
            ||| start == seq![0x50u8, 0x4f, 0x53, 0x54]
            ||| start == seq![0x47u8, 0x45, 0x54, 0x20]
            ||| start == seq![0xeeu8, 0xee, 0xee, 0xee]
            ||| start == seq![0xddu8, 0xdd, 0xdd, 0xdd]
            ||| start == seq![0x16u8, 0x03, 0x01, 0x02]
            ||| nonce.subrange(4, 8) == seq![0u8, 0, 0, 0]
        },
{
    let start = nonce.take(4);
    assert(nonce.subrange(0, 4) =~= start);
    assert(RESERVED_FIRST_BYTES@[0] == 0xef);
    let words = RESERVED_STARTS@;
    assert(words[0]@ =~= seq![0x48u8, 0x45, 0x41, 0x44]);
    assert(words[1]@ =~= seq![0x50u8, 0x4f, 0x53, 0x54]);
    assert(words[2]@ =~= seq![0x47u8, 0x45, 0x54, 0x20]);
    assert(words[3]@ =~= seq![0xeeu8, 0xee, 0xee, 0xee]);
    assert(words[4]@ =~= seq![0xddu8, 0xdd, 0xdd, 0xdd]);
    assert(words[5]@ =~= seq![0x16u8, 0x03, 0x01, 0x02]);
    assert(RESERVED_CONTINUE@ =~= seq![0u8, 0, 0, 0]);
}

/// The four ciphers of a session. From the client: under the SHA-256 digest of the first 32 of its
/// 48 bytes followed by the secret, and the other 16, behind 64 bytes. To the client: the same
/// with the 48 bytes read from the last to the first, at the start. To the relay: under bytes 8 to
/// 40 and 40 to 56 of the relay handshake, behind 64 bytes. From the relay: the same bytes read
/// from the last to the first, at the start.
pub proof fn law_fresh_ciphers(
    ctx: CryptoContext,
    prekey_iv: Seq<u8>,
    secret: Seq<u8>,
    init: Seq<u8>,
)
    requires
        prekey_iv.len() == 48,
        init.len() >= 56,
        ctx.fresh(prekey_iv, secret, init),
    ensures
        ctx.clt_dec.key@ == crypto::sha256(prekey_iv.subrange(0, 32) + secret),
        ctx.clt_dec.iv@ == prekey_iv.subrange(32, 48),
        ctx.clt_dec.pos == 64,
        ctx.clt_enc.key@ == crypto::sha256(Seq::new(32, |i: int| prekey_iv[47 - i]) + secret),
        ctx.clt_enc.iv@ == Seq::new(16, |i: int| prekey_iv[15 - i]),
        ctx.clt_enc.pos == 0,
        ctx.tg_enc.key@ == init.subrange(8, 40),
        ctx.tg_enc.iv@ == init.subrange(40, 56),
        ctx.tg_enc.pos == 64,
        ctx.tg_dec.key@ == Seq::new(32, |i: int| init[55 - i]),
        ctx.tg_dec.iv@ == Seq::new(16, |i: int| init[23 - i]),
        ctx.tg_dec.pos == 0,
{
    let back = prekey_iv.reverse();
    let relay = init.subrange(8, 56);
    assert(back.subrange(0, 32) =~= Seq::new(32, |i: int| prekey_iv[47 - i]));
    assert(back.subrange(32, 48) =~= Seq::new(16, |i: int| prekey_iv[15 - i]));
    assert(relay.subrange(0, 32) =~= init.subrange(8, 40));
    assert(relay.subrange(32, 48) =~= init.subrange(40, 56));
    assert(relay.reverse().subrange(0, 32) =~= Seq::new(32, |i: int| init[55 - i]));
    assert(relay.reverse().subrange(32, 48) =~= Seq::new(16, |i: int| init[23 - i]));
}

} // verus!
