//! AES-256-CTR, SHA-256, HMAC-SHA-256 and the WebSocket mask.

use cipher::{KeyIvInit, StreamCipher, StreamCipherSeek};
use hmac::{KeyInit, Mac};
use sha2::Digest;
use vstd::prelude::*;

use crate::proxy::bytes::array_at;

verus! {

/// Byte `pos` of the AES-256-CTR key stream under `key` and the initial counter block `iv`.
pub uninterp spec fn ctr_keystream(key: Seq<u8>, iv: Seq<u8>, pos: nat) -> u8;

/// The SHA-256 digest of `data`.
pub uninterp spec fn sha256(data: Seq<u8>) -> Seq<u8>;

/// The HMAC-SHA-256 tag of `data` under `key`.
pub uninterp spec fn hmac_sha256(key: Seq<u8>, data: Seq<u8>) -> Seq<u8>;

/// `data` combined with the key stream from position `pos` on.
pub open spec fn ctr_stream(key: Seq<u8>, iv: Seq<u8>, pos: nat, data: Seq<u8>) -> Seq<u8> {
    Seq::new(data.len(), |i: int| data[i] ^ ctr_keystream(key, iv, (pos + i) as nat))
}

/// Calls `ctr::Ctr128BE::<aes::Aes256>`: creates the cipher from `key` and `iv`, seeks to byte
/// `pos` and applies the key stream to a copy of `data`. Claims that byte `i` of the result is
/// byte `i` of `data` xor byte `pos + i` of the key stream, and that the key stream is a function
/// of `key`, `iv` and the position alone. The counter has 128 bits, so the end of the key stream
/// is out of reach from every position that `pos` can hold.
#[verifier::external_body]
fn aes_ctr_apply(key: &[u8], iv: &[u8], pos: u128, data: &[u8]) -> (out: Vec<u8>)
    requires
        key@.len() == 32,
        iv@.len() == 16,
    ensures
        out@.len() == data@.len(),
        forall|i: int|
            0 <= i < data@.len() ==> #[trigger] out@[i] == data@[i] ^ ctr_keystream(
                key@,
                iv@,
                (pos + i) as nat,
            ),
{
    let mut cipher = ctr::Ctr128BE::<aes::Aes256>::new_from_slices(key, iv).unwrap();
    cipher.seek(pos);
    let mut out = data.to_vec();
    cipher.apply_keystream(&mut out);
    out
}

/// Calls `sha2::Sha256::digest`. Claims that the digest has 32 bytes and depends on `data` alone.
#[verifier::external_body]
pub(crate) fn sha256_digest(data: &[u8]) -> (out: Vec<u8>)
    ensures
        out@ == sha256(data@),
        out@.len() == 32,
{
    sha2::Sha256::digest(data).to_vec()
}

/// Calls `hmac::Hmac::<sha2::Sha256>`: `new_from_slice`, which takes a key of any length, then
/// `update` and `finalize`. Claims that the tag has 32 bytes and depends on `key` and `data`
/// alone.
#[verifier::external_body]
pub(crate) fn hmac_sha256_tag(key: &[u8], data: &[u8]) -> (out: Vec<u8>)
    ensures
        out@ == hmac_sha256(key@, data@),
        out@.len() == 32,
{
    let mut mac = hmac::Hmac::<sha2::Sha256>::new_from_slice(key).unwrap();
    mac.update(data);
    mac.finalize().into_bytes().to_vec()
}

/// An AES-256-CTR cipher: its key, its initial counter block and how many key stream bytes it
/// has used.
#[derive(Debug, Clone, Copy)]
pub struct AesCtr {
    pub key: [u8; 32],
    pub iv: [u8; 16],
    pub pos: u128,
}

impl AesCtr {
    /// `len` more bytes keep the position representable.
    pub open spec fn has_room(&self, len: nat) -> bool {
        self.pos + len <= u128::MAX
    }

    /// What the cipher makes of `data` next.
    pub open spec fn output(&self, data: Seq<u8>) -> Seq<u8> {
        ctr_stream(self.key@, self.iv@, self.pos as nat, data)
    }

    /// The cipher after `len` more bytes.
    pub open spec fn advanced(&self, len: nat) -> AesCtr {
        AesCtr { key: self.key, iv: self.iv, pos: (self.pos + len) as u128 }
    }

    /// Whether `len` more bytes keep the position representable.
    pub fn can_apply(&self, len: usize) -> (ok: bool)
        ensures
            ok == self.has_room(len as nat),
            ok == (self.pos + len <= u128::MAX),
    {
        len as u128 <= u128::MAX - self.pos
    }

    /// Combines `buf` with the next `buf.len()` bytes of the key stream.
    pub fn apply_keystream(&mut self, buf: &mut Vec<u8>)
        requires
            old(self).has_room(old(buf)@.len()),
        ensures
            final(buf)@ == old(self).output(old(buf)@),
            *final(self) == old(self).advanced(old(buf)@.len()),
            final(buf)@.len() == old(buf)@.len(),
            forall|i: int|
                0 <= i < old(buf)@.len() ==> #[trigger] final(buf)@[i] == old(buf)@[i]
                    ^ ctr_keystream(old(self).key@, old(self).iv@, (old(self).pos + i) as nat),
            final(self).key@ == old(self).key@,
            final(self).iv@ == old(self).iv@,
            final(self).pos == old(self).pos + old(buf)@.len(),
    {
        let out = aes_ctr_apply(self.key.as_slice(), self.iv.as_slice(), self.pos, buf.as_slice());
        self.pos = self.pos + out.len() as u128;
        proof {
            assert(out@ =~= old(self).output(old(buf)@));
        }
        *buf = out;
    }
}

/// A cipher at the start of the key stream that `key` and `iv` define.
pub fn aes_ctr_new(key: &[u8], iv: &[u8]) -> (cipher: AesCtr)
    requires
        key@.len() == 32,
        iv@.len() == 16,
    ensures
        cipher.key@ == key@,
        cipher.iv@ == iv@,
        cipher.pos == 0,
{
    AesCtr { key: array_at::<32>(key, 0), iv: array_at::<16>(iv, 0), pos: 0 }
}

/// `data` with byte `i` xor byte `i % 4` of `mask`.
pub open spec fn masked(data: Seq<u8>, mask: Seq<u8>) -> Seq<u8> {
    Seq::new(data.len(), |i: int| data[i] ^ mask[i % 4])
}

/// Masks or unmasks a WebSocket payload.
pub fn xor_mask(data: &[u8], mask: &[u8; 4]) -> (out: Vec<u8>)
    ensures
        out@ == masked(data@, mask@),
        out@.len() == data@.len(),
        forall|i: int|
            0 <= i < data@.len() ==> #[trigger] out@[i] == data@[i] ^ mask@[i % 4],
{
    let mut out: Vec<u8> = Vec::with_capacity(data.len());
    let mut i: usize = 0;
    while i < data.len()
        invariant
            i <= data@.len(),
            out@ == masked(data@, mask@).take(i as int),
        decreases data@.len() - i,
    {
        out.push(data[i] ^ mask[i % 4]);
        i = i + 1;
        assert(out@ =~= masked(data@, mask@).take(i as int));
    }
    assert(out@ =~= masked(data@, mask@));
    out
}

/// Combining a byte with the same byte twice gives it back.
pub proof fn lemma_xor_twice(a: u8, b: u8)
    ensures
        (a ^ b) ^ b == a,
{
    assert((a ^ b) ^ b == a) by (bit_vector);
}

/// Masking with one mask twice gives the payload back.
pub proof fn law_mask_twice(data: Seq<u8>, mask: Seq<u8>)
    ensures
        masked(masked(data, mask), mask) == data,
{
    assert forall|i: int| 0 <= i < data.len() implies masked(masked(data, mask), mask)[i]
        == data[i] by {
        lemma_xor_twice(data[i], mask[i % 4]);
    }
    assert(masked(masked(data, mask), mask) =~= data);
}

/// Every byte of a payload is masked, byte `i` with byte `i % 4` of the mask: from its first byte
/// to its last.
pub proof fn law_every_byte_masked(data: Seq<u8>, mask: Seq<u8>, i: int)
    requires
        mask.len() == 4,
        0 <= i < data.len(),
    ensures
        masked(data, mask).len() == data.len(),
        masked(data, mask)[i] == data[i] ^ mask[i % 4],
        masked(data, mask)[i] == data[i] <==> mask[i % 4] == 0,
{
    let a = data[i];
    let m = mask[i % 4];
    assert((a ^ m) == a <==> m == 0) by (bit_vector);
}

/// Every byte is combined with the byte of the key stream at its own position.
pub proof fn law_every_byte_encrypted(key: Seq<u8>, iv: Seq<u8>, pos: nat, data: Seq<u8>, i: int)
    requires
        0 <= i < data.len(),
    ensures
        ctr_stream(key, iv, pos, data).len() == data.len(),
        ctr_stream(key, iv, pos, data)[i] == data[i] ^ ctr_keystream(key, iv, (pos + i) as nat),
{
}

/// What a cipher encrypts, a cipher with the same key, counter block and position decrypts.
pub proof fn law_ctr_round_trip(key: Seq<u8>, iv: Seq<u8>, pos: nat, data: Seq<u8>)
    ensures
        ctr_stream(key, iv, pos, ctr_stream(key, iv, pos, data)) == data,
{
    let once = ctr_stream(key, iv, pos, data);
    assert forall|i: int| 0 <= i < data.len() implies ctr_stream(key, iv, pos, once)[i]
        == data[i] by {
        lemma_xor_twice(data[i], ctr_keystream(key, iv, (pos + i) as nat));
    }
    assert(ctr_stream(key, iv, pos, once) =~= data);
}

/// Encrypting in two pieces gives what encrypting at once gives.
pub proof fn law_ctr_split(key: Seq<u8>, iv: Seq<u8>, pos: nat, a: Seq<u8>, b: Seq<u8>)
    ensures
        ctr_stream(key, iv, pos, a + b) == ctr_stream(key, iv, pos, a) + ctr_stream(
            key,
            iv,
            (pos + a.len()) as nat,
            b,
        ),
{
    assert(ctr_stream(key, iv, pos, a + b) =~= ctr_stream(key, iv, pos, a) + ctr_stream(
        key,
        iv,
        (pos + a.len()) as nat,
        b,
    ));
}

} // verus!
