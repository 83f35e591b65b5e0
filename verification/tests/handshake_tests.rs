use sha2::Digest;
use tg_ws_proxy::proxy::crypto::aes_ctr_new;
use tg_ws_proxy::proxy::handshake::{
    build_crypto_ctx, generate_relay_init, relay_init_from, try_handshake, MsgSplitter,
};
use tg_ws_proxy::proxy::utils::{
    HANDSHAKE_LEN, PROTO_ABRIDGED_INT, PROTO_INTERMEDIATE_INT, PROTO_TAG_ABRIDGED,
    PROTO_TAG_INTERMEDIATE, PROTO_TAG_SECURE, RESERVED_STARTS, ZERO_64,
};

const SECRET: [u8; 16] = [7; 16];

fn nonce() -> Vec<u8> {
    (0..56u8).map(|i| i.wrapping_mul(37).wrapping_add(11)).collect()
}

fn client_key(prekey: &[u8], secret: &[u8]) -> Vec<u8> {
    let mut joined = prekey.to_vec();
    joined.extend_from_slice(secret);
    sha2::Sha256::digest(&joined).to_vec()
}

fn client_handshake(tag: &[u8; 4], index: i16) -> Vec<u8> {
    let start = nonce();
    let mut plain = start.clone();
    plain.extend_from_slice(tag);
    plain.extend_from_slice(&index.to_le_bytes());
    plain.extend_from_slice(&[0x55, 0xaa]);
    let mut cipher = aes_ctr_new(&client_key(&start[8..40], &SECRET), &start[40..56]);
    cipher.apply_keystream(&mut plain);
    let mut handshake = start;
    handshake.extend_from_slice(&plain[56..64]);
    handshake
}

#[test]
fn test_generate_relay_init_length() {
    let init = generate_relay_init(&PROTO_TAG_INTERMEDIATE, 2);
    assert_eq!(init.len(), HANDSHAKE_LEN);
}

#[test]
fn test_crypto_roundtrip() {
    let relay_init = generate_relay_init(&[0xee, 0xee, 0xee, 0xee], 2);
    let key = &relay_init[8..40];
    let iv = &relay_init[40..56];

    let mut enc = aes_ctr_new(key, iv);
    let mut dec = aes_ctr_new(key, iv);

    let original = b"Hello MTProto!";
    let mut encrypted = original.to_vec();
    enc.apply_keystream(&mut encrypted);
    dec.apply_keystream(&mut encrypted);
    assert_eq!(&encrypted, original, "encrypt/decrypt roundtrip with same key/iv");
}

#[test]
fn test_ws_frame_splitter_single_packet() {
    let relay_init = generate_relay_init(&[0xee, 0xee, 0xee, 0xee], 2);
    let mut splitter = MsgSplitter::new(&relay_init, 0xEEEEEEEE);

    let payload = vec![0x42u8; 64];
    let mut plain = Vec::with_capacity(4 + payload.len());
    plain.extend_from_slice(&(payload.len() as u32 | 0x8000_0000).to_le_bytes());
    plain.extend_from_slice(&payload);

    let key = &relay_init[8..40];
    let iv = &relay_init[40..56];
    let mut enc = aes_ctr_new(key, iv);
    enc.apply_keystream(&mut ZERO_64.to_vec());
    let mut encrypted = plain.clone();
    enc.apply_keystream(&mut encrypted);

    let parts = splitter.split(&encrypted);
    assert_eq!(parts.len(), 1, "should produce a single part, got {}", parts.len());
    assert_eq!(parts[0].len(), 4 + payload.len(), "full packet with header");
}

#[test]
fn a_handshake_with_the_right_secret_is_accepted() {
    let asked = [
        (PROTO_TAG_ABRIDGED, 2i16, 2u32, false),
        (PROTO_TAG_INTERMEDIATE, -4, 4, true),
        (PROTO_TAG_SECURE, 203, 203, false),
        (PROTO_TAG_SECURE, i16::MIN, 32768, true),
        (PROTO_TAG_ABRIDGED, i16::MAX, 32767, false),
    ];
    for (tag, index, dc, is_media) in asked {
        let handshake = client_handshake(&tag, index);
        let (got_dc, got_media, got_tag, prekey_iv) =
            try_handshake(&handshake, &SECRET).expect("accepted");
        assert_eq!((got_dc, got_media, got_tag), (dc, is_media, tag));
        assert_eq!(prekey_iv.to_vec(), handshake[8..56].to_vec());
    }
}

#[test]
fn other_handshakes_are_not_accepted() {
    let handshake = client_handshake(&PROTO_TAG_ABRIDGED, 2);
    assert!(try_handshake(&handshake[..63], &SECRET).is_none());
    assert!(try_handshake(&handshake, &[8; 16]).is_none());
    assert!(try_handshake(&client_handshake(&[1, 2, 3, 4], 2), &SECRET).is_none());
}

// What a relay sees of a handshake: it takes the key and the counter out of the bytes that it got.
fn relay_view(init: &[u8]) -> Vec<u8> {
    let mut plain = init.to_vec();
    aes_ctr_new(&init[8..40], &init[40..56]).apply_keystream(&mut plain);
    plain
}

#[test]
fn a_relay_handshake_decrypts_to_what_was_asked_for() {
    let mut nonce = nonce();
    nonce.extend_from_slice(&[9; 8]);
    for index in [2i16, -5, i16::MIN, i16::MAX] {
        let init = relay_init_from(&nonce, &PROTO_TAG_SECURE, index);
        assert_eq!(init.len(), 64);
        assert_eq!(init[..56], nonce[..56]);
        let plain = relay_view(&init);
        assert_eq!(plain[56..60], PROTO_TAG_SECURE);
        assert_eq!(plain[60..62], index.to_le_bytes());
        assert_eq!(plain[62..], [0, 0]);
    }
}

#[test]
fn a_drawn_relay_handshake_can_be_read_by_the_relay() {
    for (tag, index) in [
        (PROTO_TAG_ABRIDGED, 2i16),
        (PROTO_TAG_INTERMEDIATE, -203),
        (PROTO_TAG_SECURE, i16::MIN),
    ] {
        let init = generate_relay_init(&tag, index);
        let plain = relay_view(&init);
        assert_eq!(plain[56..60], tag);
        assert_eq!(plain[60..62], index.to_le_bytes());
    }
}

#[test]
fn relay_handshakes_differ_from_each_other() {
    let first = generate_relay_init(&PROTO_TAG_ABRIDGED, 1);
    let second = generate_relay_init(&PROTO_TAG_ABRIDGED, 1);
    assert_ne!(first, second);
}

#[test]
fn no_reserved_opening_starts_with_zero() {
    for start in RESERVED_STARTS {
        assert_ne!(start[0], 0);
    }
}

#[test]
fn the_ciphers_of_a_session_follow_the_two_handshakes() {
    let client = client_handshake(&PROTO_TAG_INTERMEDIATE, 2);
    let mut prekey_iv = [0u8; 48];
    prekey_iv.copy_from_slice(&client[8..56]);
    let init: Vec<u8> = (0..64u8).collect();
    let mut ctx = build_crypto_ctx(&prekey_iv, &SECRET, &init);

    let mut back = prekey_iv;
    back.reverse();
    assert_eq!(ctx.clt_dec.key.to_vec(), client_key(&prekey_iv[..32], &SECRET));
    assert_eq!(ctx.clt_dec.iv, prekey_iv[32..]);
    assert_eq!(ctx.clt_enc.key.to_vec(), client_key(&back[..32], &SECRET));
    assert_eq!(ctx.clt_enc.iv, back[32..]);
    assert_eq!(ctx.tg_enc.key, init[8..40]);
    assert_eq!(ctx.tg_enc.iv, init[40..56]);
    let relay_back: Vec<u8> = init[8..56].iter().rev().copied().collect();
    assert_eq!(ctx.tg_dec.key, relay_back[..32]);
    assert_eq!(ctx.tg_dec.iv, relay_back[32..]);
    assert_eq!(
        (ctx.clt_dec.pos, ctx.clt_enc.pos, ctx.tg_enc.pos, ctx.tg_dec.pos),
        (64, 0, 64, 0)
    );

    // What the client encrypts behind its handshake, the relay decrypts behind its own.
    let mut client_cipher = aes_ctr_new(&client_key(&prekey_iv[..32], &SECRET), &prekey_iv[32..]);
    client_cipher.apply_keystream(&mut ZERO_64.to_vec());
    let mut relay_cipher = aes_ctr_new(&init[8..40], &init[40..56]);
    relay_cipher.apply_keystream(&mut ZERO_64.to_vec());
    let mut sent = b"from the client".to_vec();
    client_cipher.apply_keystream(&mut sent);
    let mut got = ctx.reencrypt_up(sent);
    relay_cipher.apply_keystream(&mut got);
    assert_eq!(got, b"from the client".to_vec());

    // What the relay encrypts with its bytes read backwards, the client decrypts with its own.
    let mut sent = b"from the relay".to_vec();
    aes_ctr_new(&relay_back[..32], &relay_back[32..]).apply_keystream(&mut sent);
    let mut got = ctx.reencrypt_down(sent);
    aes_ctr_new(&client_key(&back[..32], &SECRET), &back[32..]).apply_keystream(&mut got);
    assert_eq!(got, b"from the relay".to_vec());
}

fn encrypted(init: &[u8], plain: &[u8]) -> Vec<u8> {
    let mut cipher = aes_ctr_new(&init[8..40], &init[40..56]);
    cipher.apply_keystream(&mut ZERO_64.to_vec());
    let mut out = plain.to_vec();
    cipher.apply_keystream(&mut out);
    out
}

fn init() -> Vec<u8> {
    (100..164u8).collect()
}

#[test]
fn abridged_packets_are_cut_at_their_bounds() {
    let mut plain = vec![1, 10, 11, 12, 13];
    plain.extend_from_slice(&[0x82, 20, 21, 22, 23, 24, 25, 26, 27]);
    plain.extend_from_slice(&[0x7f, 1, 0, 0, 30, 31, 32, 33]);
    plain.extend_from_slice(&[0xff, 2, 0, 0, 1, 2, 3, 4, 5, 6, 7, 8]);
    let cipher = encrypted(&init(), &plain);
    let mut splitter = MsgSplitter::new(&init(), PROTO_ABRIDGED_INT);
    let parts = splitter.split(&cipher);
    let lens: Vec<usize> = parts.iter().map(|p| p.len()).collect();
    assert_eq!(lens, vec![5, 9, 8, 12]);
    assert_eq!(parts.concat(), cipher);
}

#[test]
fn a_long_abridged_packet_uses_all_three_length_bytes() {
    let words: usize = 0x01_02_03;
    let mut plain = vec![0x7f, 0x03, 0x02, 0x01];
    plain.extend_from_slice(&vec![7u8; words * 4]);
    let cipher = encrypted(&init(), &plain);
    let mut splitter = MsgSplitter::new(&init(), PROTO_ABRIDGED_INT);
    assert_eq!(splitter.split(&cipher[..cipher.len() - 1]).len(), 0);
    let parts = splitter.split(&cipher[cipher.len() - 1..]);
    assert_eq!(parts, vec![cipher]);
}

#[test]
fn chunks_make_no_difference_to_the_parts() {
    let mut plain: Vec<u8> = Vec::new();
    for len in [4u32, 100, 1, 33] {
        plain.extend_from_slice(&len.to_le_bytes());
        plain.extend_from_slice(&vec![len as u8; len as usize]);
    }
    let cipher = encrypted(&init(), &plain);
    let whole = MsgSplitter::new(&init(), PROTO_INTERMEDIATE_INT).split(&cipher);
    assert_eq!(whole.len(), 4);
    assert_eq!(whole.concat(), cipher);
    for step in [1usize, 3, 7, 50] {
        let mut splitter = MsgSplitter::new(&init(), PROTO_INTERMEDIATE_INT);
        let mut parts: Vec<Vec<u8>> = Vec::new();
        for chunk in cipher.chunks(step) {
            parts.extend(splitter.split(chunk));
        }
        assert_eq!(parts, whole);
    }
}

#[test]
fn a_packet_without_payload_ends_the_cutting() {
    let mut plain = vec![4, 0, 0, 0, 1, 2, 3, 4];
    plain.extend_from_slice(&[0, 0, 0, 0, 9, 9]);
    let cipher = encrypted(&init(), &plain);
    let mut splitter = MsgSplitter::new(&init(), PROTO_INTERMEDIATE_INT);
    assert_eq!(
        splitter.split(&cipher),
        vec![cipher[..8].to_vec(), cipher[8..].to_vec()]
    );
    assert_eq!(splitter.split(&[1, 2, 3]), vec![vec![1, 2, 3]]);
    assert_eq!(splitter.split(&[]), Vec::<Vec<u8>>::new());
}

#[test]
fn no_part_is_empty_and_no_whole_packet_is_held_back() {
    let mut plain: Vec<u8> = Vec::new();
    let mut bounds: Vec<usize> = Vec::new();
    for len in [4u32, 100, 1, 33] {
        plain.extend_from_slice(&len.to_le_bytes());
        plain.extend_from_slice(&vec![len as u8; len as usize]);
        bounds.push(plain.len());
    }
    let cipher = encrypted(&init(), &plain);
    let mut splitter = MsgSplitter::new(&init(), PROTO_INTERMEDIATE_INT);
    let mut out = 0usize;
    for i in 0..cipher.len() {
        for part in splitter.split(&cipher[i..i + 1]) {
            assert!(!part.is_empty());
            out += part.len();
        }
        let complete = bounds.iter().copied().filter(|b| *b <= i + 1).max().unwrap_or(0);
        assert_eq!(out, complete);
    }
}

#[test]
fn after_the_cutting_has_ended_chunks_come_out_as_they_came() {
    let mut splitter = MsgSplitter::new(&init(), PROTO_ABRIDGED_INT);
    let cipher = encrypted(&init(), &[1, 9, 9, 9, 9, 0, 7]);
    assert_eq!(
        splitter.split(&cipher),
        vec![cipher[..5].to_vec(), cipher[5..].to_vec()]
    );
    for chunk in [vec![1u8], vec![2; 500], vec![0; 4]] {
        assert_eq!(splitter.split(&chunk), vec![chunk]);
    }
}

#[test]
fn an_unknown_transport_is_not_cut() {
    let mut splitter = MsgSplitter::new(&init(), 0x1234_5678);
    assert!(splitter.can_split(usize::MAX));
    assert_eq!(splitter.split(&[5, 6, 7]), vec![vec![5, 6, 7]]);
    assert_eq!(splitter.split(&[8]), vec![vec![8]]);
}
