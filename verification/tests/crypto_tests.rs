use tg_ws_proxy::proxy::crypto::{aes_ctr_new, xor_mask, AesCtr};

#[test]
fn test_xor_mask() {
    let data = b"hello";
    let mask = b"\x01\x02\x03\x04";
    let masked = xor_mask(data, mask);
    let unmasked = xor_mask(&masked, mask);
    assert_eq!(&unmasked, data);
}

#[test]
fn test_aes_ctr() {
    let key = [0u8; 32];
    let iv = [0u8; 16];
    let mut cipher = aes_ctr_new(&key, &iv);
    let plaintext = b"test data 16 bytes";
    let mut buf = plaintext.to_vec();
    cipher.apply_keystream(&mut buf);
    assert_ne!(&buf, plaintext);

    let mut decipher = aes_ctr_new(&key, &iv);
    decipher.apply_keystream(&mut buf);
    assert_eq!(&buf, plaintext);
}

#[test]
fn xor_mask_repeats_the_mask_every_four_bytes() {
    assert_eq!(
        xor_mask(&[0, 0, 0, 0, 0, 0xff], &[1, 2, 3, 4]),
        vec![1, 2, 3, 4, 1, 0xfd]
    );
    assert_eq!(xor_mask(&[], &[1, 2, 3, 4]), Vec::<u8>::new());
}

// The CTR-AES256 example of NIST SP 800-38A, section F.5.5.
fn nist_cipher() -> AesCtr {
    let key: [u8; 32] = [
        0x60, 0x3d, 0xeb, 0x10, 0x15, 0xca, 0x71, 0xbe, 0x2b, 0x73, 0xae, 0xf0, 0x85, 0x7d, 0x77,
        0x81, 0x1f, 0x35, 0x2c, 0x07, 0x3b, 0x61, 0x08, 0xd7, 0x2d, 0x98, 0x10, 0xa3, 0x09, 0x14,
        0xdf, 0xf4,
    ];
    let mut iv = [0u8; 16];
    for (i, b) in iv.iter_mut().enumerate() {
        *b = 0xf0 + i as u8;
    }
    aes_ctr_new(&key, &iv)
}

#[test]
fn aes_ctr_matches_the_published_example() {
    let plain: [u8; 32] = [
        0x6b, 0xc1, 0xbe, 0xe2, 0x2e, 0x40, 0x9f, 0x96, 0xe9, 0x3d, 0x7e, 0x11, 0x73, 0x93, 0x17,
        0x2a, 0xae, 0x2d, 0x8a, 0x57, 0x1e, 0x03, 0xac, 0x9c, 0x9e, 0xb7, 0x6f, 0xac, 0x45, 0xaf,
        0x8e, 0x51,
    ];
    let expected: [u8; 32] = [
        0x60, 0x1e, 0xc3, 0x13, 0x77, 0x57, 0x89, 0xa5, 0xb7, 0xa7, 0xf5, 0x04, 0xbb, 0xf3, 0xd2,
        0x28, 0xf4, 0x43, 0xe3, 0xca, 0x4d, 0x62, 0xb5, 0x9a, 0xca, 0x84, 0xe9, 0x90, 0xca, 0xca,
        0xf5, 0xc5,
    ];
    let mut buf = plain.to_vec();
    nist_cipher().apply_keystream(&mut buf);
    assert_eq!(buf, expected.to_vec());
}

#[test]
fn aes_ctr_in_pieces_is_aes_ctr_at_once() {
    let plain: Vec<u8> = (0..100u8).collect();
    let mut whole = plain.clone();
    nist_cipher().apply_keystream(&mut whole);

    let mut cipher = nist_cipher();
    let mut pieces: Vec<u8> = Vec::new();
    for piece in [&plain[..7], &plain[7..40], &plain[40..]] {
        let mut part = piece.to_vec();
        cipher.apply_keystream(&mut part);
        pieces.extend_from_slice(&part);
    }
    assert_eq!(pieces, whole);
    assert_eq!(cipher.pos, 100);
    assert!(cipher.can_apply(1));
}

#[test]
fn a_cipher_at_the_end_of_its_positions_cannot_go_on() {
    let mut cipher = nist_cipher();
    cipher.pos = u128::MAX - 3;
    assert!(cipher.can_apply(3));
    assert!(!cipher.can_apply(4));
}
