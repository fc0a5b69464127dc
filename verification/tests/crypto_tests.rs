use ws_relay::crypto::{decrypt_message, encrypt_message, generate_keypair, CryptoError};
use ws_relay::hexcode::{hex_decode, hex_encode};

#[test]
fn hex_round_trip_and_exact_spelling() {
    assert_eq!(hex_encode(&[0x00, 0xff, 0x10, 0xab]), b"00ff10ab".to_vec());
    assert_eq!(hex_decode(b"00ff10ab").unwrap(), vec![0x00, 0xff, 0x10, 0xab]);
    assert_eq!(hex_decode(b"00FF10AB").unwrap(), vec![0x00, 0xff, 0x10, 0xab]);
    assert!(hex_decode(b"0").is_none());
    assert!(hex_decode(b"0g").is_none());
    let data: Vec<u8> = (0u8..=255).collect();
    assert_eq!(hex_decode(&hex_encode(&data)).unwrap(), data);
}

#[test]
fn keypair_shapes() {
    let kp = generate_keypair();
    assert_eq!(kp.private_key.len(), 64);
    assert_eq!(kp.public_key.len(), 130);
    // an uncompressed point starts with 0x04
    assert_eq!(&kp.public_key[..2], b"04");
}

#[test]
fn encrypt_then_decrypt_round_trip() {
    let kp = generate_keypair();
    for msg in ["hello world", "", "caf\u{e9} \u{2603} \u{1f600}"] {
        let env = encrypt_message(msg, &kp.public_key).expect("encryption should succeed");
        let back = decrypt_message(&env, &kp.private_key).expect("decryption should succeed");
        assert_eq!(back, msg);
    }
}

#[test]
fn ciphertext_byte_flip_fails_authentication() {
    let kp = generate_keypair();
    let env = encrypt_message("attack at dawn", &kp.public_key).expect("encryption should succeed");
    // the ciphertext and tag start after the key and nonce: 77 bytes, 154 hex digits
    for pos in [154, 155, env.len() - 1] {
        let mut bytes = hex_decode(&env).unwrap();
        bytes[pos / 2] ^= 0x01 << (4 * ((pos + 1) % 2));
        let tampered = hex_encode(&bytes);
        assert_eq!(
            decrypt_message(&tampered, &kp.private_key),
            Err(CryptoError::AuthFailed)
        );
    }
}

#[test]
fn wrong_private_key_fails() {
    let kp = generate_keypair();
    let other = generate_keypair();
    let env = encrypt_message("secret", &kp.public_key).expect("encryption should succeed");
    assert_eq!(
        decrypt_message(&env, &other.private_key),
        Err(CryptoError::AuthFailed)
    );
}

#[test]
fn malformed_hex_is_rejected() {
    let kp = generate_keypair();
    assert_eq!(
        encrypt_message("m", b"zz"),
        Err(CryptoError::InvalidHex)
    );
    assert_eq!(
        decrypt_message(b"zz", &kp.private_key),
        Err(CryptoError::InvalidHex)
    );
    let env = encrypt_message("m", &kp.public_key).unwrap();
    assert_eq!(decrypt_message(&env, b"0g"), Err(CryptoError::InvalidHex));
}

#[test]
fn invalid_key_bytes_are_rejected() {
    // valid hex, but not a point on the curve
    let bogus = "00".repeat(65);
    assert_eq!(
        encrypt_message("m", bogus.as_bytes()),
        Err(CryptoError::InvalidKey)
    );
    let kp = generate_keypair();
    let env = encrypt_message("m", &kp.public_key).unwrap();
    // a private key of the wrong length
    assert_eq!(
        decrypt_message(&env, b"abcd"),
        Err(CryptoError::InvalidKey)
    );
}

#[test]
fn short_envelope_is_rejected_before_any_crypto() {
    let kp = generate_keypair();
    // 4 bytes of well-formed hex: far below the 77-byte minimum
    assert_eq!(
        decrypt_message(b"00ab00ab", &kp.private_key),
        Err(CryptoError::TooShort)
    );
}
