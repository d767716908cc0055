use knotcoin::crypto::dilithium::{
    generate_keypair, sign, verify, DILITHIUM3_PRIVKEY_BYTES, DILITHIUM3_PUBKEY_BYTES,
    DILITHIUM3_SIG_BYTES,
};

#[test]
fn test_sign_verify() {
    let (pk, sk) = generate_keypair(&[0u8; 64]);
    let msg = b"knotcoin genesis";
    let sig = sign(msg, &sk);
    assert!(verify(msg, &sig, &pk), "valid signature must verify");
}

#[test]
fn test_wrong_message_fails() {
    let (pk, sk) = generate_keypair(&[0u8; 64]);
    let sig = sign(b"correct message", &sk);
    assert!(!verify(b"wrong message", &sig, &pk));
}

#[test]
fn test_wrong_key_fails() {
    let (_pk1, sk1) = generate_keypair(&[0u8; 64]);
    let (pk2, _sk2) = generate_keypair(&[1u8; 64]);
    let sig = sign(b"test", &sk1);
    assert!(!verify(b"test", &sig, &pk2));
}

#[test]
fn test_signature_size() {
    let (_pk, sk) = generate_keypair(&[0u8; 64]);
    let sig = sign(b"knotcoin", &sk);
    assert_eq!(sig.0.len(), DILITHIUM3_SIG_BYTES);
    assert_eq!(DILITHIUM3_SIG_BYTES, 3309);
}

#[test]
fn test_corrupted_signature_rejected() {
    let (pk, sk) = generate_keypair(&[0u8; 64]);
    let msg = b"knotcoin";
    let mut sig = sign(msg, &sk);
    sig.0[100] ^= 0xFF;
    assert!(!verify(msg, &sig, &pk), "corrupted signature must fail");
}

#[test]
fn test_key_sizes() {
    let (pk, sk) = generate_keypair(&[42u8; 64]);
    assert_eq!(pk.0.len(), DILITHIUM3_PUBKEY_BYTES);
    assert_eq!(sk.0.len(), DILITHIUM3_PRIVKEY_BYTES);
    assert_eq!(DILITHIUM3_PUBKEY_BYTES, 1952);
    assert_eq!(DILITHIUM3_PRIVKEY_BYTES, 4032);
}

#[test]
fn test_deterministic_keygen() {
    // Same seed must produce same keys
    let seed = [42u8; 64];
    let (pk1, sk1) = generate_keypair(&seed);
    let (pk2, sk2) = generate_keypair(&seed);

    assert_eq!(pk1.0, pk2.0, "Same seed must produce same public key");
    assert_eq!(sk1.0, sk2.0, "Same seed must produce same secret key");

    // Different seed must produce different keys
    let seed2 = [43u8; 64];
    let (pk3, _sk3) = generate_keypair(&seed2);
    assert_ne!(pk1.0, pk3.0, "Different seeds must produce different keys");
}

#[test]
fn test_keygen_uses_the_first_half_of_the_seed() {
    let mut a = [7u8; 64];
    let mut b = [7u8; 64];
    a[40] = 1;
    b[63] = 2;
    assert_eq!(generate_keypair(&a).0 .0, generate_keypair(&b).0 .0);
    b[0] = 9;
    assert_ne!(generate_keypair(&a).0 .0, generate_keypair(&b).0 .0);
}

#[test]
fn test_signing_is_deterministic() {
    let (pk, sk) = generate_keypair(&[3u8; 64]);
    let s1 = sign(b"same message", &sk);
    let s2 = sign(b"same message", &sk);
    assert_eq!(s1.0.to_vec(), s2.0.to_vec());
    assert_ne!(s1.0.to_vec(), vec![0u8; 3309]);
    assert!(verify(b"same message", &s1, &pk));
}
