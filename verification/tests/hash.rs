use knotcoin::crypto::hash::{hash_sha3_256, hash_sha3_256_concat, hash_sha512};

#[test]
fn test_sha512_length() {
    let hash = hash_sha512(b"knotcoin");
    assert_eq!(hash.len(), 64);
}

#[test]
fn test_sha3_256_length() {
    let hash = hash_sha3_256(b"knotcoin");
    assert_eq!(hash.len(), 32);
}

#[test]
fn test_known_digests() {
    // SHA3-256 of the empty string
    assert_eq!(
        hash_sha3_256(b"").to_vec(),
        vec![
            0xa7, 0xff, 0xc6, 0xf8, 0xbf, 0x1e, 0xd7, 0x66, 0x51, 0xc1, 0x47, 0x56, 0xa0, 0x61,
            0xd6, 0x62, 0xf5, 0x80, 0xff, 0x4d, 0xe4, 0x3b, 0x49, 0xfa, 0x82, 0xd8, 0x0a, 0x4b,
            0x80, 0xf8, 0x43, 0x4a
        ]
    );
    // SHA-512 of "abc" starts with ddaf35a1
    assert_eq!(&hash_sha512(b"abc")[..4], &[0xdd, 0xaf, 0x35, 0xa1]);
    assert_ne!(hash_sha3_256(b"a"), hash_sha3_256(b"b"));
}

#[test]
fn test_concat_is_hash_of_the_joined_bytes() {
    assert_eq!(hash_sha3_256_concat(b"knot", b"coin"), hash_sha3_256(b"knotcoin"));
    assert_eq!(hash_sha3_256_concat(b"", b"knotcoin"), hash_sha3_256(b"knotcoin"));
    assert_ne!(hash_sha3_256_concat(b"coin", b"knot"), hash_sha3_256(b"knotcoin"));
}
