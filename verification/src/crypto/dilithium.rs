use fips204::traits::SerDes;
use pqcrypto_traits::sign::DetachedSignature;
use pqcrypto_traits::sign::PublicKey as PqPublicKey;
use pqcrypto_traits::sign::SecretKey as PqSecretKey;
use rand_core::SeedableRng;
use vstd::prelude::*;
use crate::bytes::read_array;

verus! {

pub const DILITHIUM3_PUBKEY_BYTES: usize = 1952;

pub const DILITHIUM3_PRIVKEY_BYTES: usize = 4032;

pub const DILITHIUM3_SIG_BYTES: usize = 3309;

/// A Dilithium3 public key.
#[derive(Clone, Copy, Debug)]
pub struct PublicKey(pub [u8; 1952]);

/// A Dilithium3 secret key.
#[derive(Clone)]
pub struct SecretKey(pub [u8; 4032]);

/// A detached Dilithium3 signature.
#[derive(Clone, Debug)]
pub struct Signature(pub [u8; 3309]);

/// The ML-DSA-65 key pair (public key, secret key) that key generation
/// derives from a ChaCha20 generator seeded with 32 bytes.
pub uninterp spec fn ml_dsa_65_keypair(seed: Seq<u8>) -> (Seq<u8>, Seq<u8>);

/// The detached Dilithium3 signature of a message under a secret key.
pub uninterp spec fn dilithium3_signature(message: Seq<u8>, secret_key: Seq<u8>) -> Seq<u8>;

/// Whether Dilithium3 verification accepts a detached signature for a message
/// under a public key.
pub uninterp spec fn dilithium3_accepts(
    signature: Seq<u8>,
    message: Seq<u8>,
    public_key: Seq<u8>,
) -> bool;

/// `fips204::ml_dsa_65::try_keygen_with_rng` on a `rand_chacha::ChaCha20Rng`
/// made from `seed`: both keys are a function of the seed alone, named
/// [`ml_dsa_65_keypair`].
#[verifier::external_body]
fn keygen_from_seed(seed: [u8; 32]) -> (keys: ([u8; 1952], [u8; 4032]))
    ensures
        (keys.0@, keys.1@) == ml_dsa_65_keypair(seed@),
{
    let mut rng = rand_chacha::ChaCha20Rng::from_seed(seed);
    let (pk, sk) = fips204::ml_dsa_65::try_keygen_with_rng(&mut rng).expect("keygen failed");
    (pk.into_bytes(), sk.into_bytes())
}

/// Derives a key pair from a 64-byte seed, of which the first 32 bytes are used.
pub fn generate_keypair(seed: &[u8; 64]) -> (keys: (PublicKey, SecretKey))
    ensures
        (keys.0.0@, keys.1.0@) == ml_dsa_65_keypair(seed@.subrange(0, 32)),
{
    let seed_32: [u8; 32] = read_array(seed.as_slice(), 0);
    let (pk, sk) = keygen_from_seed(seed_32);
    (PublicKey(pk), SecretKey(sk))
}

/// `pqcrypto_dilithium::dilithium3::detached_sign`: signing there is
/// deterministic, so the signature is a function of message and key, named
/// [`dilithium3_signature`].
#[verifier::external_body]
pub fn sign(message: &[u8], sk: &SecretKey) -> (sig: Signature)
    ensures
        sig.0@ == dilithium3_signature(message@, sk.0@),
{
    let pq_sk = pqcrypto_dilithium::dilithium3::SecretKey::from_bytes(&sk.0).expect(
        "secret key bytes are always valid",
    );
    let det_sig = pqcrypto_dilithium::dilithium3::detached_sign(message, &pq_sk);
    let mut sig = [0u8; 3309];
    sig.copy_from_slice(det_sig.as_bytes());
    Signature(sig)
}

/// `pqcrypto_dilithium::dilithium3::verify_detached_signature`: whether it
/// accepts is a function of signature, message and key, named
/// [`dilithium3_accepts`]. Never panics; malformed input is not accepted.
#[verifier::external_body]
pub fn verify(message: &[u8], sig: &Signature, pk: &PublicKey) -> (ok: bool)
    ensures
        ok == dilithium3_accepts(sig.0@, message@, pk.0@),
{
    let pq_pk = match pqcrypto_dilithium::dilithium3::PublicKey::from_bytes(&pk.0) {
        Ok(k) => k,
        Err(_) => return false,
    };
    let pq_sig = match pqcrypto_dilithium::dilithium3::DetachedSignature::from_bytes(&sig.0) {
        Ok(s) => s,
        Err(_) => return false,
    };
    pqcrypto_dilithium::dilithium3::verify_detached_signature(&pq_sig, message, &pq_pk).is_ok()
}

} // verus!
