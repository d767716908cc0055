use hmac::Mac;
use vstd::prelude::*;
use vstd::utf8::encode_utf8;
use vstd::string::StringSliceAdditionalSpecFns;
use crate::bytes::{put_bytes, read_array, slice_eq};
use crate::crypto::dilithium::{generate_keypair, ml_dsa_65_keypair, PublicKey, SecretKey};
use crate::crypto::hash::{hash_sha3_256, hash_sha512, sha3_256, sha512};
use crate::node::db_common::{array32, lemma_array32};

verus! {

pub const ADDRESS_BYTES: usize = 32;

/// Longest text handed to the base32 decoder.
pub const MAX_ADDRESS_TEXT: usize = 536_870_911;

/// The address of a public key: the first 32 bytes of its SHA-512 digest.
pub open spec fn address_of(public_key: Seq<u8>) -> Seq<u8> {
    sha512(public_key).subrange(0, 32)
}

/// Derives the address of a public key.
pub fn derive_address(pk: &PublicKey) -> (addr: [u8; 32])
    ensures
        addr@ == address_of(pk.0@),
{
    let hash = hash_sha512(pk.0.as_slice());
    read_array(hash.as_slice(), 0)
}

/// Why a text is not an address.
#[derive(Debug, Clone, Copy, PartialEq, Eq, Structural)]
pub enum AddressError {
    InvalidPrefix,
    InvalidEncoding,
    InvalidLength,
    InvalidChecksum,
}

/// What an address error says.
pub open spec fn address_error_text(e: AddressError) -> Seq<char> {
    match e {
        AddressError::InvalidPrefix => "Invalid address prefix: must start with KOT1"@,
        AddressError::InvalidEncoding => "Invalid address encoding"@,
        AddressError::InvalidLength => "Invalid address length"@,
        AddressError::InvalidChecksum => "Invalid address checksum"@,
    }
}

impl AddressError {
    /// The message that goes with the error.
    pub fn message(&self) -> (m: &'static str)
        ensures
            m@ == address_error_text(*self),
    {
        match self {
            AddressError::InvalidPrefix => "Invalid address prefix: must start with KOT1",
            AddressError::InvalidEncoding => "Invalid address encoding",
            AddressError::InvalidLength => "Invalid address length",
            AddressError::InvalidChecksum => "Invalid address checksum",
        }
    }
}

/// The unpadded RFC 4648 base32 text of a byte string, as ASCII bytes.
pub uninterp spec fn base32_nopad(data: Seq<u8>) -> Seq<u8>;

/// The bytes that an unpadded base32 text decodes to, if it is one.
pub uninterp spec fn base32_nopad_decode(text: Seq<u8>) -> Option<Seq<u8>>;

/// A symbol of the base32 alphabet: `A`..`Z` or `2`..`7`.
pub open spec fn is_base32_symbol(b: u8) -> bool {
    (0x41 <= b <= 0x5A) || (0x32 <= b <= 0x37)
}

/// `data_encoding::BASE32_NOPAD.encode`: the text is a function of the input,
/// named [`base32_nopad`]; it has ⌈8·len/5⌉ symbols of the alphabet, and
/// decoding it gives the input back.
#[verifier::external_body]
fn base32_encode(data: &[u8]) -> (text: Vec<u8>)
    requires
        data@.len() <= 8_388_607,
    ensures
        text@ == base32_nopad(data@),
        text@.len() == (8 * data@.len() + 4) / 5,
        forall|i: int| 0 <= i < text@.len() ==> is_base32_symbol(#[trigger] text@[i]),
        base32_nopad_decode(text@) == Some(data@),
{
    data_encoding::BASE32_NOPAD.encode(data).into_bytes()
}

/// `data_encoding::BASE32_NOPAD.decode`: the outcome is a function of the
/// text, named [`base32_nopad_decode`].
#[verifier::external_body]
fn base32_decode(text: &[u8]) -> (data: Option<Vec<u8>>)
    requires
        text@.len() <= MAX_ADDRESS_TEXT,
    ensures
        match data {
            Some(v) => base32_nopad_decode(text@) == Some(v@),
            None => base32_nopad_decode(text@).is_none(),
        },
{
    data_encoding::BASE32_NOPAD.decode(text).ok()
}

/// `String::from_utf8` on bytes below 128: the string's UTF-8 bytes are the input.
#[verifier::external_body]
pub(crate) fn string_from_ascii(bytes: Vec<u8>) -> (s: String)
    requires
        forall|i: int| 0 <= i < bytes@.len() ==> #[trigger] bytes@[i] < 128,
    ensures
        encode_utf8(s@) == bytes@,
{
    String::from_utf8(bytes).unwrap()
}

/// The four bytes `KOT1`.
pub open spec fn address_prefix() -> Seq<u8> {
    seq![0x4Bu8, 0x4Fu8, 0x54u8, 0x31u8]
}

/// The four checksum bytes of an address: the start of
/// SHA3-256(SHA3-256(`KOT1` ‖ address)).
pub open spec fn address_checksum(addr: Seq<u8>) -> Seq<u8> {
    sha3_256(sha3_256(address_prefix() + addr)).subrange(0, 4)
}

/// The text of an address: `KOT1` ‖ base32(address) ‖ base32(checksum).
pub open spec fn address_text(addr: Seq<u8>) -> Seq<u8> {
    address_prefix() + base32_nopad(addr) + base32_nopad(address_checksum(addr))
}

/// What a text decodes to.
pub open spec fn decode_address(text: Seq<u8>) -> Result<[u8; 32], AddressError> {
    if text.len() < 4 || text.subrange(0, 4) != address_prefix() {
        Err(AddressError::InvalidPrefix)
    } else if text.len() < 12 || text.len() > MAX_ADDRESS_TEXT {
        Err(AddressError::InvalidLength)
    } else {
        match base32_nopad_decode(text.subrange(4, text.len() - 7)) {
            None => Err(AddressError::InvalidEncoding),
            Some(addr) => if addr.len() != 32 {
                Err(AddressError::InvalidLength)
            } else if address_text(addr) != text {
                Err(AddressError::InvalidChecksum)
            } else {
                Ok(array32(addr))
            },
        }
    }
}

/// A text is accepted only for the address whose text it is.
pub proof fn law_decoded_text_is_own_text(text: Seq<u8>)
    requires
        decode_address(text) is Ok,
    ensures
        base32_nopad_decode(text.subrange(4, text.len() - 7)) is Some,
        text == address_text(base32_nopad_decode(text.subrange(4, text.len() - 7))->Some_0),
{
}

/// A text that differs from an accepted one outside the 52 symbols of the
/// address (in the prefix or in the checksum) is rejected.
pub proof fn law_mutated_prefix_or_checksum_rejected(text: Seq<u8>, mutated: Seq<u8>)
    requires
        decode_address(text) is Ok,
        mutated.len() == text.len(),
        mutated != text,
        mutated.subrange(4, mutated.len() - 7) == text.subrange(4, text.len() - 7),
    ensures
        decode_address(mutated) is Err,
{
}

/// The text of an address as bytes.
fn address_text_bytes(addr: &[u8; 32]) -> (text: Vec<u8>)
    ensures
        text@ == address_text(addr@),
        text@.len() == 63,
        forall|i: int| 0 <= i < text@.len() ==> #[trigger] text@[i] < 128,
        decode_address(text@) == Ok::<[u8; 32], AddressError>(*addr),
{
    let b32 = base32_encode(addr.as_slice());
    let mut payload: Vec<u8> = Vec::with_capacity(36);
    payload.push(0x4B);
    payload.push(0x4F);
    payload.push(0x54);
    payload.push(0x31);
    put_bytes(&mut payload, addr.as_slice());
    assert(payload@ =~= address_prefix() + addr@);
    let hash1 = hash_sha3_256(payload.as_slice());
    let hash2 = hash_sha3_256(hash1.as_slice());
    let sum: [u8; 4] = read_array(hash2.as_slice(), 0);
    let checksum = base32_encode(sum.as_slice());
    let mut text: Vec<u8> = Vec::with_capacity(63);
    text.push(0x4B);
    text.push(0x4F);
    text.push(0x54);
    text.push(0x31);
    assert(text@ =~= address_prefix());
    put_bytes(&mut text, b32.as_slice());
    put_bytes(&mut text, checksum.as_slice());
    assert forall|i: int| 0 <= i < text@.len() implies #[trigger] text@[i] < 128 by {
        if i >= 4 && i < 4 + b32@.len() {
            assert(is_base32_symbol(b32@[i - 4]));
        } else if i >= 4 + b32@.len() {
            assert(is_base32_symbol(checksum@[i - 4 - b32@.len()]));
        }
    }
    proof {
        assert(text@.subrange(0, 4) =~= address_prefix());
        assert(text@.subrange(4, text@.len() - 7) =~= b32@);
        lemma_array32(*addr);
    }
    text
}

/// Writes an address as text. Reading the text gives the address back.
pub fn encode_address_string(addr: &[u8; 32]) -> (s: String)
    ensures
        encode_utf8(s@) == address_text(addr@),
        decode_address(encode_utf8(s@)) == Ok::<[u8; 32], AddressError>(*addr),
{
    string_from_ascii(address_text_bytes(addr))
}

/// Reads an address from text; any text that is not exactly the text of an
/// address is rejected.
pub fn decode_address_string(s: &str) -> (r: Result<[u8; 32], AddressError>)
    ensures
        r == decode_address(s.spec_bytes()),
        r is Ok ==> s.spec_bytes() == address_text(r->Ok_0@),
{
    let text = s.as_bytes();
    let len = text.len();
    if len < 4 || text[0] != 0x4B || text[1] != 0x4F || text[2] != 0x54 || text[3] != 0x31 {
        proof {
            if len >= 4 {
                let p = text@.subrange(0, 4);
                assert(p[0] == text@[0] && p[1] == text@[1] && p[2] == text@[2] && p[3]
                    == text@[3]);
            }
        }
        return Err(AddressError::InvalidPrefix);
    }
    assert(text@.subrange(0, 4) =~= address_prefix());
    if len < 12 || len > MAX_ADDRESS_TEXT {
        return Err(AddressError::InvalidLength);
    }
    let addr_part = vstd::slice::slice_subrange(text, 4, len - 7);
    let addr_bytes = match base32_decode(addr_part) {
        Some(v) => v,
        None => {
            return Err(AddressError::InvalidEncoding);
        },
    };
    if addr_bytes.len() != 32 {
        return Err(AddressError::InvalidLength);
    }
    let addr: [u8; 32] = read_array(addr_bytes.as_slice(), 0);
    assert(addr@ =~= addr_bytes@);
    let expected = address_text_bytes(&addr);
    if slice_eq(expected.as_slice(), text) {
        proof {
            lemma_array32(addr);
        }
        Ok(addr)
    } else {
        Err(AddressError::InvalidChecksum)
    }
}

/// The HMAC-SHA-512 tag of a message under a key.
pub uninterp spec fn hmac_sha512(key: Seq<u8>, message: Seq<u8>) -> Seq<u8>;

/// The first 64 bytes that PBKDF2 with HMAC-SHA-512 derives from a password
/// and a salt in `rounds` rounds.
pub uninterp spec fn pbkdf2_hmac_sha512(password: Seq<u8>, salt: Seq<u8>, rounds: u32) -> Seq<u8>;

/// `hmac::Hmac<sha2::Sha512>` (`new_from_slice`, `update`, `finalize`): the
/// 64 bytes of the tag are a function of key and message, named
/// [`hmac_sha512`]. A key of any length is taken.
#[verifier::external_body]
fn hmac_sha512_tag(key: &[u8], message: &[u8]) -> (tag: [u8; 64])
    ensures
        tag@ == hmac_sha512(key@, message@),
{
    let mut mac = hmac::Hmac::<sha2::Sha512>::new_from_slice(key).expect("any key length");
    mac.update(message);
    let mut tag = [0u8; 64];
    tag.copy_from_slice(&mac.finalize().into_bytes());
    tag
}

/// `pbkdf2::pbkdf2` with `hmac::Hmac<sha2::Sha512>` and an output of 64
/// bytes: the output is a function of password, salt and the number of
/// rounds, named [`pbkdf2_hmac_sha512`].
#[verifier::external_body]
fn pbkdf2_sha512(password: &[u8], salt: &[u8], rounds: u32) -> (out: [u8; 64])
    ensures
        out@ == pbkdf2_hmac_sha512(password@, salt@, rounds),
{
    let mut out = [0u8; 64];
    pbkdf2::pbkdf2::<hmac::Hmac<sha2::Sha512>>(password, salt, rounds, &mut out).expect(
        "any key length",
    );
    out
}

/// Rounds of PBKDF2 that a mnemonic is stretched with.
pub const SEED_ROUNDS: u32 = 2048;

/// The bytes of `mnemonic`, which the salt of a mnemonic begins with.
pub open spec fn salt_prefix() -> Seq<u8> {
    seq![0x6Du8, 0x6Eu8, 0x65u8, 0x6Du8, 0x6Fu8, 0x6Eu8, 0x69u8, 0x63u8]
}

/// The bytes of `Knotcoin seed v1`, the key of the master seed.
pub open spec fn master_tag() -> Seq<u8> {
    seq![
        0x4Bu8, 0x6Eu8, 0x6Fu8, 0x74u8, 0x63u8, 0x6Fu8, 0x69u8, 0x6Eu8,
        0x20u8, 0x73u8, 0x65u8, 0x65u8, 0x64u8, 0x20u8, 0x76u8, 0x31u8,
    ]
}

/// The bytes of `Knotcoin account`, the key of an account seed.
pub open spec fn account_tag() -> Seq<u8> {
    seq![
        0x4Bu8, 0x6Eu8, 0x6Fu8, 0x74u8, 0x63u8, 0x6Fu8, 0x69u8, 0x6Eu8,
        0x20u8, 0x61u8, 0x63u8, 0x63u8, 0x6Fu8, 0x75u8, 0x6Eu8, 0x74u8,
    ]
}

/// The eight bytes of `v`, the most significant first.
pub open spec fn be64(v: u64) -> Seq<u8> {
    seq![
        (v >> 56) as u8,
        (v >> 48) as u8,
        (v >> 40) as u8,
        (v >> 32) as u8,
        (v >> 24) as u8,
        (v >> 16) as u8,
        (v >> 8) as u8,
        v as u8,
    ]
}

/// The master seed of a mnemonic and a passphrase: the mnemonic stretched
/// with the salt `mnemonic` ‖ passphrase in 2048 rounds, and the result
/// tagged under the key `Knotcoin seed v1`.
pub open spec fn master_seed(mnemonic: Seq<u8>, passphrase: Seq<u8>) -> Seq<u8> {
    hmac_sha512(
        master_tag(),
        pbkdf2_hmac_sha512(mnemonic, salt_prefix() + passphrase, SEED_ROUNDS),
    )
}

/// The seed of the account `index` under a master seed: the tag of
/// master ‖ index (eight bytes, big-endian) under the key `Knotcoin account`.
pub open spec fn account_seed(master: Seq<u8>, index: u64) -> Seq<u8> {
    hmac_sha512(account_tag(), master + be64(index))
}

fn master_seed_of(mnemonic: &[u8], passphrase: &[u8]) -> (seed: [u8; 64])
    ensures
        seed@ == master_seed(mnemonic@, passphrase@),
{
    let prefix: [u8; 8] = [0x6D, 0x6E, 0x65, 0x6D, 0x6F, 0x6E, 0x69, 0x63];
    let tag: [u8; 16] = [
        0x4B, 0x6E, 0x6F, 0x74, 0x63, 0x6F, 0x69, 0x6E,
        0x20, 0x73, 0x65, 0x65, 0x64, 0x20, 0x76, 0x31,
    ];
    assert(prefix@ =~= salt_prefix());
    assert(tag@ =~= master_tag());
    let mut salt: Vec<u8> = Vec::new();
    put_bytes(&mut salt, prefix.as_slice());
    put_bytes(&mut salt, passphrase);
    assert(salt@ =~= salt_prefix() + passphrase@);
    let stretched = pbkdf2_sha512(mnemonic, salt.as_slice(), SEED_ROUNDS);
    hmac_sha512_tag(tag.as_slice(), stretched.as_slice())
}

/// Derives the master seed of a mnemonic.
pub fn derive_master_seed(mnemonic: &str, passphrase: &str) -> (seed: [u8; 64])
    ensures
        seed@ == master_seed(mnemonic.spec_bytes(), passphrase.spec_bytes()),
{
    master_seed_of(mnemonic.as_bytes(), passphrase.as_bytes())
}

/// Derives the seed of an account; account 0 is the primary one.
pub fn derive_account_seed(master_seed: &[u8; 64], account_index: u64) -> (seed: [u8; 64])
    ensures
        seed@ == account_seed(master_seed@, account_index),
{
    let tag: [u8; 16] = [
        0x4B, 0x6E, 0x6F, 0x74, 0x63, 0x6F, 0x69, 0x6E,
        0x20, 0x61, 0x63, 0x63, 0x6F, 0x75, 0x6E, 0x74,
    ];
    assert(tag@ =~= account_tag());
    let v = account_index;
    let index: [u8; 8] = [
        (v >> 56) as u8,
        (v >> 48) as u8,
        (v >> 40) as u8,
        (v >> 32) as u8,
        (v >> 24) as u8,
        (v >> 16) as u8,
        (v >> 8) as u8,
        v as u8,
    ];
    assert(index@ =~= be64(v));
    let mut message: Vec<u8> = Vec::new();
    put_bytes(&mut message, master_seed.as_slice());
    put_bytes(&mut message, index.as_slice());
    assert(message@ =~= master_seed@ + be64(v));
    hmac_sha512_tag(tag.as_slice(), message.as_slice())
}

/// The seed of the primary account of a mnemonic without a passphrase.
pub open spec fn mnemonic_seed(mnemonic: Seq<u8>) -> Seq<u8> {
    account_seed(master_seed(mnemonic, Seq::<u8>::empty()), 0)
}

/// The address of the primary account of a mnemonic.
pub open spec fn mnemonic_address(mnemonic: Seq<u8>) -> Seq<u8> {
    address_of(ml_dsa_65_keypair(mnemonic_seed(mnemonic).subrange(0, 32)).0)
}

/// The key pair of a mnemonic's primary account: the pair that the seed of
/// account 0 under the master seed of the mnemonic, without a passphrase,
/// gives.
pub fn derive_keypair_from_mnemonic(mnemonic: &str) -> (keys: (PublicKey, SecretKey))
    ensures
        (keys.0.0@, keys.1.0@) == ml_dsa_65_keypair(
            mnemonic_seed(mnemonic.spec_bytes()).subrange(0, 32),
        ),
{
    let none: Vec<u8> = Vec::new();
    let master = master_seed_of(mnemonic.as_bytes(), none.as_slice());
    let seed = derive_account_seed(&master, 0);
    generate_keypair(&seed)
}

} // verus!
