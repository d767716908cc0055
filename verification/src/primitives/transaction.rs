use vstd::prelude::*;
use vstd::bytes::spec_u64_to_le_bytes;
use crate::bytes::{array_eq, copy_bytes, put_bytes, put_u64, read_array};
use crate::crypto::dilithium::{dilithium3_accepts, verify, PublicKey, Signature};
use crate::crypto::hash::{hash_sha3_256, sha3_256};
use crate::crypto::keys::{address_of, derive_address};
use crate::node::db_common::{StoredTransaction, TxView};

verus! {

pub const KNOTS_PER_KOT: u64 = 100_000_000;

pub const MIN_FEE_KNOTS: u64 = 1;

/// A transfer of knots, signed by its sender.
#[derive(Debug, Clone)]
pub struct Transaction {
    pub version: u8,
    pub sender_address: [u8; 32],
    pub sender_pubkey: PublicKey,
    pub recipient_address: [u8; 32],
    pub amount: u64,
    pub fee: u64,
    pub nonce: u64,
    pub timestamp: u64,
    /// Only on the sender's first transaction (nonce 1).
    pub referrer_address: Option<[u8; 32]>,
    /// Proposal identifier of a governance signal.
    pub governance_data: Option<[u8; 32]>,
    pub signature: Signature,
}

/// The payload of an optional field inside the signed bytes: the 32 bytes, or nothing.
pub open spec fn optional_payload(f: Option<[u8; 32]>) -> Seq<u8> {
    match f {
        Some(a) => a@,
        None => Seq::<u8>::empty(),
    }
}

/// The bytes that are signed: every field but the signature.
pub open spec fn signing_bytes(t: TxView) -> Seq<u8> {
    seq![t.version] + t.sender_address@ + t.sender_pubkey + t.recipient_address@
        + spec_u64_to_le_bytes(t.amount) + spec_u64_to_le_bytes(t.fee) + spec_u64_to_le_bytes(
        t.nonce,
    ) + spec_u64_to_le_bytes(t.timestamp) + optional_payload(t.referrer_address)
        + optional_payload(t.governance_data)
}

/// The hash that the signature covers.
pub open spec fn signing_hash_of(t: TxView) -> Seq<u8> {
    sha3_256(signing_bytes(t))
}

/// The transaction identifier: SHA3-256 of signing hash ‖ signature.
pub open spec fn txid_of(t: TxView) -> Seq<u8> {
    sha3_256(signing_hash_of(t) + t.signature)
}

/// A zero amount is allowed only to a governance signal or to a referral
/// registration (nonce 1, referrer set, sent to oneself).
pub open spec fn amount_allowed(t: TxView) -> bool {
    t.amount > 0 || t.governance_data.is_some() || (t.nonce == 1 && t.referrer_address.is_some()
        && t.recipient_address == t.sender_address)
}

/// The structural rules of a transaction; state is not consulted.
pub open spec fn structurally_valid(t: TxView) -> bool {
    &&& t.fee >= MIN_FEE_KNOTS
    &&& amount_allowed(t)
    &&& t.amount + t.fee <= u64::MAX
    &&& address_of(t.sender_pubkey) == t.sender_address@
    &&& (t.referrer_address.is_some() ==> t.nonce == 1)
    &&& dilithium3_accepts(t.signature, signing_hash_of(t), t.sender_pubkey)
}

impl View for Transaction {
    type V = TxView;

    open spec fn view(&self) -> TxView {
        TxView {
            version: self.version,
            sender_address: self.sender_address,
            sender_pubkey: self.sender_pubkey.0@,
            recipient_address: self.recipient_address,
            amount: self.amount,
            fee: self.fee,
            nonce: self.nonce,
            timestamp: self.timestamp,
            referrer_address: self.referrer_address,
            governance_data: self.governance_data,
            signature: self.signature.0@,
        }
    }
}

/// The signed bytes of a transaction given by its fields.
fn build_signing_bytes(
    version: u8,
    sender_address: &[u8; 32],
    sender_pubkey: &[u8],
    recipient_address: &[u8; 32],
    amount: u64,
    fee: u64,
    nonce: u64,
    timestamp: u64,
    referrer_address: &Option<[u8; 32]>,
    governance_data: &Option<[u8; 32]>,
) -> (buf: Vec<u8>)
    ensures
        buf@ == seq![version] + sender_address@ + sender_pubkey@ + recipient_address@
            + spec_u64_to_le_bytes(amount) + spec_u64_to_le_bytes(fee) + spec_u64_to_le_bytes(
            nonce,
        ) + spec_u64_to_le_bytes(timestamp) + optional_payload(*referrer_address)
            + optional_payload(*governance_data),
{
    let mut buf: Vec<u8> = Vec::new();
    buf.push(version);
    put_bytes(&mut buf, sender_address.as_slice());
    put_bytes(&mut buf, sender_pubkey);
    put_bytes(&mut buf, recipient_address.as_slice());
    put_u64(&mut buf, amount);
    put_u64(&mut buf, fee);
    put_u64(&mut buf, nonce);
    put_u64(&mut buf, timestamp);
    let ghost before = buf@;
    assert(before =~= seq![version] + sender_address@ + sender_pubkey@ + recipient_address@
        + spec_u64_to_le_bytes(amount) + spec_u64_to_le_bytes(fee) + spec_u64_to_le_bytes(nonce)
        + spec_u64_to_le_bytes(timestamp));
    match referrer_address {
        Some(r) => {
            put_bytes(&mut buf, r.as_slice());
        },
        None => {
            assert(buf@ =~= before + Seq::<u8>::empty());
        },
    }
    let ghost middle = buf@;
    match governance_data {
        Some(g) => {
            put_bytes(&mut buf, g.as_slice());
        },
        None => {
            assert(buf@ =~= middle + Seq::<u8>::empty());
        },
    }
    buf
}

/// The identifier of a stored transaction.
pub fn stored_txid(tx: &StoredTransaction) -> (id: [u8; 32])
    ensures
        id@ == txid_of(tx@),
{
    let buf = build_signing_bytes(
        tx.version,
        &tx.sender_address,
        tx.sender_pubkey.as_slice(),
        &tx.recipient_address,
        tx.amount,
        tx.fee,
        tx.nonce,
        tx.timestamp,
        &tx.referrer_address,
        &tx.governance_data,
    );
    let h = hash_sha3_256(buf.as_slice());
    let mut full: Vec<u8> = Vec::new();
    put_bytes(&mut full, h.as_slice());
    put_bytes(&mut full, tx.signature.as_slice());
    hash_sha3_256(full.as_slice())
}

impl Transaction {
    /// SHA3-256 of the transaction without its signature.
    pub fn signing_hash(&self) -> (h: [u8; 32])
        ensures
            h@ == signing_hash_of(self@),
    {
        let buf = build_signing_bytes(
            self.version,
            &self.sender_address,
            self.sender_pubkey.0.as_slice(),
            &self.recipient_address,
            self.amount,
            self.fee,
            self.nonce,
            self.timestamp,
            &self.referrer_address,
            &self.governance_data,
        );
        hash_sha3_256(buf.as_slice())
    }

    /// The transaction identifier, which commits to the signature too.
    pub fn txid(&self) -> (id: [u8; 32])
        ensures
            id@ == txid_of(self@),
    {
        let h = self.signing_hash();
        self.txid_from(&h)
    }

    /// The identifier, from the signing hash.
    fn txid_from(&self, h: &[u8; 32]) -> (id: [u8; 32])
        requires
            h@ == signing_hash_of(self@),
        ensures
            id@ == txid_of(self@),
    {
        let mut buf: Vec<u8> = Vec::new();
        put_bytes(&mut buf, h.as_slice());
        put_bytes(&mut buf, self.signature.0.as_slice());
        hash_sha3_256(buf.as_slice())
    }

    /// Checks the structural rules; state is not consulted.
    pub fn is_structurally_valid(&self) -> (ok: bool)
        ensures
            ok == structurally_valid(self@),
    {
        let h = self.signing_hash();
        self.valid_under(&h)
    }

    /// The structural rules, from the signing hash.
    fn valid_under(&self, h: &[u8; 32]) -> (ok: bool)
        requires
            h@ == signing_hash_of(self@),
        ensures
            ok == structurally_valid(self@),
    {
        if self.fee < MIN_FEE_KNOTS {
            return false;
        }
        if self.amount == 0 {
            let is_governance_signal = self.governance_data.is_some();
            let is_referral_registration = self.nonce == 1 && self.referrer_address.is_some()
                && array_eq(&self.recipient_address, &self.sender_address);
            if !is_governance_signal && !is_referral_registration {
                return false;
            }
        }
        if self.amount.checked_add(self.fee).is_none() {
            return false;
        }
        let derived = derive_address(&self.sender_pubkey);
        if !array_eq(&derived, &self.sender_address) {
            return false;
        }
        if self.nonce != 1 && self.referrer_address.is_some() {
            return false;
        }
        verify(h.as_slice(), &self.signature, &self.sender_pubkey)
    }

    /// The identifier of a transaction that meets the structural rules,
    /// and `None` for one that does not; the signing hash is computed once.
    pub fn checked_txid(&self) -> (r: Option<[u8; 32]>)
        ensures
            r is Some == structurally_valid(self@),
            r is Some ==> r->Some_0@ == txid_of(self@),
    {
        let h = self.signing_hash();
        if self.valid_under(&h) {
            Some(self.txid_from(&h))
        } else {
            None
        }
    }

    /// The stored form of the transaction.
    pub fn to_stored(&self) -> (st: StoredTransaction)
        ensures
            st@ == self@,
    {
        let sender_pubkey = copy_bytes(self.sender_pubkey.0.as_slice(), 0, 1952);
        let signature = copy_bytes(self.signature.0.as_slice(), 0, 3309);
        assert(sender_pubkey@ =~= self.sender_pubkey.0@);
        assert(signature@ =~= self.signature.0@);
        StoredTransaction {
            version: self.version,
            sender_address: self.sender_address,
            sender_pubkey,
            recipient_address: self.recipient_address,
            amount: self.amount,
            fee: self.fee,
            nonce: self.nonce,
            timestamp: self.timestamp,
            referrer_address: self.referrer_address,
            governance_data: self.governance_data,
            signature,
        }
    }

    /// Reads a stored transaction; its key must have 1952 bytes and its
    /// signature 3309.
    pub fn try_from(st: &StoredTransaction) -> (r: Result<Transaction, &'static str>)
        ensures
            match r {
                Ok(t) => st.sender_pubkey@.len() == 1952 && st.signature@.len() == 3309 && t@
                    == st@,
                Err(e) => if st.sender_pubkey@.len() != 1952 {
                    e == "invalid public key length"
                } else {
                    st.signature@.len() != 3309 && e == "invalid signature length"
                },
            },
    {
        if st.sender_pubkey.len() != 1952 {
            return Err("invalid public key length");
        }
        let pk: [u8; 1952] = read_array(st.sender_pubkey.as_slice(), 0);
        if st.signature.len() != 3309 {
            return Err("invalid signature length");
        }
        let sig: [u8; 3309] = read_array(st.signature.as_slice(), 0);
        assert(pk@ =~= st.sender_pubkey@);
        assert(sig@ =~= st.signature@);
        Ok(
            Transaction {
                version: st.version,
                sender_address: st.sender_address,
                sender_pubkey: PublicKey(pk),
                recipient_address: st.recipient_address,
                amount: st.amount,
                fee: st.fee,
                nonce: st.nonce,
                timestamp: st.timestamp,
                referrer_address: st.referrer_address,
                governance_data: st.governance_data,
                signature: Signature(sig),
            },
        )
    }
}

/// The reward transaction of a block.
pub struct CoinbaseTransaction {
    pub recipient_address: [u8; 32],
    /// Base reward plus fees.
    pub amount: u64,
    /// Minted for the referrer, not taken from the miner.
    pub referral_bonus: u64,
    pub block_height: u64,
}

} // verus!
