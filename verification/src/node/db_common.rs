use vstd::prelude::*;
use vstd::bytes::{spec_u32_to_le_bytes, spec_u64_to_le_bytes};
use crate::bytes::{get_u32, get_u64, le32, le64, put_bytes, put_u32, put_u64, read_array, copy_bytes};

verus! {

/// The 32-byte array whose bytes are `s`.
pub open spec fn array32(s: Seq<u8>) -> [u8; 32] {
    choose|a: [u8; 32]| a@ == s
}

/// An array is the only array with its bytes.
pub proof fn lemma_array32(a: [u8; 32])
    ensures
        array32(a@) == a,
{
    let b = array32(a@);
    assert(b@ == a@);
    assert(b =~= a);
}

/// Per-address ledger record.
///
/// Serialised form (fields are only ever appended):
///   balance (8, LE) ‖ nonce (8, LE) ‖ flag (1) ‖ referrer (32, only if flag = 1)
///   ‖ last_mined_height (8) ‖ total_referred_miners (8)
///   ‖ total_referral_bonus_earned (8) ‖ governance_weight (8)
///   ‖ total_blocks_mined (8)
#[derive(Debug, Clone, Copy)]
pub struct AccountState {
    pub balance: u64,
    pub nonce: u64,
    pub referrer: Option<[u8; 32]>,
    pub last_mined_height: u64,
    pub total_referred_miners: u64,
    pub total_referral_bonus_earned: u64,
    pub governance_weight: u64,
    pub total_blocks_mined: u64,
}

/// Flag byte and payload of an optional 32-byte field.
pub open spec fn optional_field_bytes(f: Option<[u8; 32]>) -> Seq<u8> {
    match f {
        Some(a) => seq![1u8] + a@,
        None => seq![0u8],
    }
}

/// The serialised form of an account record.
pub open spec fn account_bytes(a: AccountState) -> Seq<u8> {
    spec_u64_to_le_bytes(a.balance) + spec_u64_to_le_bytes(a.nonce) + optional_field_bytes(
        a.referrer,
    ) + spec_u64_to_le_bytes(a.last_mined_height) + spec_u64_to_le_bytes(a.total_referred_miners)
        + spec_u64_to_le_bytes(a.total_referral_bonus_earned) + spec_u64_to_le_bytes(
        a.governance_weight,
    ) + spec_u64_to_le_bytes(a.total_blocks_mined)
}

/// A trailing eight-byte field at `off`, read as zero where the record ends before it.
pub open spec fn trailing_u64(d: Seq<u8>, off: int) -> u64 {
    if d.len() >= off + 8 {
        le64(d.subrange(off, off + 8))
    } else {
        0
    }
}

/// The record a byte string stands for, or why it stands for none.
pub open spec fn parse_account(d: Seq<u8>) -> Result<AccountState, &'static str> {
    if d.len() < 17 {
        Err("account record too short")
    } else if d[16] == 1 && d.len() < 49 {
        Err("truncated referrer")
    } else {
        let off: int = if d[16] == 1 { 49 } else { 17 };
        Ok(
            AccountState {
                balance: le64(d.subrange(0, 8)),
                nonce: le64(d.subrange(8, 16)),
                referrer: if d[16] == 1 {
                    Some(array32(d.subrange(17, 49)))
                } else {
                    None
                },
                last_mined_height: trailing_u64(d, off),
                total_referred_miners: trailing_u64(d, off + 8),
                total_referral_bonus_earned: trailing_u64(d, off + 16),
                governance_weight: trailing_u64(d, off + 24),
                total_blocks_mined: trailing_u64(d, off + 32),
            },
        )
    }
}

/// Reading the serialised form of an account record gives the record back.
pub proof fn law_account_round_trip(a: AccountState)
    ensures
        parse_account(account_bytes(a)) == Ok::<AccountState, &'static str>(a),
{
    vstd::bytes::lemma_auto_spec_u64_to_from_le_bytes();
    let d = account_bytes(a);
    let b0 = spec_u64_to_le_bytes(a.balance);
    let b1 = spec_u64_to_le_bytes(a.nonce);
    let b2 = optional_field_bytes(a.referrer);
    let b3 = spec_u64_to_le_bytes(a.last_mined_height);
    let b4 = spec_u64_to_le_bytes(a.total_referred_miners);
    let b5 = spec_u64_to_le_bytes(a.total_referral_bonus_earned);
    let b6 = spec_u64_to_le_bytes(a.governance_weight);
    let b7 = spec_u64_to_le_bytes(a.total_blocks_mined);
    assert(b0.len() == 8 && b1.len() == 8 && b3.len() == 8 && b4.len() == 8 && b5.len() == 8
        && b6.len() == 8 && b7.len() == 8);
    assert(d.subrange(0, 8) =~= b0);
    assert(d.subrange(8, 16) =~= b1);
    match a.referrer {
        Some(r) => {
            assert(b2.len() == 33);
            assert(d[16] == 1);
            assert(d.subrange(17, 49) =~= r@);
            lemma_array32(r);
            assert(d.subrange(49, 57) =~= b3);
            assert(d.subrange(57, 65) =~= b4);
            assert(d.subrange(65, 73) =~= b5);
            assert(d.subrange(73, 81) =~= b6);
            assert(d.subrange(81, 89) =~= b7);
        },
        None => {
            assert(b2.len() == 1);
            assert(d[16] == 0);
            assert(d.subrange(17, 25) =~= b3);
            assert(d.subrange(25, 33) =~= b4);
            assert(d.subrange(33, 41) =~= b5);
            assert(d.subrange(41, 49) =~= b6);
            assert(d.subrange(49, 57) =~= b7);
        },
    }
}

/// Appends the flag byte and payload of an optional 32-byte field.
pub fn put_optional_field(buf: &mut Vec<u8>, f: &Option<[u8; 32]>)
    ensures
        final(buf)@ == old(buf)@ + optional_field_bytes(*f),
{
    match f {
        Some(r) => {
            buf.push(1);
            put_bytes(buf, r.as_slice());
            assert(buf@ =~= old(buf)@ + (seq![1u8] + r@));
        },
        None => {
            buf.push(0);
            assert(buf@ =~= old(buf)@ + seq![0u8]);
        },
    }
}

/// Reads a trailing eight-byte field, zero where the record is too short.
fn read_trailing_u64(d: &[u8], off: usize) -> (v: u64)
    requires
        off <= 100,
    ensures
        v == trailing_u64(d@, off as int),
{
    if d.len() >= off + 8 {
        get_u64(d, off)
    } else {
        0
    }
}

impl AccountState {
    /// The all-zero record, which a missing account is equal to.
    pub open spec fn spec_empty() -> AccountState {
        AccountState {
            balance: 0,
            nonce: 0,
            referrer: None,
            last_mined_height: 0,
            total_referred_miners: 0,
            total_referral_bonus_earned: 0,
            governance_weight: 0,
            total_blocks_mined: 0,
        }
    }

    pub fn empty() -> (a: Self)
        ensures
            a == Self::spec_empty(),
    {
        AccountState {
            balance: 0,
            nonce: 0,
            referrer: None,
            last_mined_height: 0,
            total_referred_miners: 0,
            total_referral_bonus_earned: 0,
            governance_weight: 0,
            total_blocks_mined: 0,
        }
    }

    pub fn to_bytes(&self) -> (b: Vec<u8>)
        ensures
            b@ == account_bytes(*self),
    {
        let mut b: Vec<u8> = Vec::with_capacity(89);
        put_u64(&mut b, self.balance);
        put_u64(&mut b, self.nonce);
        put_optional_field(&mut b, &self.referrer);
        put_u64(&mut b, self.last_mined_height);
        put_u64(&mut b, self.total_referred_miners);
        put_u64(&mut b, self.total_referral_bonus_earned);
        put_u64(&mut b, self.governance_weight);
        put_u64(&mut b, self.total_blocks_mined);
        assert(b@ =~= account_bytes(*self));
        b
    }

    pub fn from_bytes(d: &[u8]) -> (r: Result<Self, &'static str>)
        ensures
            r == parse_account(d@),
    {
        if d.len() < 17 {
            return Err("account record too short");
        }
        let balance = get_u64(d, 0);
        let nonce = get_u64(d, 8);
        let mut off: usize = 17;
        let referrer = if d[16] == 1 {
            if d.len() < 49 {
                return Err("truncated referrer");
            }
            let r: [u8; 32] = read_array(d, 17);
            proof {
                lemma_array32(r);
            }
            off = 49;
            Some(r)
        } else {
            None
        };
        let last_mined_height = read_trailing_u64(d, off);
        let total_referred_miners = read_trailing_u64(d, off + 8);
        let total_referral_bonus_earned = read_trailing_u64(d, off + 16);
        let governance_weight = read_trailing_u64(d, off + 24);
        let total_blocks_mined = read_trailing_u64(d, off + 32);
        Ok(
            AccountState {
                balance,
                nonce,
                referrer,
                last_mined_height,
                total_referred_miners,
                total_referral_bonus_earned,
                governance_weight,
                total_blocks_mined,
            },
        )
    }
}

impl Default for AccountState {
    fn default() -> (a: Self)
        ensures
            a == AccountState::spec_empty(),
    {
        AccountState::empty()
    }
}


/// A transaction as it is stored and sent.
///
/// Serialised form:
///   version (1) ‖ sender (32) ‖ key length (4, LE) ‖ key ‖ recipient (32)
///   ‖ amount (8) ‖ fee (8) ‖ nonce (8) ‖ timestamp (8)
///   ‖ flag (1) [‖ referrer (32)] ‖ flag (1) [‖ proposal (32)]
///   ‖ signature length (4, LE) ‖ signature
#[derive(Debug, Clone)]
pub struct StoredTransaction {
    pub version: u8,
    pub sender_address: [u8; 32],
    pub sender_pubkey: Vec<u8>,
    pub recipient_address: [u8; 32],
    pub amount: u64,
    pub fee: u64,
    pub nonce: u64,
    pub timestamp: u64,
    pub referrer_address: Option<[u8; 32]>,
    pub governance_data: Option<[u8; 32]>,
    pub signature: Vec<u8>,
}

/// The mathematical value of a stored transaction.
pub ghost struct TxView {
    pub version: u8,
    pub sender_address: [u8; 32],
    pub sender_pubkey: Seq<u8>,
    pub recipient_address: [u8; 32],
    pub amount: u64,
    pub fee: u64,
    pub nonce: u64,
    pub timestamp: u64,
    pub referrer_address: Option<[u8; 32]>,
    pub governance_data: Option<[u8; 32]>,
    pub signature: Seq<u8>,
}

impl View for StoredTransaction {
    type V = TxView;

    open spec fn view(&self) -> TxView {
        TxView {
            version: self.version,
            sender_address: self.sender_address,
            sender_pubkey: self.sender_pubkey@,
            recipient_address: self.recipient_address,
            amount: self.amount,
            fee: self.fee,
            nonce: self.nonce,
            timestamp: self.timestamp,
            referrer_address: self.referrer_address,
            governance_data: self.governance_data,
            signature: self.signature@,
        }
    }
}

/// A length as it is written into a four-byte length field.
pub open spec fn length_field(n: nat) -> u32 {
    (n % 0x1_0000_0000) as u32
}

/// The serialised form of a transaction.
pub open spec fn tx_bytes(t: TxView) -> Seq<u8> {
    seq![t.version] + t.sender_address@ + spec_u32_to_le_bytes(length_field(t.sender_pubkey.len()))
        + t.sender_pubkey + t.recipient_address@ + spec_u64_to_le_bytes(t.amount)
        + spec_u64_to_le_bytes(t.fee) + spec_u64_to_le_bytes(t.nonce) + spec_u64_to_le_bytes(
        t.timestamp,
    ) + optional_field_bytes(t.referrer_address) + optional_field_bytes(t.governance_data)
        + spec_u32_to_le_bytes(length_field(t.signature.len())) + t.signature
}

/// An optional 32-byte field that may be cut off at the end of the input.
///
/// Gives the field and the offset behind it; `None` where the flag is set but
/// fewer than 32 bytes follow.
pub open spec fn parse_optional_field(d: Seq<u8>, off: int) -> Option<(Option<[u8; 32]>, int)> {
    if d.len() <= off {
        Some((None, off))
    } else if d[off] != 1 {
        Some((None, off + 1))
    } else if d.len() < off + 33 {
        None
    } else {
        Some((Some(array32(d.subrange(off + 1, off + 33))), off + 33))
    }
}

/// The signature field at `off`: absent (empty) where fewer than four bytes
/// are left, `None` where the announced length overruns the input.
pub open spec fn parse_signature(d: Seq<u8>, off: int) -> Option<(Seq<u8>, int)> {
    if d.len() < off + 4 {
        Some((Seq::<u8>::empty(), off))
    } else {
        let n = le32(d.subrange(off, off + 4)) as int;
        if d.len() < off + 4 + n {
            None
        } else {
            Some((d.subrange(off + 4, off + 4 + n), off + 4 + n))
        }
    }
}

/// The transaction at the start of `d` and the number of bytes it takes, or
/// why there is none.
pub open spec fn parse_tx(d: Seq<u8>) -> Result<(TxView, nat), &'static str> {
    if d.len() < 1 {
        Err("tx too short: missing version")
    } else if d.len() < 33 {
        Err("tx: missing sender_address")
    } else if d.len() < 37 {
        Err("tx: missing pubkey len")
    } else {
        let pk_len = le32(d.subrange(33, 37)) as int;
        if d.len() < 37 + pk_len {
            Err("tx: missing pubkey data")
        } else if d.len() < 69 + pk_len {
            Err("tx: missing recipient")
        } else if d.len() < 101 + pk_len {
            Err("tx: missing core scalar fields")
        } else {
            let base = 69 + pk_len;
            match parse_optional_field(d, base + 32) {
                None => Err("tx: truncated referrer address"),
                Some((referrer_address, off1)) => match parse_optional_field(d, off1) {
                    None => Err("tx: truncated governance data"),
                    Some((governance_data, off2)) => match parse_signature(d, off2) {
                        None => Err("tx: truncated signature"),
                        Some((signature, end)) => Ok(
                            (
                                TxView {
                                    version: d[0],
                                    sender_address: array32(d.subrange(1, 33)),
                                    sender_pubkey: d.subrange(37, 37 + pk_len),
                                    recipient_address: array32(d.subrange(37 + pk_len, base)),
                                    amount: le64(d.subrange(base, base + 8)),
                                    fee: le64(d.subrange(base + 8, base + 16)),
                                    nonce: le64(d.subrange(base + 16, base + 24)),
                                    timestamp: le64(d.subrange(base + 24, base + 32)),
                                    referrer_address,
                                    governance_data,
                                    signature,
                                },
                                end as nat,
                            ),
                        ),
                    },
                },
            }
        }
    }
}

/// Reading an optional field that was written at `off` gives the field back.
proof fn lemma_optional_field_round_trip(d: Seq<u8>, off: int, f: Option<[u8; 32]>)
    requires
        0 <= off,
        off + optional_field_bytes(f).len() <= d.len(),
        d.subrange(off, off + optional_field_bytes(f).len()) == optional_field_bytes(f),
    ensures
        parse_optional_field(d, off) == Some((f, off + optional_field_bytes(f).len())),
{
    let w = optional_field_bytes(f);
    assert(d[off] == w[0]);
    match f {
        Some(a) => {
            assert(d.subrange(off + 1, off + 33) =~= w.subrange(1, 33));
            assert(w.subrange(1, 33) =~= a@);
            lemma_array32(a);
        },
        None => {},
    }
}

/// Reading the serialised form of a transaction gives the transaction
/// back, and takes all of its bytes; key and signature must be short
/// enough for their length fields.
pub proof fn law_tx_round_trip(t: TxView, rest: Seq<u8>)
    requires
        t.sender_pubkey.len() < 0x1_0000_0000,
        t.signature.len() < 0x1_0000_0000,
    ensures
        parse_tx(tx_bytes(t) + rest) == Ok::<(TxView, nat), &'static str>(
            (t, tx_bytes(t).len()),
        ),
{
    vstd::bytes::lemma_auto_spec_u64_to_from_le_bytes();
    vstd::bytes::lemma_auto_spec_u32_to_from_le_bytes();
    let own = tx_bytes(t);
    let d = own + rest;
    let pk = t.sender_pubkey;
    let n = pk.len() as int;
    let lp = spec_u32_to_le_bytes(length_field(pk.len()));
    let ls = spec_u32_to_le_bytes(length_field(t.signature.len()));
    let a = spec_u64_to_le_bytes(t.amount);
    let f = spec_u64_to_le_bytes(t.fee);
    let c = spec_u64_to_le_bytes(t.nonce);
    let ts = spec_u64_to_le_bytes(t.timestamp);
    let r = optional_field_bytes(t.referrer_address);
    let g = optional_field_bytes(t.governance_data);
    assert(lp.len() == 4 && ls.len() == 4 && a.len() == 8 && f.len() == 8 && c.len() == 8
        && ts.len() == 8);
    assert(t.sender_address@.len() == 32 && t.recipient_address@.len() == 32);
    let base = 69 + n;
    let o1 = base + 32;
    let o2 = o1 + r.len();
    let o3 = o2 + g.len();
    assert(own.len() == o3 + 4 + t.signature.len());
    assert(d[0] == t.version);
    assert(d.subrange(1, 33) =~= t.sender_address@);
    assert(d.subrange(33, 37) =~= lp);
    assert(le32(d.subrange(33, 37)) == n);
    assert(d.subrange(37, 37 + n) =~= pk);
    assert(d.subrange(37 + n, base) =~= t.recipient_address@);
    assert(d.subrange(base, base + 8) =~= a);
    assert(d.subrange(base + 8, base + 16) =~= f);
    assert(d.subrange(base + 16, base + 24) =~= c);
    assert(d.subrange(base + 24, base + 32) =~= ts);
    assert(d.subrange(o1, o1 + r.len()) =~= r);
    assert(d.subrange(o2, o2 + g.len()) =~= g);
    lemma_optional_field_round_trip(d, o1, t.referrer_address);
    lemma_optional_field_round_trip(d, o2, t.governance_data);
    assert(d.subrange(o3, o3 + 4) =~= ls);
    assert(le32(d.subrange(o3, o3 + 4)) == t.signature.len());
    assert(d.subrange(o3 + 4, o3 + 4 + t.signature.len()) =~= t.signature);
    lemma_array32(t.sender_address);
    lemma_array32(t.recipient_address);
}

/// Reads an optional 32-byte field at `off`.
fn read_optional_field(d: &[u8], off: usize) -> (r: Option<(Option<[u8; 32]>, usize)>)
    requires
        off <= d@.len(),
    ensures
        match r {
            Some((f, next)) => parse_optional_field(d@, off as int) == Some((f, next as int))
                && off <= next <= d@.len(),
            None => parse_optional_field(d@, off as int).is_none(),
        },
{
    if d.len() <= off {
        return Some((None, off));
    }
    if d[off] != 1 {
        return Some((None, off + 1));
    }
    if d.len() - off < 33 {
        return None;
    }
    let f: [u8; 32] = read_array(d, off + 1);
    proof {
        lemma_array32(f);
    }
    Some((Some(f), off + 33))
}

impl StoredTransaction {
    /// A copy with the same value.
    pub fn duplicate(&self) -> (t: Self)
        ensures
            t@ == self@,
    {
        let sender_pubkey = copy_bytes(self.sender_pubkey.as_slice(), 0, self.sender_pubkey.len());
        let signature = copy_bytes(self.signature.as_slice(), 0, self.signature.len());
        assert(sender_pubkey@ =~= self.sender_pubkey@);
        assert(signature@ =~= self.signature@);
        StoredTransaction {
            version: self.version,
            sender_address: self.sender_address,
            sender_pubkey,
            recipient_address: self.recipient_address,
            amount: self.amount,
            fee: self.fee,
            nonce: self.nonce,
            timestamp: self.timestamp,
            referrer_address: self.referrer_address,
            governance_data: self.governance_data,
            signature,
        }
    }

    pub fn to_bytes(&self) -> (b: Vec<u8>)
        ensures
            b@ == tx_bytes(self@),
    {
        let mut b: Vec<u8> = Vec::new();
        b.push(self.version);
        put_bytes(&mut b, self.sender_address.as_slice());
        put_u32(&mut b, (self.sender_pubkey.len() as u64 % 0x1_0000_0000u64) as u32);
        put_bytes(&mut b, self.sender_pubkey.as_slice());
        put_bytes(&mut b, self.recipient_address.as_slice());
        put_u64(&mut b, self.amount);
        put_u64(&mut b, self.fee);
        put_u64(&mut b, self.nonce);
        put_u64(&mut b, self.timestamp);
        put_optional_field(&mut b, &self.referrer_address);
        put_optional_field(&mut b, &self.governance_data);
        put_u32(&mut b, (self.signature.len() as u64 % 0x1_0000_0000u64) as u32);
        put_bytes(&mut b, self.signature.as_slice());
        assert(b@ =~= tx_bytes(self@));
        b
    }

    /// Parses one transaction from the start of `d`; also gives the number of
    /// bytes it took.
    pub fn from_bytes(d: &[u8]) -> (r: Result<(Self, usize), &'static str>)
        ensures
            match r {
                Ok((t, n)) => parse_tx(d@) == Ok::<(TxView, nat), &'static str>((t@, n as nat))
                    && n <= d@.len(),
                Err(e) => parse_tx(d@) == Err::<(TxView, nat), &'static str>(e),
            },
    {
        let len = d.len();
        if len < 1 {
            return Err("tx too short: missing version");
        }
        let version = d[0];
        if len < 33 {
            return Err("tx: missing sender_address");
        }
        let sender_address: [u8; 32] = read_array(d, 1);
        if len < 37 {
            return Err("tx: missing pubkey len");
        }
        let pk_len = get_u32(d, 33) as usize;
        if len - 37 < pk_len {
            return Err("tx: missing pubkey data");
        }
        let sender_pubkey = copy_bytes(d, 37, 37 + pk_len);
        let mut off: usize = 37 + pk_len;
        if len - off < 32 {
            return Err("tx: missing recipient");
        }
        let recipient_address: [u8; 32] = read_array(d, off);
        off += 32;
        if len - off < 32 {
            return Err("tx: missing core scalar fields");
        }
        let amount = get_u64(d, off);
        let fee = get_u64(d, off + 8);
        let nonce = get_u64(d, off + 16);
        let timestamp = get_u64(d, off + 24);
        off += 32;
        proof {
            lemma_array32(sender_address);
            lemma_array32(recipient_address);
        }
        let (referrer_address, off1) = match read_optional_field(d, off) {
            Some(x) => x,
            None => {
                return Err("tx: truncated referrer address");
            },
        };
        let (governance_data, off2) = match read_optional_field(d, off1) {
            Some(x) => x,
            None => {
                return Err("tx: truncated governance data");
            },
        };
        let mut end: usize = off2;
        let signature = if len - off2 >= 4 {
            let sig_len = get_u32(d, off2) as usize;
            if len - off2 - 4 < sig_len {
                return Err("tx: truncated signature");
            }
            end = off2 + 4 + sig_len;
            copy_bytes(d, off2 + 4, end)
        } else {
            Vec::new()
        };
        Ok(
            (
                StoredTransaction {
                    version,
                    sender_address,
                    sender_pubkey,
                    recipient_address,
                    amount,
                    fee,
                    nonce,
                    timestamp,
                    referrer_address,
                    governance_data,
                    signature,
                },
                end,
            ),
        )
    }
}


/// A block as it is stored and sent: the 148-byte header's fields and the
/// transactions in block order.
#[derive(Debug, Clone)]
pub struct StoredBlock {
    pub version: [u8; 4],
    pub previous_hash: [u8; 32],
    pub merkle_root: [u8; 32],
    pub timestamp: [u8; 4],
    pub difficulty_target: [u8; 32],
    pub nonce: [u8; 8],
    pub block_height: [u8; 4],
    pub miner_address: [u8; 32],
    pub tx_data: Vec<StoredTransaction>,
}

/// The mathematical value of a stored block.
pub ghost struct BlockView {
    pub version: Seq<u8>,
    pub previous_hash: Seq<u8>,
    pub merkle_root: Seq<u8>,
    pub timestamp: Seq<u8>,
    pub difficulty_target: Seq<u8>,
    pub nonce: Seq<u8>,
    pub block_height: Seq<u8>,
    pub miner_address: Seq<u8>,
    pub tx_data: Seq<TxView>,
}

/// The values of a run of stored transactions.
pub open spec fn tx_views(txs: Seq<StoredTransaction>) -> Seq<TxView> {
    Seq::new(txs.len(), |i: int| txs[i]@)
}

impl View for StoredBlock {
    type V = BlockView;

    open spec fn view(&self) -> BlockView {
        BlockView {
            version: self.version@,
            previous_hash: self.previous_hash@,
            merkle_root: self.merkle_root@,
            timestamp: self.timestamp@,
            difficulty_target: self.difficulty_target@,
            nonce: self.nonce@,
            block_height: self.block_height@,
            miner_address: self.miner_address@,
            tx_data: tx_views(self.tx_data@),
        }
    }
}

impl BlockView {
    /// The block's height.
    pub open spec fn height(self) -> u32 {
        le32(self.block_height)
    }

    /// The block's timestamp, in seconds.
    pub open spec fn time(self) -> u32 {
        le32(self.timestamp)
    }

    /// Whether every header field has its width.
    pub open spec fn well_formed(self) -> bool {
        &&& self.version.len() == 4
        &&& self.previous_hash.len() == 32
        &&& self.merkle_root.len() == 32
        &&& self.timestamp.len() == 4
        &&& self.difficulty_target.len() == 32
        &&& self.nonce.len() == 8
        &&& self.block_height.len() == 4
        &&& self.miner_address.len() == 32
    }
}

/// The 148-byte header: version ‖ previous hash ‖ merkle root ‖ timestamp ‖
/// target ‖ nonce ‖ height ‖ miner.
pub open spec fn header_bytes(b: BlockView) -> Seq<u8> {
    b.version + b.previous_hash + b.merkle_root + b.timestamp + b.difficulty_target + b.nonce
        + b.block_height + b.miner_address
}

/// Two headers with the same 148 bytes have the same fields: changing any
/// byte of a header changes the bytes that the block hash is taken of.
pub proof fn law_header_bytes_determine_fields(a: BlockView, b: BlockView)
    requires
        a.well_formed(),
        b.well_formed(),
        header_bytes(a) == header_bytes(b),
    ensures
        a.version == b.version,
        a.previous_hash == b.previous_hash,
        a.merkle_root == b.merkle_root,
        a.timestamp == b.timestamp,
        a.difficulty_target == b.difficulty_target,
        a.nonce == b.nonce,
        a.block_height == b.block_height,
        a.miner_address == b.miner_address,
{
    let x = header_bytes(a);
    let y = header_bytes(b);
    assert(a.version =~= x.subrange(0, 4));
    assert(b.version =~= y.subrange(0, 4));
    assert(a.previous_hash =~= x.subrange(4, 36));
    assert(b.previous_hash =~= y.subrange(4, 36));
    assert(a.merkle_root =~= x.subrange(36, 68));
    assert(b.merkle_root =~= y.subrange(36, 68));
    assert(a.timestamp =~= x.subrange(68, 72));
    assert(b.timestamp =~= y.subrange(68, 72));
    assert(a.difficulty_target =~= x.subrange(72, 104));
    assert(b.difficulty_target =~= y.subrange(72, 104));
    assert(a.nonce =~= x.subrange(104, 112));
    assert(b.nonce =~= y.subrange(104, 112));
    assert(a.block_height =~= x.subrange(112, 116));
    assert(b.block_height =~= y.subrange(112, 116));
    assert(a.miner_address =~= x.subrange(116, 148));
    assert(b.miner_address =~= y.subrange(116, 148));
}

/// The 140 bytes that proof-of-work runs over: the header without its nonce.
pub open spec fn header_prefix_bytes(b: BlockView) -> Seq<u8> {
    b.version + b.previous_hash + b.merkle_root + b.timestamp + b.difficulty_target
        + b.block_height + b.miner_address
}

/// The serialised forms of a run of transactions, one after another.
pub open spec fn txs_bytes(txs: Seq<TxView>) -> Seq<u8>
    decreases txs.len(),
{
    if txs.len() == 0 {
        Seq::<u8>::empty()
    } else {
        txs_bytes(txs.drop_last()) + tx_bytes(txs.last())
    }
}

/// The serialised form of a block: header, transaction count, transactions.
pub open spec fn block_bytes(b: BlockView) -> Seq<u8> {
    header_bytes(b) + spec_u32_to_le_bytes(length_field(b.tx_data.len())) + txs_bytes(b.tx_data)
}

/// The first `n` transactions of `d` and the bytes they take, or the error of
/// the first that does not parse.
pub open spec fn parse_txs(d: Seq<u8>, n: nat) -> Result<(Seq<TxView>, nat), &'static str>
    decreases n,
{
    if n == 0 {
        Ok((Seq::<TxView>::empty(), 0nat))
    } else {
        match parse_txs(d, (n - 1) as nat) {
            Err(e) => Err(e),
            Ok((txs, off)) => if off > d.len() {
                Err("tx too short: missing version")
            } else {
                match parse_tx(d.subrange(off as int, d.len() as int)) {
                    Err(e) => Err(e),
                    Ok((t, k)) => Ok((txs.push(t), off + k)),
                }
            },
        }
    }
}

/// Once a transaction fails to parse, every longer run fails with its error.
pub proof fn lemma_parse_txs_error(d: Seq<u8>, i: nat, n: nat)
    requires
        i <= n,
        parse_txs(d, i) is Err,
    ensures
        parse_txs(d, n) == parse_txs(d, i),
    decreases n,
{
    if i < n {
        lemma_parse_txs_error(d, i, (n - 1) as nat);
    }
}

/// Whether key and signature of every transaction fit their length fields.
pub open spec fn lengths_fit(txs: Seq<TxView>) -> bool {
    forall|i: int|
        0 <= i < txs.len() ==> (#[trigger] txs[i]).sender_pubkey.len() < 0x1_0000_0000
            && txs[i].signature.len() < 0x1_0000_0000
}

/// Reading the serialised forms of a run of transactions gives the run back.
pub proof fn lemma_txs_round_trip(txs: Seq<TxView>, rest: Seq<u8>)
    requires
        lengths_fit(txs),
    ensures
        parse_txs(txs_bytes(txs) + rest, txs.len()) == Ok::<(Seq<TxView>, nat), &'static str>(
            (txs, txs_bytes(txs).len()),
        ),
    decreases txs.len(),
{
    if txs.len() > 0 {
        let q = txs.drop_last();
        let t = txs.last();
        let d = txs_bytes(txs) + rest;
        assert(lengths_fit(q)) by {
            assert forall|i: int| 0 <= i < q.len() implies (#[trigger] q[i]).sender_pubkey.len()
                < 0x1_0000_0000 && q[i].signature.len() < 0x1_0000_0000 by {
                assert(q[i] == txs[i]);
            }
        }
        assert(t == txs[txs.len() - 1]);
        lemma_txs_round_trip(q, tx_bytes(t) + rest);
        assert(d =~= txs_bytes(q) + (tx_bytes(t) + rest));
        let off = txs_bytes(q).len() as int;
        assert(d.subrange(off, d.len() as int) =~= tx_bytes(t) + rest);
        law_tx_round_trip(t, rest);
        assert(q.push(t) =~= txs);
    } else {
        assert(txs =~= Seq::<TxView>::empty());
    }
}

/// Reading the serialised form of a block gives the block back; the block
/// must hold fewer than 2³² transactions whose keys and signatures fit
/// their length fields.
pub proof fn law_block_round_trip(b: BlockView)
    requires
        b.well_formed(),
        b.tx_data.len() < 0x1_0000_0000,
        lengths_fit(b.tx_data),
    ensures
        parse_block(block_bytes(b)) == Ok::<BlockView, &'static str>(b),
{
    vstd::bytes::lemma_auto_spec_u32_to_from_le_bytes();
    let d = block_bytes(b);
    let h = header_bytes(b);
    let count = spec_u32_to_le_bytes(length_field(b.tx_data.len()));
    assert(h.len() == 148);
    assert(count.len() == 4);
    assert(d.subrange(0, 4) =~= b.version);
    assert(d.subrange(4, 36) =~= b.previous_hash);
    assert(d.subrange(36, 68) =~= b.merkle_root);
    assert(d.subrange(68, 72) =~= b.timestamp);
    assert(d.subrange(72, 104) =~= b.difficulty_target);
    assert(d.subrange(104, 112) =~= b.nonce);
    assert(d.subrange(112, 116) =~= b.block_height);
    assert(d.subrange(116, 148) =~= b.miner_address);
    assert(d.subrange(148, 152) =~= count);
    assert(le32(d.subrange(148, 152)) == b.tx_data.len());
    lemma_txs_round_trip(b.tx_data, Seq::<u8>::empty());
    assert(d.subrange(152, d.len() as int) =~= txs_bytes(b.tx_data) + Seq::<u8>::empty());
}

/// The block a byte string stands for, or why it stands for none.
///
/// A string that ends right behind the header, or less than four bytes behind
/// it, is a block without transactions.
pub open spec fn parse_block(d: Seq<u8>) -> Result<BlockView, &'static str> {
    if d.len() < 148 {
        Err("block header too short")
    } else {
        let header = BlockView {
            version: d.subrange(0, 4),
            previous_hash: d.subrange(4, 36),
            merkle_root: d.subrange(36, 68),
            timestamp: d.subrange(68, 72),
            difficulty_target: d.subrange(72, 104),
            nonce: d.subrange(104, 112),
            block_height: d.subrange(112, 116),
            miner_address: d.subrange(116, 148),
            tx_data: Seq::<TxView>::empty(),
        };
        if d.len() < 152 {
            Ok(header)
        } else {
            let count = le32(d.subrange(148, 152)) as nat;
            match parse_txs(d.subrange(152, d.len() as int), count) {
                Err(e) => Err(e),
                Ok((txs, used)) => Ok(BlockView { tx_data: txs, ..header }),
            }
        }
    }
}

impl StoredBlock {
    /// A copy with the same value.
    pub fn duplicate(&self) -> (b: Self)
        ensures
            b@ == self@,
    {
        let mut tx_data: Vec<StoredTransaction> = Vec::new();
        let mut i: usize = 0;
        while i < self.tx_data.len()
            invariant
                i <= self.tx_data@.len(),
                tx_data@.len() == i,
                forall|k: int| 0 <= k < i ==> tx_data@[k]@ == self.tx_data@[k]@,
            decreases self.tx_data@.len() - i,
        {
            tx_data.push(self.tx_data[i].duplicate());
            i += 1;
        }
        assert(tx_views(tx_data@) =~= tx_views(self.tx_data@));
        StoredBlock {
            version: self.version,
            previous_hash: self.previous_hash,
            merkle_root: self.merkle_root,
            timestamp: self.timestamp,
            difficulty_target: self.difficulty_target,
            nonce: self.nonce,
            block_height: self.block_height,
            miner_address: self.miner_address,
            tx_data,
        }
    }

    /// The block's height.
    pub fn height(&self) -> (h: u32)
        ensures
            h == self@.height(),
    {
        crate::bytes::field_u32(&self.block_height)
    }

    /// The block's timestamp, in seconds.
    pub fn time(&self) -> (t: u32)
        ensures
            t == self@.time(),
    {
        crate::bytes::field_u32(&self.timestamp)
    }

    pub fn header_bytes(&self) -> (buf: [u8; 148])
        ensures
            buf@ == header_bytes(self@),
    {
        let mut v: Vec<u8> = Vec::with_capacity(148);
        put_bytes(&mut v, self.version.as_slice());
        put_bytes(&mut v, self.previous_hash.as_slice());
        put_bytes(&mut v, self.merkle_root.as_slice());
        put_bytes(&mut v, self.timestamp.as_slice());
        put_bytes(&mut v, self.difficulty_target.as_slice());
        put_bytes(&mut v, self.nonce.as_slice());
        put_bytes(&mut v, self.block_height.as_slice());
        put_bytes(&mut v, self.miner_address.as_slice());
        let buf: [u8; 148] = read_array(v.as_slice(), 0);
        assert(buf@ =~= header_bytes(self@));
        buf
    }

    pub fn header_prefix(&self) -> (buf: [u8; 140])
        ensures
            buf@ == header_prefix_bytes(self@),
    {
        let mut v: Vec<u8> = Vec::with_capacity(140);
        put_bytes(&mut v, self.version.as_slice());
        put_bytes(&mut v, self.previous_hash.as_slice());
        put_bytes(&mut v, self.merkle_root.as_slice());
        put_bytes(&mut v, self.timestamp.as_slice());
        put_bytes(&mut v, self.difficulty_target.as_slice());
        put_bytes(&mut v, self.block_height.as_slice());
        put_bytes(&mut v, self.miner_address.as_slice());
        let buf: [u8; 140] = read_array(v.as_slice(), 0);
        assert(buf@ =~= header_prefix_bytes(self@));
        buf
    }

    pub fn to_bytes(&self) -> (b: Vec<u8>)
        ensures
            b@ == block_bytes(self@),
    {
        let mut b: Vec<u8> = Vec::new();
        put_bytes(&mut b, self.version.as_slice());
        put_bytes(&mut b, self.previous_hash.as_slice());
        put_bytes(&mut b, self.merkle_root.as_slice());
        put_bytes(&mut b, self.timestamp.as_slice());
        put_bytes(&mut b, self.difficulty_target.as_slice());
        put_bytes(&mut b, self.nonce.as_slice());
        put_bytes(&mut b, self.block_height.as_slice());
        put_bytes(&mut b, self.miner_address.as_slice());
        put_u32(&mut b, (self.tx_data.len() as u64 % 0x1_0000_0000u64) as u32);
        let ghost head = b@;
        assert(head =~= header_bytes(self@) + spec_u32_to_le_bytes(
            length_field(self@.tx_data.len()),
        ));
        let mut i: usize = 0;
        while i < self.tx_data.len()
            invariant
                i <= self.tx_data@.len(),
                b@ == head + txs_bytes(self@.tx_data.take(i as int)),
            decreases self.tx_data@.len() - i,
        {
            let t = self.tx_data[i].to_bytes();
            put_bytes(&mut b, t.as_slice());
            proof {
                let next = self@.tx_data.take(i + 1);
                assert(next.drop_last() =~= self@.tx_data.take(i as int));
                assert(next.last() == self.tx_data@[i as int]@);
                assert(b@ =~= head + txs_bytes(next));
            }
            i += 1;
        }
        assert(self@.tx_data.take(i as int) =~= self@.tx_data);
        b
    }

    #[verifier::loop_isolation(false)]
    pub fn from_bytes(d: &[u8]) -> (r: Result<Self, &'static str>)
        ensures
            match r {
                Ok(b) => parse_block(d@) == Ok::<BlockView, &'static str>(b@),
                Err(e) => parse_block(d@) == Err::<BlockView, &'static str>(e),
            },
    {
        let len = d.len();
        if len < 148 {
            return Err("block header too short");
        }
        let version: [u8; 4] = read_array(d, 0);
        let previous_hash: [u8; 32] = read_array(d, 4);
        let merkle_root: [u8; 32] = read_array(d, 36);
        let timestamp: [u8; 4] = read_array(d, 68);
        let difficulty_target: [u8; 32] = read_array(d, 72);
        let nonce: [u8; 8] = read_array(d, 104);
        let block_height: [u8; 4] = read_array(d, 112);
        let miner_address: [u8; 32] = read_array(d, 116);
        let mut tx_data: Vec<StoredTransaction> = Vec::new();
        if len >= 152 {
            let count = get_u32(d, 148);
            let body = vstd::slice::slice_subrange(d, 152, len);
            let mut off: usize = 0;
            let mut i: u32 = 0;
            assert(tx_views(tx_data@) =~= Seq::<TxView>::empty());
            while i < count
                invariant
                    i <= count,
                    off <= body@.len(),
                    parse_txs(body@, i as nat) == Ok::<(Seq<TxView>, nat), &'static str>(
                        (tx_views(tx_data@), off as nat),
                    ),
                decreases count - i,
            {
                let rest = vstd::slice::slice_subrange(body, off, body.len());
                match StoredTransaction::from_bytes(rest) {
                    Err(e) => {
                        proof {
                            assert(parse_txs(body@, (i + 1) as nat) == Err::<
                                (Seq<TxView>, nat),
                                &'static str,
                            >(e));
                            lemma_parse_txs_error(body@, (i + 1) as nat, count as nat);
                        }
                        return Err(e);
                    },
                    Ok((t, n)) => {
                        proof {
                            assert(tx_views(tx_data@.push(t)) =~= tx_views(tx_data@).push(t@));
                        }
                        tx_data.push(t);
                        off += n;
                    },
                }
                i += 1;
            }
        } else {
            assert(tx_views(tx_data@) =~= Seq::<TxView>::empty());
        }
        Ok(
            StoredBlock {
                version,
                previous_hash,
                merkle_root,
                timestamp,
                difficulty_target,
                nonce,
                block_height,
                miner_address,
                tx_data,
            },
        )
    }
}

} // verus!
