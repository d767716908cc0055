use vstd::prelude::*;
use vstd::string::StringSliceAdditionalSpecFns;
use vstd::utf8::encode_utf8;
use crate::bytes::{be_value, read_array, slice_eq};
use crate::consensus::chain::{
    block_reward, calculate_block_reward, lemma_be_value_ones, lemma_pow256_32, log2_floor,
    u256_div, u256_div_u64, u256_max,
};
use crate::bytemap::ByteMap;
use crate::bytes::lemma_be_value_zeros;
use vstd::string::StringExecFns;
use crate::consensus::state::{block_hash, block_hash_of};
use crate::crypto::dilithium::{dilithium3_signature, sign, PublicKey, SecretKey, Signature};
use crate::crypto::keys::{
    address_error_text, address_of, decode_address, decode_address_string, derive_address,
    derive_keypair_from_mnemonic, mnemonic_address, string_from_ascii,
};
use crate::net::mempool::highest_nonce;
use crate::primitives::transaction::{signing_hash_of, Transaction};
use crate::net::mempool::{admission, is_template, Mempool};
use crate::net::node::{is_private_ip, private_ip};
use crate::net::protocol::{MessageView, NetworkMessage, PeerAddr};
use crate::node::db_common::{
    array32, lemma_array32, parse_tx, AccountState, BlockView, StoredBlock, StoredTransaction,
    TxView,
};
use crate::node::store::{
    account_at, make_referral_code, referral_code, tally_at, ChainState, ChainView,
};
use crate::primitives::transaction::txid_of;

verus! {

/// The request is no valid JSON-RPC request.
pub const INVALID_REQUEST: i32 = -32600;

/// The method is not known.
pub const METHOD_NOT_FOUND: i32 = -32601;

/// A parameter is missing or malformed.
pub const INVALID_PARAMS: i32 = -32602;

/// The node could not do what was asked.
pub const INTERNAL_ERROR: i32 = -32603;

/// The request is no JSON.
pub const PARSE_ERROR: i32 = -32700;

/// The weight, in basis points, from which a proposal has passed.
pub const PASS_THRESHOLD_BPS: u64 = 5100;

/// Most blocks that one call generates.
pub const MAX_GENERATE_COUNT: u64 = 500;

/// A failed call: the JSON-RPC error code and the message.
#[derive(Debug, Clone)]
pub struct RpcError {
    pub code: i32,
    pub message: String,
}

/// The hexadecimal digit of a value below 16, in lower case.
pub open spec fn hex_digit(n: u8) -> u8 {
    if n < 10 {
        (0x30 + n) as u8
    } else {
        (0x61 + n - 10) as u8
    }
}

/// The hexadecimal text of a byte string: two lower-case digits per byte.
pub open spec fn hex_text(b: Seq<u8>) -> Seq<u8> {
    Seq::new(
        2 * b.len(),
        |i: int|
            if i % 2 == 0 {
                hex_digit(b[i / 2] / 16)
            } else {
                hex_digit(b[i / 2] % 16)
            },
    )
}

/// The value of a hexadecimal digit, in either case.
pub open spec fn hex_value(c: u8) -> Option<u8> {
    if 0x30 <= c <= 0x39 {
        Some((c - 0x30) as u8)
    } else if 0x61 <= c <= 0x66 {
        Some((c - 0x61 + 10) as u8)
    } else if 0x41 <= c <= 0x46 {
        Some((c - 0x41 + 10) as u8)
    } else {
        None
    }
}

/// Whether a text is hexadecimal: an even number of digits.
pub open spec fn is_hex(t: Seq<u8>) -> bool {
    t.len() % 2 == 0 && forall|i: int| 0 <= i < t.len() ==> hex_value(#[trigger] t[i]).is_some()
}

/// The bytes that a hexadecimal text stands for.
pub open spec fn hex_bytes(t: Seq<u8>) -> Seq<u8> {
    Seq::new(
        t.len() / 2,
        |i: int| (hex_value(t[2 * i]).unwrap() * 16 + hex_value(t[2 * i + 1]).unwrap()) as u8,
    )
}

/// Reading the hexadecimal text of a byte string gives the bytes back.
pub proof fn law_hex_round_trip(b: Seq<u8>)
    ensures
        is_hex(hex_text(b)),
        hex_bytes(hex_text(b)) == b,
{
    let t = hex_text(b);
    assert forall|i: int| 0 <= i < t.len() implies hex_value(#[trigger] t[i]).is_some() by {
        assert(b[i / 2] / 16 < 16 && b[i / 2] % 16 < 16);
    }
    assert forall|i: int| 0 <= i < b.len() implies hex_bytes(t)[i] == b[i] by {
        assert(t[2 * i] == hex_digit(b[i] / 16));
        assert(t[2 * i + 1] == hex_digit(b[i] % 16));
        assert(b[i] / 16 < 16 && b[i] % 16 < 16);
    }
    assert(hex_bytes(t) =~= b);
}

fn hex_digit_of(n: u8) -> (c: u8)
    requires
        n < 16,
    ensures
        c == hex_digit(n),
        c < 128,
{
    if n < 10 {
        0x30 + n
    } else {
        0x61 + (n - 10)
    }
}

fn hex_value_of(c: u8) -> (v: Option<u8>)
    ensures
        v == hex_value(c),
        v.is_some() ==> v.unwrap() < 16,
{
    if 0x30 <= c && c <= 0x39 {
        Some(c - 0x30)
    } else if 0x61 <= c && c <= 0x66 {
        Some(c - 0x61 + 10)
    } else if 0x41 <= c && c <= 0x46 {
        Some(c - 0x41 + 10)
    } else {
        None
    }
}

/// Writes bytes as hexadecimal text.
pub fn hex_encode(b: &[u8]) -> (s: String)
    ensures
        encode_utf8(s@) == hex_text(b@),
{
    let mut out: Vec<u8> = Vec::new();
    let mut i: usize = 0;
    while i < b.len()
        invariant
            i <= b@.len(),
            out@.len() == 2 * i,
            forall|k: int| 0 <= k < out@.len() ==> #[trigger] out@[k] == hex_text(b@)[k],
            forall|k: int| 0 <= k < out@.len() ==> #[trigger] out@[k] < 128,
        decreases b@.len() - i,
    {
        out.push(hex_digit_of(b[i] / 16));
        out.push(hex_digit_of(b[i] % 16));
        i += 1;
    }
    assert(out@ =~= hex_text(b@));
    string_from_ascii(out)
}

/// Reads hexadecimal text; `None` where the text is not hexadecimal.
pub fn hex_decode(t: &[u8]) -> (r: Option<Vec<u8>>)
    ensures
        match r {
            Some(b) => is_hex(t@) && b@ == hex_bytes(t@),
            None => !is_hex(t@),
        },
{
    if t.len() % 2 != 0 {
        return None;
    }
    let len = t.len();
    let n = len / 2;
    let mut out: Vec<u8> = Vec::new();
    let mut i: usize = 0;
    while i < n
        invariant
            i <= n,
            len == t@.len(),
            n == t@.len() / 2,
            t@.len() % 2 == 0,
            out@.len() == i,
            forall|k: int| 0 <= k < 2 * i ==> hex_value(#[trigger] t@[k]).is_some(),
            forall|k: int| 0 <= k < i ==> #[trigger] out@[k] == hex_bytes(t@)[k],
        decreases n - i,
    {
        let hi = hex_value_of(t[2 * i]);
        let lo = hex_value_of(t[2 * i + 1]);
        match (hi, lo) {
            (Some(h), Some(l)) => {
                out.push(h * 16 + l);
            },
            _ => {
                return None;
            },
        }
        i += 1;
    }
    assert(out@ =~= hex_bytes(t@));
    Some(out)
}

/// The token that a caller has to present: the hexadecimal text of the
/// SHA3-256 of 32 random bytes, 64 characters.
pub fn rpc_auth_token(random: &[u8; 32]) -> (token: String)
    ensures
        encode_utf8(token@) == hex_text(crate::crypto::hash::sha3_256(random@)),
        encode_utf8(token@).len() == 64,
{
    let hash = crate::crypto::hash::hash_sha3_256(random.as_slice());
    hex_encode(hash.as_slice())
}

/// The seven bytes `Bearer `.
pub open spec fn bearer_prefix() -> Seq<u8> {
    seq![0x42u8, 0x65u8, 0x61u8, 0x72u8, 0x65u8, 0x72u8, 0x20u8]
}

/// Whether an `Authorization` header presents the token: it is `Bearer `
/// followed by exactly the token.
pub open spec fn presents_token(header: Seq<u8>, token: Seq<u8>) -> bool {
    header == bearer_prefix() + token
}

/// Checks the bearer token of a request.
pub fn authorized(header: &str, token: &str) -> (ok: bool)
    ensures
        ok == presents_token(header.spec_bytes(), token.spec_bytes()),
{
    let h = header.as_bytes();
    let t = token.as_bytes();
    if h.len() < 7 || h.len() - 7 != t.len() {
        return false;
    }
    if h[0] != 0x42 || h[1] != 0x65 || h[2] != 0x61 || h[3] != 0x72 || h[4] != 0x65 || h[5]
        != 0x72 || h[6] != 0x20 {
        proof {
            let joined = bearer_prefix() + t@;
            assert(joined[0] == 0x42 && joined[1] == 0x65 && joined[2] == 0x61 && joined[3]
                == 0x72 && joined[4] == 0x65 && joined[5] == 0x72 && joined[6] == 0x20);
        }
        return false;
    }
    let rest = vstd::slice::slice_subrange(h, 7, h.len());
    let same = slice_eq(rest, t);
    proof {
        let joined = bearer_prefix() + t@;
        if same {
            assert(h@ =~= joined);
        } else {
            if h@ == joined {
                assert(rest@ =~= t@);
            }
        }
    }
    same
}

/// The lower-case form of an ASCII letter; every other byte stays.
pub open spec fn ascii_lower(c: u8) -> u8 {
    if 0x41 <= c <= 0x5A {
        (c + 32) as u8
    } else {
        c
    }
}

/// Number of bytes of the prefix `kot1` or `kot`, in either case, at the
/// start of a text.
pub open spec fn kot_prefix_len(t: Seq<u8>) -> int {
    if t.len() >= 3 && ascii_lower(t[0]) == 0x6B && ascii_lower(t[1]) == 0x6F && ascii_lower(t[2])
        == 0x74 {
        if t.len() >= 4 && t[3] == 0x31 {
            4
        } else {
            3
        }
    } else {
        0
    }
}

/// The address that a parameter stands for: the address whose text it is,
/// or else 32 bytes in hexadecimal, with or without the prefix `KOT1` or
/// `KOT` in either case.
pub open spec fn address_param(t: Seq<u8>) -> Option<[u8; 32]> {
    match decode_address(t) {
        Ok(a) => Some(a),
        Err(_) => {
            let rest = t.subrange(kot_prefix_len(t), t.len() as int);
            if is_hex(rest) && rest.len() == 64 {
                Some(array32(hex_bytes(rest)))
            } else {
                None
            }
        },
    }
}

fn lower(c: u8) -> (r: u8)
    ensures
        r == ascii_lower(c),
{
    if 0x41 <= c && c <= 0x5A {
        c + 32
    } else {
        c
    }
}

/// Reads an address parameter.
pub fn parse_address_param(s: &str) -> (r: Option<[u8; 32]>)
    ensures
        r == address_param(s.spec_bytes()),
{
    match decode_address_string(s) {
        Ok(a) => {
            return Some(a);
        },
        Err(_) => {},
    }
    let t = s.as_bytes();
    let mut skip: usize = 0;
    if t.len() >= 3 && lower(t[0]) == 0x6B && lower(t[1]) == 0x6F && lower(t[2]) == 0x74 {
        skip = if t.len() >= 4 && t[3] == 0x31 {
            4
        } else {
            3
        };
    }
    let rest = vstd::slice::slice_subrange(t, skip, t.len());
    match hex_decode(rest) {
        Some(b) => {
            if b.len() == 32 {
                let a: [u8; 32] = read_array(b.as_slice(), 0);
                proof {
                    assert(a@ =~= b@);
                    lemma_array32(a);
                }
                Some(a)
            } else {
                None
            }
        },
        None => None,
    }
}


/// A transaction as a block report shows it.
#[derive(Debug, Clone)]
pub struct TxInfo {
    pub sender: [u8; 32],
    pub recipient: [u8; 32],
    pub amount: u64,
    pub fee: u64,
    pub nonce: u64,
    pub governance_data: Option<[u8; 32]>,
}

/// The report on a block.
#[derive(Debug, Clone)]
pub struct BlockInfo {
    pub hash: [u8; 32],
    pub height: u32,
    /// The four version bytes read as a big-endian number.
    pub version: u32,
    pub previous_hash: [u8; 32],
    pub merkle_root: [u8; 32],
    pub time: u32,
    pub difficulty_target: [u8; 32],
    /// Number of leading zero bits of the target, and at least one.
    pub difficulty_bits: u32,
    pub nonce: [u8; 8],
    pub miner: [u8; 32],
    /// The reward of the block's height.
    pub reward_knots: u64,
    pub transactions: Vec<TxInfo>,
}

/// Number of zero bits at the start of a byte string.
pub open spec fn leading_zero_bits(t: Seq<u8>) -> nat
    decreases t.len(),
{
    if t.len() == 0 {
        0
    } else if t[0] == 0 {
        8 + leading_zero_bits(t.skip(1))
    } else {
        (7 - log2_floor(t[0] as nat)) as nat
    }
}

/// The difficulty of a target in bits: its leading zero bits, and at least one.
pub open spec fn difficulty_bits_of(target: Seq<u8>) -> nat {
    if leading_zero_bits(target) == 0 {
        1
    } else {
        leading_zero_bits(target)
    }
}

/// Number of zero bits at the start of a non-zero byte.
fn zero_bits(b: u8) -> (n: u32)
    requires
        b != 0,
    ensures
        n == 7 - log2_floor(b as nat),
        n <= 7,
{
    let mut t: u8 = b;
    let mut log: u32 = 0;
    proof {
        reveal_with_fuel(log2_floor, 9);
        assert(log2_floor(b as nat) <= 7);
    }
    while t >= 2
        invariant
            t >= 1,
            log + log2_floor(t as nat) == log2_floor(b as nat),
            log2_floor(b as nat) <= 7,
        decreases t,
    {
        t = t / 2;
        log += 1;
    }
    7 - log
}

/// The difficulty of a target in bits.
pub fn difficulty_bits(target: &[u8; 32]) -> (bits: u32)
    ensures
        bits == difficulty_bits_of(target@),
        1 <= bits <= 256,
{
    let mut zeros: u32 = 0;
    let mut i: usize = 0;
    assert(target@.skip(0) =~= target@);
    while i < 32
        invariant
            i <= 32,
            zeros == 8 * i,
            leading_zero_bits(target@) == zeros + leading_zero_bits(target@.skip(i as int)),
        decreases 32 - i,
    {
        proof {
            assert(target@.skip(i as int)[0] == target@[i as int]);
            assert(target@.skip(i as int).skip(1) =~= target@.skip(i + 1));
        }
        if target[i] != 0 {
            zeros = zeros + zero_bits(target[i]);
            return if zeros == 0 {
                1
            } else {
                zeros
            };
        }
        zeros += 8;
        i += 1;
    }
    zeros
}

/// Whether a report shows a transaction.
pub open spec fn shows_tx(info: TxInfo, t: TxView) -> bool {
    &&& info.sender == t.sender_address
    &&& info.recipient == t.recipient_address
    &&& info.amount == t.amount
    &&& info.fee == t.fee
    &&& info.nonce == t.nonce
    &&& info.governance_data == t.governance_data
}

/// Whether a report shows a block as the block at `height`.
pub open spec fn shows_block(info: BlockInfo, b: BlockView, height: u32) -> bool {
    &&& info.hash@ == block_hash_of(b)
    &&& info.height == height
    &&& info.version == be_value(b.version)
    &&& info.previous_hash@ == b.previous_hash
    &&& info.merkle_root@ == b.merkle_root
    &&& info.time == b.time()
    &&& info.difficulty_target@ == b.difficulty_target
    &&& info.difficulty_bits == difficulty_bits_of(b.difficulty_target)
    &&& info.nonce@ == b.nonce
    &&& info.miner@ == b.miner_address
    &&& info.reward_knots == block_reward(height as nat)
    &&& info.transactions@.len() == b.tx_data.len()
    &&& forall|i: int|
        0 <= i < b.tx_data.len() ==> shows_tx(#[trigger] info.transactions@[i], b.tx_data[i])
}

/// Reports on a block as the block at `height`.
pub fn describe_block(block: &StoredBlock, height: u32) -> (info: BlockInfo)
    ensures
        shows_block(info, block@, height),
{
    let v = &block.version;
    let version: u32 = v[0] as u32 * 16_777_216 + v[1] as u32 * 65_536 + v[2] as u32 * 256
        + v[3] as u32;
    proof {
        reveal_with_fuel(be_value, 5);
        let s = v@;
        assert(s.drop_last().drop_last().drop_last().drop_last().len() == 0);
        assert(s.drop_last().drop_last().drop_last().last() == s[0]);
        assert(s.drop_last().drop_last().last() == s[1]);
        assert(s.drop_last().last() == s[2]);
        assert(s.last() == s[3]);
    }
    let mut transactions: Vec<TxInfo> = Vec::new();
    let mut i: usize = 0;
    while i < block.tx_data.len()
        invariant
            i <= block.tx_data@.len(),
            transactions@.len() == i,
            forall|k: int|
                0 <= k < i ==> shows_tx(#[trigger] transactions@[k], block.tx_data@[k]@),
        decreases block.tx_data@.len() - i,
    {
        let t = &block.tx_data[i];
        transactions.push(
            TxInfo {
                sender: t.sender_address,
                recipient: t.recipient_address,
                amount: t.amount,
                fee: t.fee,
                nonce: t.nonce,
                governance_data: t.governance_data,
            },
        );
        i += 1;
    }
    BlockInfo {
        hash: block_hash(block),
        height,
        version,
        previous_hash: block.previous_hash,
        merkle_root: block.merkle_root,
        time: block.time(),
        difficulty_target: block.difficulty_target,
        difficulty_bits: difficulty_bits(&block.difficulty_target),
        nonce: block.nonce,
        miner: block.miner_address,
        reward_knots: calculate_block_reward(height as u64),
        transactions,
    }
}

/// The report on the block stored under `hash`.
pub fn block_by_hash(state: &ChainState, hash: &[u8; 32]) -> (r: Option<BlockInfo>)
    requires
        state.wf(),
    ensures
        match r {
            Some(info) => state@.blocks.contains_key(hash@) && shows_block(
                info,
                state@.blocks[hash@],
                state@.blocks[hash@].height(),
            ),
            None => !state@.blocks.contains_key(hash@),
        },
{
    match state.get_block(hash) {
        Some(b) => Some(describe_block(b, b.height())),
        None => None,
    }
}

/// The block indexed at a height, where the index and the block are stored.
pub open spec fn block_at_height(view: ChainView, height: u32) -> Option<BlockView> {
    match view.hash_at_height(height) {
        Some(h) => if view.blocks.contains_key(h@) {
            Some(view.blocks[h@])
        } else {
            None
        },
        None => None,
    }
}

/// The report on the block indexed at `height`.
pub fn block_by_height(state: &ChainState, height: u32) -> (r: Option<BlockInfo>)
    requires
        state.wf(),
    ensures
        match r {
            Some(info) => block_at_height(state@, height).is_some() && shows_block(
                info,
                block_at_height(state@, height).unwrap(),
                height,
            ),
            None => block_at_height(state@, height).is_none(),
        },
{
    match state.get_block_hash_by_height(height) {
        Some(hash) => match state.get_block(&hash) {
            Some(b) => Some(describe_block(b, height)),
            None => None,
        },
        None => None,
    }
}

/// The heights of the newest `count` blocks (at most 200), newest first.
pub open spec fn recent_heights(tip_height: u32, count: u64) -> Seq<u32> {
    let n: int = if count > 200 {
        200
    } else {
        count as int
    };
    let span: int = if n == 0 {
        1
    } else if n > tip_height + 1 {
        tip_height + 1
    } else {
        n
    };
    Seq::new(span as nat, |i: int| (tip_height - i) as u32)
}

/// Whether the reports show the newest blocks, newest first: every block
/// of the heights [`recent_heights`] that is indexed and stored, and no other.
pub open spec fn lists_recent(blocks: Seq<BlockInfo>, view: ChainView, count: u64) -> bool {
    &&& blocks.len() <= recent_heights(view.chain_height(), count).len()
    &&& forall|i: int|
        0 <= i < blocks.len() ==> block_at_height(view, (#[trigger] blocks[i]).height).is_some()
            && shows_block(
            blocks[i],
            block_at_height(view, blocks[i].height).unwrap(),
            blocks[i].height,
        ) && recent_heights(view.chain_height(), count).contains(blocks[i].height)
    &&& forall|i: int, j: int|
        0 <= i < j < blocks.len() ==> (#[trigger] blocks[i]).height > (#[trigger] blocks[j]).height
    &&& forall|h: u32|
        recent_heights(view.chain_height(), count).contains(h) && block_at_height(
            view,
            h,
        ).is_some() ==> exists|i: int| 0 <= i < blocks.len() && (#[trigger] blocks[i]).height == h
}

/// Reports on the newest blocks, newest first.
pub fn recent_blocks(state: &ChainState, count: u64) -> (blocks: Vec<BlockInfo>)
    requires
        state.wf(),
    ensures
        lists_recent(blocks@, state@, count),
{
    let capped: u32 = if count > 200 {
        200
    } else {
        count as u32
    };
    let height = state.get_chain_height();
    let start = height.saturating_sub(capped.saturating_sub(1));
    let ghost wanted = recent_heights(height, count);
    let span: u32 = height - start + 1;
    let mut blocks: Vec<BlockInfo> = Vec::new();
    let mut i: u32 = 0;
    while i < span
        invariant
            state.wf(),
            height == state@.chain_height(),
            wanted == recent_heights(height, count),
            span == wanted.len(),
            span <= height + 1,
            i <= span,
            blocks@.len() <= i,
            forall|k: int|
                0 <= k < blocks@.len() ==> block_at_height(state@, (#[trigger] blocks@[k]).height).is_some()
                    && shows_block(
                    blocks@[k],
                    block_at_height(state@, blocks@[k].height).unwrap(),
                    blocks@[k].height,
                ) && blocks@[k].height > height - i && wanted.contains(blocks@[k].height),
            forall|a: int, b: int|
                0 <= a < b < blocks@.len() ==> (#[trigger] blocks@[a]).height > (
                #[trigger] blocks@[b]).height,
            forall|q: int|
                0 <= q < i && block_at_height(state@, #[trigger] wanted[q]).is_some()
                    ==> exists|k: int|
                    0 <= k < blocks@.len() && (#[trigger] blocks@[k]).height == wanted[q],
        decreases span - i,
    {
        let h = height - i;
        assert(wanted[i as int] == h);
        let ghost before = blocks@;
        match block_by_height(state, h) {
            Some(info) => {
                blocks.push(info);
                assert(blocks@[blocks@.len() - 1].height == h);
                assert forall|q: int|
                    0 <= q < i + 1 && block_at_height(
                        state@,
                        #[trigger] wanted[q],
                    ).is_some() implies exists|k: int|
                    0 <= k < blocks@.len() && (#[trigger] blocks@[k]).height == wanted[q] by {
                    if q < i {
                        let k = choose|k: int|
                            0 <= k < before.len() && (#[trigger] before[k]).height == wanted[q];
                        assert(blocks@[k].height == wanted[q]);
                    } else {
                        assert(blocks@[blocks@.len() - 1].height == wanted[q]);
                    }
                }
            },
            None => {},
        }
        i += 1;
    }
    proof {
        assert forall|h: u32| wanted.contains(h) && block_at_height(state@, h).is_some() implies exists|
            k: int,
        |
            0 <= k < blocks@.len() && (#[trigger] blocks@[k]).height == h by {
            let q = choose|q: int| 0 <= q < wanted.len() && wanted[q] == h;
            assert(block_at_height(state@, wanted[q]).is_some());
        }
    }
    blocks
}


/// The report on an account's balance.
#[derive(Debug, Clone, Copy)]
pub struct BalanceInfo {
    pub balance_knots: u64,
    pub nonce: u64,
    pub last_mined_height: u64,
    /// The referral code of the address.
    pub privacy_code: [u8; 8],
}

/// Whether a report shows the balance of an address.
pub open spec fn shows_balance(info: BalanceInfo, view: ChainView, addr: Seq<u8>) -> bool {
    &&& info.balance_knots == account_at(view.accounts, addr).balance
    &&& info.nonce == account_at(view.accounts, addr).nonce
    &&& info.last_mined_height == account_at(view.accounts, addr).last_mined_height
    &&& info.privacy_code@ == referral_code(addr)
}

/// Reports the balance of an address.
pub fn balance_info(state: &ChainState, addr: &[u8; 32]) -> (info: BalanceInfo)
    requires
        state.wf(),
    ensures
        shows_balance(info, state@, addr@),
{
    let a = state.get_account(addr);
    BalanceInfo {
        balance_knots: a.balance,
        nonce: a.nonce,
        last_mined_height: a.last_mined_height,
        privacy_code: make_referral_code(addr),
    }
}

/// The report on an account as a referrer.
#[derive(Debug, Clone, Copy)]
pub struct ReferralInfo {
    pub privacy_code: [u8; 8],
    /// The referral code of the account's referrer.
    pub referred_by: Option<[u8; 8]>,
    pub total_referred_miners: u64,
    pub total_referral_bonus_earned: u64,
    pub is_active_referrer: bool,
    pub governance_weight: u64,
}

/// Whether an account is an active referrer at a chain height: it has
/// referred a miner, has mined above height 0, and its last block is at
/// most 2880 blocks behind the tip.
pub open spec fn active_referrer(a: AccountState, chain_height: u32) -> bool {
    a.total_referred_miners > 0 && a.last_mined_height > 0 && chain_height - a.last_mined_height
        <= 2880
}

/// Whether a report shows an address as a referrer.
pub open spec fn shows_referral(info: ReferralInfo, view: ChainView, addr: Seq<u8>) -> bool {
    let a = account_at(view.accounts, addr);
    &&& info.privacy_code@ == referral_code(addr)
    &&& match info.referred_by {
        Some(code) => a.referrer.is_some() && code@ == referral_code(a.referrer.unwrap()@),
        None => a.referrer.is_none(),
    }
    &&& info.total_referred_miners == a.total_referred_miners
    &&& info.total_referral_bonus_earned == a.total_referral_bonus_earned
    &&& info.is_active_referrer == active_referrer(a, view.chain_height())
    &&& info.governance_weight == a.governance_weight
}

/// Reports on an address as a referrer.
pub fn referral_info(state: &ChainState, addr: &[u8; 32]) -> (info: ReferralInfo)
    requires
        state.wf(),
    ensures
        shows_referral(info, state@, addr@),
{
    let a = state.get_account(addr);
    let height = state.get_chain_height() as u64;
    let is_active = a.total_referred_miners > 0 && a.last_mined_height > 0 && (height
        <= a.last_mined_height || height - a.last_mined_height <= 2880);
    let referred_by = match a.referrer {
        Some(r) => Some(make_referral_code(&r)),
        None => None,
    };
    ReferralInfo {
        privacy_code: make_referral_code(addr),
        referred_by,
        total_referred_miners: a.total_referred_miners,
        total_referral_bonus_earned: a.total_referral_bonus_earned,
        is_active_referrer: is_active,
        governance_weight: a.governance_weight,
    }
}

/// The report on an account's governance weight.
#[derive(Debug, Clone, Copy)]
pub struct GovernanceInfo {
    pub address: [u8; 32],
    pub governance_weight_bps: u64,
    pub cap_bps: u64,
    /// Whether the weight has reached the cap.
    pub is_capped: bool,
}

/// Whether a report shows the governance weight of an address.
pub open spec fn shows_governance(info: GovernanceInfo, view: ChainView, addr: [u8; 32]) -> bool {
    &&& info.address == addr
    &&& info.governance_weight_bps == account_at(view.accounts, addr@).governance_weight
    &&& info.cap_bps == view.params.cap_bps
    &&& info.is_capped == (info.governance_weight_bps >= info.cap_bps)
}

/// Reports the governance weight of an address.
pub fn governance_info(state: &ChainState, addr: &[u8; 32]) -> (info: GovernanceInfo)
    requires
        state.wf(),
    ensures
        shows_governance(info, state@, *addr),
{
    let a = state.get_account(addr);
    let cap_bps = state.get_governance_params().cap_bps;
    GovernanceInfo {
        address: *addr,
        governance_weight_bps: a.governance_weight,
        cap_bps,
        is_capped: a.governance_weight >= cap_bps,
    }
}

/// The report on a proposal.
#[derive(Debug, Clone, Copy)]
pub struct TallyInfo {
    pub proposal_hash: [u8; 32],
    pub total_weight_bps: u64,
    pub threshold_bps: u64,
    /// Whether the tally has reached 51%.
    pub is_passed: bool,
}

/// Whether a report shows the tally of a proposal.
pub open spec fn shows_tally(info: TallyInfo, view: ChainView, proposal: Seq<u8>) -> bool {
    &&& info.proposal_hash@ == proposal
    &&& info.total_weight_bps == tally_at(view.tallies, proposal)
    &&& info.threshold_bps == 5100
    &&& info.is_passed == (info.total_weight_bps >= 5100)
}

/// Reports the tally of a proposal.
pub fn governance_tally_info(state: &ChainState, proposal: &[u8; 32]) -> (info: TallyInfo)
    requires
        state.wf(),
    ensures
        shows_tally(info, state@, proposal@),
{
    let tally = state.get_governance_tally(proposal);
    TallyInfo {
        proposal_hash: *proposal,
        total_weight_bps: tally,
        threshold_bps: PASS_THRESHOLD_BPS,
        is_passed: tally >= PASS_THRESHOLD_BPS,
    }
}

/// Counts over all accounts.
#[derive(Debug, Clone, Copy)]
pub struct AddressStats {
    pub total_accounts: u64,
    pub nonzero_accounts: u64,
    /// The sum of all balances, held to `u64::MAX`.
    pub total_balance_knots: u64,
}

/// The sum of the balances of the first `n` accounts.
pub open spec fn balance_sum(accounts: Seq<([u8; 32], AccountState)>, n: nat) -> nat
    decreases n,
{
    if n == 0 {
        0
    } else {
        balance_sum(accounts, (n - 1) as nat) + accounts[n - 1].1.balance as nat
    }
}

/// Number of accounts among the first `n` with a balance.
pub open spec fn funded_count(accounts: Seq<([u8; 32], AccountState)>, n: nat) -> nat
    decreases n,
{
    if n == 0 {
        0
    } else {
        funded_count(accounts, (n - 1) as nat) + (if accounts[n - 1].1.balance > 0 {
            1nat
        } else {
            0nat
        })
    }
}

/// Whether the counts are those of a list of accounts.
pub open spec fn counts_accounts(stats: AddressStats, accounts: Seq<([u8; 32], AccountState)>) -> bool {
    &&& stats.total_accounts == accounts.len()
    &&& stats.nonzero_accounts == funded_count(accounts, accounts.len())
    &&& stats.total_balance_knots == (if balance_sum(accounts, accounts.len()) > u64::MAX {
        u64::MAX as nat
    } else {
        balance_sum(accounts, accounts.len())
    })
}

/// Counts over a list of accounts.
pub fn stats_of(accounts: &Vec<([u8; 32], AccountState)>) -> (stats: AddressStats)
    ensures
        counts_accounts(stats, accounts@),
{
    let mut nonzero: u64 = 0;
    let mut total_balance: u64 = 0;
    let mut i: usize = 0;
    let count = accounts.len();
    while i < accounts.len()
        invariant
            i <= accounts@.len(),
            accounts@.len() <= usize::MAX,
            nonzero == funded_count(accounts@, i as nat),
            nonzero <= i,
            total_balance == (if balance_sum(accounts@, i as nat) > u64::MAX {
                u64::MAX as nat
            } else {
                balance_sum(accounts@, i as nat)
            }),
        decreases accounts@.len() - i,
    {
        total_balance = total_balance.saturating_add(accounts[i].1.balance);
        if accounts[i].1.balance > 0 {
            nonzero += 1;
        }
        i += 1;
    }
    AddressStats {
        total_accounts: accounts.len() as u64,
        nonzero_accounts: nonzero,
        total_balance_knots: total_balance,
    }
}

/// Counts over all accounts of the store.
pub fn address_stats(state: &ChainState) -> (stats: AddressStats)
    requires
        state.wf(),
    ensures
        stats.total_accounts == state@.accounts.dom().len(),
        counts_accounts(stats, state.account_list()),
{
    let accounts = state.iter_accounts();
    stats_of(&accounts)
}

/// The fees that are recommended while the pool holds `pool_size`
/// transactions.
#[derive(Debug, Clone, Copy, PartialEq, Eq, Structural)]
pub struct FeeEstimate {
    pub recommended_fee_knots: u64,
    pub fast_fee_knots: u64,
    pub tx_size_bytes: u64,
    pub mempool_size: u64,
}

/// The recommended fee: one knot, and one more for every three pending
/// transactions beyond ten.
pub open spec fn recommended_fee(pool_size: nat) -> nat {
    if pool_size > 10 {
        1 + (pool_size - 10) as nat / 3
    } else {
        1
    }
}

/// The fee for a fast confirmation: one and a half times the recommended
/// fee, and at least one knot more.
pub open spec fn fast_fee(pool_size: nat) -> nat {
    let r = recommended_fee(pool_size);
    r + (if r / 2 >= 1 {
        r / 2
    } else {
        1
    })
}

/// Estimates the fee for a transaction of `tx_size` bytes.
pub fn estimate_fee(pool_size: usize, tx_size: u64) -> (e: FeeEstimate)
    ensures
        e.recommended_fee_knots == recommended_fee(pool_size as nat),
        e.fast_fee_knots == fast_fee(pool_size as nat),
        e.tx_size_bytes == tx_size,
        e.mempool_size == pool_size,
{
    let congestion: u64 = if pool_size > 10 {
        (pool_size as u64 - 10) / 3
    } else {
        0
    };
    let recommended = 1 + congestion;
    let half = recommended / 2;
    let fast = recommended + (if half >= 1 {
        half
    } else {
        1
    });
    FeeEstimate {
        recommended_fee_knots: recommended,
        fast_fee_knots: fast,
        tx_size_bytes: tx_size,
        mempool_size: pool_size as u64,
    }
}

/// The text `what` followed by `detail`.
fn error_text(what: &str, detail: &str) -> (s: String)
    ensures
        s@ == what@ + detail@,
{
    let mut s = String::from_str(what);
    s.append(detail);
    s
}

/// Takes a transaction from a caller: the bytes are parsed and offered to
/// the pool. Where the pool admits the transaction, its identifier is
/// given, together with the message that passes it on to the peers; bytes
/// that are no transaction are an invalid parameter, and the pool's reason
/// for refusing is given as it is.
pub fn send_raw_transaction(mempool: &mut Mempool, raw: Vec<u8>) -> (r: Result<
    ([u8; 32], NetworkMessage),
    RpcError,
>)
    requires
        old(mempool).wf(),
    ensures
        final(mempool).wf(),
        match r {
            Ok((txid, msg)) => parse_tx(raw@) is Ok && admission(
                old(mempool)@,
                parse_tx(raw@)->Ok_0.0,
            ) == Ok::<Seq<TxView>, &'static str>(final(mempool)@) && txid@ == txid_of(
                parse_tx(raw@)->Ok_0.0,
            ) && msg@ == MessageView::Tx(raw@),
            Err(e) => final(mempool)@ == old(mempool)@ && (match parse_tx(raw@) {
                Err(why) => e.code == -32602 && e.message@ == "deserialization failed: "@ + why@,
                Ok((t, n)) => admission(old(mempool)@, t) is Err && e.code == -32603 && e.message@
                    == "mempool rejected: "@ + admission(old(mempool)@, t)->Err_0@,
            }),
        },
{
    match StoredTransaction::from_bytes(raw.as_slice()) {
        Err(why) => Err(
            RpcError { code: INVALID_PARAMS, message: error_text("deserialization failed: ", why) },
        ),
        Ok((tx, _)) => {
            let txid = Mempool::compute_txid_from_stored(&tx);
            match mempool.add_transaction(tx) {
                Ok(_) => Ok((txid, NetworkMessage::Tx(raw))),
                Err(why) => Err(
                    RpcError {
                        code: INTERNAL_ERROR,
                        message: error_text("mempool rejected: ", why),
                    },
                ),
            }
        },
    }
}

/// A byte of ASCII white space: a blank, or a control from tab to carriage
/// return.
pub open spec fn is_space(c: u8) -> bool {
    c == 0x20 || (0x09 <= c <= 0x0D)
}

/// The first position from `i` on that holds no white space, or the length.
pub open spec fn skip_spaces(t: Seq<u8>, i: int) -> int
    decreases t.len() - i,
{
    if 0 <= i < t.len() && is_space(t[i]) {
        skip_spaces(t, i + 1)
    } else {
        i
    }
}

/// The end of the text before `j` without the white space that it ends in,
/// not below `from`.
pub open spec fn drop_spaces(t: Seq<u8>, from: int, j: int) -> int
    decreases j,
{
    if 0 <= from < j <= t.len() && is_space(t[j - 1]) {
        drop_spaces(t, from, j - 1)
    } else {
        j
    }
}

/// A text without the ASCII white space at its ends.
pub open spec fn trimmed(t: Seq<u8>) -> Seq<u8> {
    let a = skip_spaces(t, 0);
    t.subrange(a, drop_spaces(t, a, t.len() as int))
}

/// The referrer that a parameter names. A parameter that, trimmed and
/// without the prefix `KOT1` or `KOT`, has 16 symbols is a referral code
/// in hexadecimal and names the address entered under it; any other
/// parameter must be the text of an address. The error is the message of
/// the refusal.
pub open spec fn referrer_param(t: Seq<u8>, index: Map<Seq<u8>, [u8; 32]>) -> Result<
    [u8; 32],
    Seq<char>,
> {
    let s = trimmed(t);
    let bare = s.subrange(kot_prefix_len(s), s.len() as int);
    if bare.len() == 16 {
        if !is_hex(bare) {
            Err("invalid referral code"@)
        } else if !index.contains_key(hex_bytes(bare)) {
            Err("unknown referral code"@)
        } else {
            Ok(index[hex_bytes(bare)])
        }
    } else {
        match decode_address(t) {
            Ok(a) => Ok(a),
            Err(e) => Err("invalid referrer: "@ + address_error_text(e)),
        }
    }
}

proof fn lemma_skip_spaces_bounds(t: Seq<u8>, i: int)
    requires
        0 <= i <= t.len(),
    ensures
        i <= skip_spaces(t, i) <= t.len(),
    decreases t.len() - i,
{
    if i < t.len() && is_space(t[i]) {
        lemma_skip_spaces_bounds(t, i + 1);
    }
}

proof fn lemma_drop_spaces_bounds(t: Seq<u8>, from: int, j: int)
    requires
        0 <= from <= j <= t.len(),
    ensures
        from <= drop_spaces(t, from, j) <= j,
    decreases j,
{
    if from < j && is_space(t[j - 1]) {
        lemma_drop_spaces_bounds(t, from, j - 1);
    }
}

fn space(c: u8) -> (r: bool)
    ensures
        r == is_space(c),
{
    c == 0x20 || (0x09 <= c && c <= 0x0D)
}

/// Resolves a referrer parameter against the referral index of the store.
/// Every refusal is an invalid parameter.
pub fn resolve_referrer(state: &ChainState, text: &str) -> (r: Result<[u8; 32], RpcError>)
    requires
        state.wf(),
    ensures
        match r {
            Ok(a) => referrer_param(text.spec_bytes(), state@.referral_index) == Ok::<
                [u8; 32],
                Seq<char>,
            >(a),
            Err(e) => e.code == -32602 && referrer_param(text.spec_bytes(), state@.referral_index)
                == Err::<[u8; 32], Seq<char>>(e.message@),
        },
{
    let t = text.as_bytes();
    let n = t.len();
    let mut a: usize = 0;
    while a < n && space(t[a])
        invariant
            n == t@.len(),
            0 <= a <= n,
            skip_spaces(t@, 0) == skip_spaces(t@, a as int),
        decreases n - a,
    {
        a += 1;
    }
    let mut b: usize = n;
    while b > a && space(t[b - 1])
        invariant
            n == t@.len(),
            a <= b <= n,
            drop_spaces(t@, a as int, n as int) == drop_spaces(t@, a as int, b as int),
        decreases b,
    {
        b -= 1;
    }
    let s = vstd::slice::slice_subrange(t, a, b);
    assert(s@ == trimmed(t@));
    let mut skip: usize = 0;
    if s.len() >= 3 && lower(s[0]) == 0x6B && lower(s[1]) == 0x6F && lower(s[2]) == 0x74 {
        skip = if s.len() >= 4 && s[3] == 0x31 {
            4
        } else {
            3
        };
    }
    let bare = vstd::slice::slice_subrange(s, skip, s.len());
    if bare.len() == 16 {
        let bytes = match hex_decode(bare) {
            Some(v) => v,
            None => {
                return Err(invalid_params("invalid referral code"));
            },
        };
        let code: [u8; 8] = read_array(bytes.as_slice(), 0);
        assert(code@ =~= bytes@);
        match state.get_address_by_referral_code(&code) {
            Some(addr) => Ok(addr),
            None => Err(invalid_params("unknown referral code")),
        }
    } else {
        match decode_address_string(text) {
            Ok(addr) => Ok(addr),
            Err(e) => {
                let mut message = String::from_str("invalid referrer: ");
                message.append(e.message());
                Err(RpcError { code: INVALID_PARAMS, message })
            },
        }
    }
}

/// The bytes of an optional text.
pub open spec fn text_bytes(t: Option<String>) -> Option<Seq<u8>> {
    match t {
        Some(s) => Some(encode_utf8(s@)),
        None => None,
    }
}

/// The referrer of a miner, from an optional parameter: the referrer that
/// the parameter names, or else the address that it stands for; no
/// parameter, and one that names nobody, give no referrer.
pub open spec fn mining_referrer_of(t: Option<Seq<u8>>, index: Map<Seq<u8>, [u8; 32]>) -> Option<
    [u8; 32],
> {
    match t {
        None => None,
        Some(t) => match referrer_param(t, index) {
            Ok(a) => Some(a),
            Err(_) => address_param(t),
        },
    }
}

/// Reads the optional referrer of a miner.
pub fn mining_referrer(state: &ChainState, text: &Option<String>) -> (r: Option<[u8; 32]>)
    requires
        state.wf(),
    ensures
        r == mining_referrer_of(text_bytes(*text), state@.referral_index),
{
    match text {
        None => None,
        Some(t) => match resolve_referrer(state, t.as_str()) {
            Ok(a) => Some(a),
            Err(_) => parse_address_param(t.as_str()),
        },
    }
}

/// Number of mining threads asked for: the request's, or else `default`,
/// held between 1 and 8.
pub open spec fn thread_count(asked: Option<u64>, default: u64) -> int {
    let n = match asked {
        Some(n) => n,
        None => default,
    };
    if n < 1 {
        1
    } else if n > 8 {
        8
    } else {
        n as int
    }
}

/// Reads the optional number of mining threads.
pub fn mining_threads(asked: Option<u64>, default: u64) -> (n: usize)
    ensures
        n == thread_count(asked, default),
        1 <= n <= 8,
{
    let n = match asked {
        Some(n) => n,
        None => default,
    };
    if n < 1 {
        1
    } else if n > 8 {
        8
    } else {
        n as usize
    }
}

/// Checks the number of blocks that a caller asks to generate: 1 to 500.
pub fn check_generate_count(count: u64) -> (r: Result<u32, RpcError>)
    ensures
        match r {
            Ok(n) => 1 <= count <= 500 && n == count,
            Err(e) => (count == 0 || count > 500) && e.code == -32602 && e.message@
                == "count must be between 1 and 500"@,
        },
{
    if count == 0 || count > MAX_GENERATE_COUNT {
        Err(
            RpcError {
                code: INVALID_PARAMS,
                message: String::from_str("count must be between 1 and 500"),
            },
        )
    } else {
        Ok(count as u32)
    }
}

/// The hashes per second that a target stands for at one block a minute:
/// (2²⁵⁶ − 1) / (target + 1) / 60, held to `u64::MAX`; a zero target
/// counts as one, and the largest target stands for no work.
pub open spec fn hashrate_of(target: nat) -> nat {
    let t = if target == 0 {
        1
    } else {
        target
    };
    if t >= u256_max() {
        0
    } else {
        let hps = (u256_max() / (t + 1)) / 60;
        if hps > u64::MAX {
            u64::MAX as nat
        } else {
            hps
        }
    }
}

/// The big-endian number plus one.
fn be_increment(a: &[u8; 32]) -> (r: [u8; 32])
    requires
        be_value(a@) < u256_max(),
    ensures
        be_value(r@) == be_value(a@) + 1,
{
    let mut r = *a;
    let mut i: usize = 32;
    proof {
        assert(a@.take(32) =~= a@);
        assert(a@.skip(32) =~= Seq::<u8>::empty());
    }
    // bytes behind position i were 0xFF and are now zero
    while i > 0 && r[i - 1] == 0xFF
        invariant
            i <= 32,
            forall|k: int| 0 <= k < i ==> r@[k] == a@[k],
            forall|k: int| i <= k < 32 ==> r@[k] == 0 && a@[k] == 0xFF,
        decreases i,
    {
        r[i - 1] = 0;
        i -= 1;
    }
    proof {
        lemma_pow256_32();
        if i == 0 {
            lemma_be_value_ones(a@);
        }
    }
    r[i - 1] = r[i - 1] + 1;
    proof {
        lemma_increment(a@, r@, i as int);
    }
    r
}

proof fn lemma_increment(a: Seq<u8>, r: Seq<u8>, i: int)
    requires
        a.len() == r.len(),
        1 <= i <= a.len(),
        a[i - 1] < 0xFF,
        r[i - 1] == a[i - 1] + 1,
        forall|k: int| 0 <= k < i - 1 ==> r[k] == a[k],
        forall|k: int| i <= k < a.len() ==> r[k] == 0 && a[k] == 0xFF,
    ensures
        be_value(r) == be_value(a) + 1,
    decreases a.len() - i,
{
    if i == a.len() {
        assert(r.drop_last() =~= a.drop_last());
    } else {
        lemma_increment(a.drop_last(), r.drop_last(), i);
    }
}

/// The number that a big-endian byte string stands for, held to `u64::MAX`.
fn be_to_u64_saturating(a: &[u8; 32]) -> (v: u64)
    ensures
        v == (if be_value(a@) > u64::MAX {
            u64::MAX as nat
        } else {
            be_value(a@)
        }),
{
    let mut v: u64 = 0;
    let mut i: usize = 0;
    assert(a@.take(0) =~= Seq::<u8>::empty());
    while i < 32
        invariant
            i <= 32,
            v == be_value(a@.take(i as int)),
        decreases 32 - i,
    {
        proof {
            assert(a@.take(i + 1).drop_last() =~= a@.take(i as int));
            assert(a@.take(i + 1).last() == a@[i as int]);
        }
        if v > (u64::MAX - a[i] as u64) / 256 {
            proof {
                lemma_be_value_prefix(a@, i + 1);
            }
            return u64::MAX;
        }
        v = v * 256 + a[i] as u64;
        i += 1;
    }
    assert(a@.take(32) =~= a@);
    v
}

proof fn lemma_be_value_prefix(a: Seq<u8>, k: int)
    requires
        0 <= k <= a.len(),
    ensures
        be_value(a.take(k)) <= be_value(a),
    decreases a.len() - k,
{
    if k == a.len() {
        assert(a.take(k) =~= a);
    } else {
        lemma_be_value_prefix(a, k + 1);
        assert(a.take(k + 1).drop_last() =~= a.take(k));
    }
}

/// Estimates the network's hashes per second from a target.
pub fn estimate_network_hashrate_from_target(target_bytes: &[u8; 32]) -> (hps: u64)
    ensures
        hps == hashrate_of(be_value(target_bytes@)),
{
    let zero = [0u8; 32];
    let max = [0xFFu8; 32];
    proof {
        lemma_be_value_zeros(zero@);
        lemma_be_value_ones(max@);
        lemma_pow256_32();
        crate::consensus::chain::lemma_be_value_bound(target_bytes@);
    }
    let mut target = *target_bytes;
    if crate::bytes::be_le(target_bytes, &zero) {
        proof {
            crate::bytes::lemma_be_value_injective(target_bytes@, zero@);
        }
        target[31] = 1;
        proof {
            assert(target@.drop_last() =~= zero@.drop_last());
            lemma_be_value_zeros(target@.drop_last());
        }
    }
    if crate::bytes::be_le(&max, &target) {
        return 0;
    }
    let divisor = be_increment(&target);
    let expected = u256_div(&max, &divisor);
    let per_second = u256_div_u64(&expected, 60);
    be_to_u64_saturating(&per_second)
}

/// The hashes per second of the network, estimated from the target of the
/// block at the tip's height; zero at height 0 and where that block is
/// not stored.
pub open spec fn network_hashrate_of(view: ChainView) -> nat {
    if view.chain_height() > 0 && block_at_height(view, view.chain_height()).is_some() {
        hashrate_of(be_value(block_at_height(view, view.chain_height()).unwrap().difficulty_target))
    } else {
        0
    }
}

/// Estimates the hashes per second of the network.
pub fn network_hashrate(state: &ChainState) -> (hps: u64)
    requires
        state.wf(),
    ensures
        hps == network_hashrate_of(state@),
{
    let height = state.get_chain_height();
    if height == 0 {
        return 0;
    }
    match state.get_block_hash_by_height(height) {
        Some(hash) => match state.get_block(&hash) {
            Some(block) => estimate_network_hashrate_from_target(&block.difficulty_target),
            None => 0,
        },
        None => 0,
    }
}

/// What may keep a node from being reached.
#[derive(Debug, Clone, Copy, PartialEq, Eq, Structural)]
pub enum BootstrapWarning {
    /// The P2P port listens on the loopback interface only.
    BoundToLoopback,
    /// No address is advertised.
    NothingAdvertised,
    /// An advertised address is private or loopback.
    PrivateAdvertised,
    /// No peer is connected.
    NoPeers,
    /// No peer is known.
    NoKnownPeers,
}

/// What a warning says.
pub open spec fn warning_text(w: BootstrapWarning) -> Seq<char> {
    match w {
        BootstrapWarning::BoundToLoopback => "P2P bind address is 127.0.0.1; node is not reachable from the internet"@,
        BootstrapWarning::NothingAdvertised => "KNOTCOIN_ADVERTISE_ADDRS is not set; peers may not learn your public address"@,
        BootstrapWarning::PrivateAdvertised => "Advertised address is private or loopback; peers on the internet cannot reach it"@,
        BootstrapWarning::NoPeers => "No connected peers yet; check port forwarding and firewall"@,
        BootstrapWarning::NoKnownPeers => "No known peers on disk; bootstrap may be failing"@,
    }
}

impl BootstrapWarning {
    /// The warning in words.
    pub fn message(&self) -> (m: &'static str)
        ensures
            m@ == warning_text(*self),
    {
        match self {
            BootstrapWarning::BoundToLoopback => "P2P bind address is 127.0.0.1; node is not reachable from the internet",
            BootstrapWarning::NothingAdvertised => "KNOTCOIN_ADVERTISE_ADDRS is not set; peers may not learn your public address",
            BootstrapWarning::PrivateAdvertised => "Advertised address is private or loopback; peers on the internet cannot reach it",
            BootstrapWarning::NoPeers => "No connected peers yet; check port forwarding and firewall",
            BootstrapWarning::NoKnownPeers => "No known peers on disk; bootstrap may be failing",
        }
    }
}

/// The warnings of a bootstrap check, in their order.
pub open spec fn bootstrap_warnings_of(
    bound_to_loopback: bool,
    advertised: Seq<PeerAddr>,
    connected: nat,
    known: nat,
) -> Seq<BootstrapWarning> {
    let a = if bound_to_loopback {
        seq![BootstrapWarning::BoundToLoopback]
    } else {
        Seq::<BootstrapWarning>::empty()
    };
    let b = if advertised.len() == 0 {
        a.push(BootstrapWarning::NothingAdvertised)
    } else if exists|i: int| 0 <= i < advertised.len() && private_ip(#[trigger] advertised[i]) {
        a.push(BootstrapWarning::PrivateAdvertised)
    } else {
        a
    };
    let c = if connected == 0 {
        b.push(BootstrapWarning::NoPeers)
    } else {
        b
    };
    if known == 0 {
        c.push(BootstrapWarning::NoKnownPeers)
    } else {
        c
    }
}

/// Checks what may keep the node from being reached.
pub fn bootstrap_warnings(
    bound_to_loopback: bool,
    advertised: &Vec<PeerAddr>,
    connected: usize,
    known: usize,
) -> (warnings: Vec<BootstrapWarning>)
    ensures
        warnings@ == bootstrap_warnings_of(
            bound_to_loopback,
            advertised@,
            connected as nat,
            known as nat,
        ),
{
    let mut warnings: Vec<BootstrapWarning> = Vec::new();
    if bound_to_loopback {
        warnings.push(BootstrapWarning::BoundToLoopback);
    }
    if advertised.len() == 0 {
        warnings.push(BootstrapWarning::NothingAdvertised);
    } else {
        let mut any_private = false;
        let mut i: usize = 0;
        while i < advertised.len()
            invariant
                i <= advertised@.len(),
                any_private == exists|k: int| 0 <= k < i && private_ip(#[trigger] advertised@[k]),
            decreases advertised@.len() - i,
        {
            if is_private_ip(&advertised[i]) {
                any_private = true;
            }
            i += 1;
        }
        if any_private {
            warnings.push(BootstrapWarning::PrivateAdvertised);
        }
    }
    if connected == 0 {
        warnings.push(BootstrapWarning::NoPeers);
    }
    if known == 0 {
        warnings.push(BootstrapWarning::NoKnownPeers);
    }
    assert(warnings@ =~= bootstrap_warnings_of(
        bound_to_loopback,
        advertised@,
        connected as nat,
        known as nat,
    ));
    warnings
}


/// Whether the block indexed at a height is stored and was mined by `miner`.
pub open spec fn mined_at(view: ChainView, miner: Seq<u8>, height: u32) -> bool {
    block_at_height(view, height).is_some() && block_at_height(view, height).unwrap().miner_address
        == miner
}

/// Number of blocks at the heights 1 to `upto` that `miner` mined.
pub open spec fn blocks_mined_by(view: ChainView, miner: Seq<u8>, upto: nat) -> nat
    decreases upto,
{
    if upto == 0 {
        0
    } else {
        blocks_mined_by(view, miner, (upto - 1) as nat) + (if mined_at(view, miner, upto as u32) {
            1nat
        } else {
            0nat
        })
    }
}

/// The rewards of the blocks at the heights 1 to `upto` that `miner` mined.
pub open spec fn rewards_of(view: ChainView, miner: Seq<u8>, upto: nat) -> nat
    decreases upto,
{
    if upto == 0 {
        0
    } else {
        rewards_of(view, miner, (upto - 1) as nat) + (if mined_at(view, miner, upto as u32) {
            block_reward(upto)
        } else {
            0nat
        })
    }
}

/// The highest of the heights 1 to `upto` at which `miner` mined; zero
/// where there is none.
pub open spec fn last_height_of(view: ChainView, miner: Seq<u8>, upto: nat) -> nat
    decreases upto,
{
    if upto == 0 {
        0
    } else if mined_at(view, miner, upto as u32) {
        upto
    } else {
        last_height_of(view, miner, (upto - 1) as nat)
    }
}

/// The report on a miner.
#[derive(Debug, Clone, Copy)]
pub struct MinerInfo {
    pub address: [u8; 32],
    /// Number of blocks above height 0 that the miner mined.
    pub blocks_mined: u64,
    pub last_mined_height: u32,
    /// The rewards of those blocks.
    pub total_reward_knots: u64,
    pub balance_knots: u64,
    pub nonce: u64,
    pub referrer: Option<[u8; 32]>,
    /// The timestamp of the miner's newest block.
    pub last_block_time: u32,
    /// Whether the node mines to this address.
    pub is_mining: bool,
}

/// Whether a report shows a miner of the chain up to its tip.
pub open spec fn shows_miner(info: MinerInfo, view: ChainView, mining: Option<[u8; 32]>) -> bool {
    let m = info.address@;
    let top = view.chain_height() as nat;
    let account = account_at(view.accounts, m);
    &&& info.blocks_mined >= 1
    &&& info.blocks_mined == blocks_mined_by(view, m, top)
    &&& info.last_mined_height == last_height_of(view, m, top)
    &&& info.total_reward_knots == rewards_of(view, m, top)
    &&& info.balance_knots == account.balance
    &&& info.nonce == account.nonce
    &&& info.referrer == account.referrer
    &&& mined_at(view, m, info.last_mined_height)
    &&& info.last_block_time == block_at_height(view, info.last_mined_height).unwrap().time()
    &&& info.is_mining == (mining == Some(info.address))
}

/// Whether the reports show every miner of the chain above height 0 once,
/// the miner of most blocks first.
pub open spec fn lists_miners(miners: Seq<MinerInfo>, view: ChainView, mining: Option<[u8; 32]>) -> bool {
    &&& forall|i: int| 0 <= i < miners.len() ==> shows_miner(#[trigger] miners[i], view, mining)
    &&& forall|i: int, j: int|
        0 <= i < j < miners.len() ==> (#[trigger] miners[i]).blocks_mined >= (
        #[trigger] miners[j]).blocks_mined && miners[i].address@ != miners[j].address@
    &&& forall|m: Seq<u8>|
        blocks_mined_by(view, m, view.chain_height() as nat) > 0 ==> exists|i: int|
            0 <= i < miners.len() && (#[trigger] miners[i]).address@ == m
}

/// What the scan of the chain has counted for a miner.
#[derive(Clone, Copy)]
struct MinerTally {
    count: u64,
    last: u32,
    last_time: u32,
    reward: u64,
}

/// Counts blocks, newest height and rewards per miner over the heights
/// 1 to the tip.
fn tally_miners(state: &ChainState) -> (tallies: ByteMap<MinerTally, 32>)
    requires
        state.wf(),
    ensures
        tallies.wf(),
        forall|k: Seq<u8>| #[trigger]
            tallies@.contains_key(k) ==> ({
                let top = state@.chain_height() as nat;
                &&& tallies@[k].count >= 1
                &&& tallies@[k].count == blocks_mined_by(state@, k, top)
                &&& tallies@[k].last == last_height_of(state@, k, top)
                &&& tallies@[k].reward == rewards_of(state@, k, top)
                &&& mined_at(state@, k, tallies@[k].last)
                &&& tallies@[k].last_time == block_at_height(state@, tallies@[k].last).unwrap().time()
            }),
        forall|k: Seq<u8>|
            !(#[trigger] tallies@.contains_key(k)) ==> blocks_mined_by(
                state@,
                k,
                state@.chain_height() as nat,
            ) == 0,
{
    let height = state.get_chain_height();
    let mut tallies: ByteMap<MinerTally, 32> = ByteMap::new();
    let mut h: u32 = 0;
    while h < height
        invariant
            state.wf(),
            tallies.wf(),
            h <= height,
            forall|k: Seq<u8>| #[trigger]
                tallies@.contains_key(k) ==> ({
                    &&& tallies@[k].count >= 1
                    &&& tallies@[k].count == blocks_mined_by(state@, k, h as nat)
                    &&& tallies@[k].count <= h
                    &&& tallies@[k].last == last_height_of(state@, k, h as nat)
                    &&& tallies@[k].reward == rewards_of(state@, k, h as nat)
                    &&& tallies@[k].reward <= h * 100_000_000
                    &&& mined_at(state@, k, tallies@[k].last)
                    &&& tallies@[k].last_time == block_at_height(
                        state@,
                        tallies@[k].last,
                    ).unwrap().time()
                }),
            forall|k: Seq<u8>|
                !(#[trigger] tallies@.contains_key(k)) ==> blocks_mined_by(state@, k, h as nat) == 0
                    && rewards_of(state@, k, h as nat) == 0,
        decreases height - h,
    {
        let next = h + 1;
        let ghost before = tallies@;
        match state.get_block_hash_by_height(next) {
            Some(hash) => match state.get_block(&hash) {
                Some(block) => {
                    let miner = block.miner_address;
                    let old = match tallies.get(&miner) {
                        Some(t) => *t,
                        None => MinerTally { count: 0, last: 0, last_time: 0, reward: 0 },
                    };
                    let reward = calculate_block_reward(next as u64);
                    assert(old.reward + reward <= next * 100_000_000) by (nonlinear_arith)
                        requires
                            old.reward <= h * 100_000_000,
                            reward <= 100_000_000,
                            next == h + 1,
                    ;
                    tallies.insert(
                        miner,
                        MinerTally {
                            count: old.count + 1,
                            last: next,
                            last_time: block.time(),
                            reward: old.reward + reward,
                        },
                    );
                    assert(mined_at(state@, miner@, next));
                    assert forall|k: Seq<u8>| #[trigger]
                        tallies@.contains_key(k) && k != miner@ implies !mined_at(state@, k, next)
                        && tallies@[k] == before[k] && before.contains_key(k) by {}
                    assert forall|k: Seq<u8>| #[trigger]
                        tallies@.contains_key(k) implies tallies@[k].reward <= next * 100_000_000 by {
                        if k != miner@ {
                            assert(before[k].reward <= h * 100_000_000);
                        }
                    }
                },
                None => {
                    assert forall|k: Seq<u8>| !mined_at(state@, k, next) by {}
                    assert forall|k: Seq<u8>| #[trigger]
                        tallies@.contains_key(k) implies tallies@[k].reward <= next * 100_000_000 by {
                        assert(tallies@[k].reward <= h * 100_000_000);
                    }
                },
            },
            None => {
                assert forall|k: Seq<u8>| !mined_at(state@, k, next) by {}
                assert forall|k: Seq<u8>| #[trigger]
                    tallies@.contains_key(k) implies tallies@[k].reward <= next * 100_000_000 by {
                    assert(tallies@[k].reward <= h * 100_000_000);
                }
            },
        }
        h = next;
    }
    tallies
}

/// Reports on every miner of the chain above height 0, the miner of most
/// blocks first; `mining` is the address that the node mines to, if it
/// mines.
pub fn all_miners(state: &ChainState, mining: Option<[u8; 32]>) -> (miners: Vec<MinerInfo>)
    requires
        state.wf(),
    ensures
        lists_miners(miners@, state@, mining),
{
    let tallies = tally_miners(state);
    proof {
        tallies.lemma_entries();
        tallies.lemma_entry_seq();
    }
    let n = tallies.len();
    let ghost entries = tallies.entry_seq();
    // the entries' positions, by number of blocks
    let mut order: Vec<usize> = Vec::new();
    let mut k: usize = 0;
    while k < n
        invariant
            tallies.wf(),
            n == tallies.key_seq().len(),
            entries == tallies.entry_seq(),
            entries.len() == n,
            k <= n,
            order@.len() == k,
            forall|i: int| 0 <= i < order@.len() ==> #[trigger] order@[i] < k,
            forall|j: usize| j < k ==> #[trigger] order@.contains(j),
            forall|i: int, j: int|
                0 <= i < j < order@.len() ==> entries[#[trigger] order@[i] as int].1.count
                    >= entries[#[trigger] order@[j] as int].1.count && order@[i] != order@[j],
        decreases n - k,
    {
        let count = tallies.value_at(k).count;
        let mut pos: usize = 0;
        while pos < order.len() && tallies.value_at(order[pos]).count >= count
            invariant
                tallies.wf(),
                n == tallies.key_seq().len(),
                entries == tallies.entry_seq(),
                k < n,
                pos <= order@.len(),
                forall|i: int| 0 <= i < order@.len() ==> #[trigger] order@[i] < k,
                forall|i: int|
                    0 <= i < pos ==> entries[#[trigger] order@[i] as int].1.count >= count,
            decreases order@.len() - pos,
        {
            pos += 1;
        }
        let ghost before = order@;
        order.insert(pos, k);
        proof {
            assert(order@ == before.insert(pos as int, k));
            assert forall|j: usize| j < k + 1 implies #[trigger] order@.contains(j) by {
                if j < k {
                    assert(before.contains(j));
                    let i = choose|i: int| 0 <= i < before.len() && before[i] == j;
                    if i < pos {
                        assert(order@[i] == j);
                    } else {
                        assert(order@[i + 1] == j);
                    }
                } else {
                    assert(order@[pos as int] == k);
                }
            }
            assert forall|i: int, j: int| 0 <= i < j < order@.len() implies entries[
                #[trigger] order@[i] as int].1.count >= entries[
                #[trigger] order@[j] as int].1.count && order@[i] != order@[j] by {
                if j < pos {
                    assert(order@[i] == before[i] && order@[j] == before[j]);
                } else if j == pos {
                    assert(order@[i] == before[i]);
                } else if i < pos {
                    assert(order@[i] == before[i] && order@[j] == before[j - 1]);
                } else if i == pos {
                    assert(order@[j] == before[j - 1]);
                    assert(pos < before.len());
                    if j - 1 > pos {
                        assert(entries[before[pos as int] as int].1.count >= entries[before[j
                            - 1] as int].1.count);
                    }
                } else {
                    assert(order@[i] == before[i - 1] && order@[j] == before[j - 1]);
                }
            }
        }
        k += 1;
    }
    let mut miners: Vec<MinerInfo> = Vec::new();
    let mut i: usize = 0;
    while i < n
        invariant
            state.wf(),
            tallies.wf(),
            n == tallies.key_seq().len(),
            entries == tallies.entry_seq(),
            entries.len() == n,
            order@.len() == n,
            i <= n,
            miners@.len() == i,
            forall|a: int| 0 <= a < order@.len() ==> #[trigger] order@[a] < n,
            forall|a: int|
                0 <= a < i ==> (#[trigger] miners@[a]).address == entries[order@[a] as int].0
                    && miners@[a].blocks_mined == entries[order@[a] as int].1.count
                    && shows_miner(miners@[a], state@, mining),
            forall|k: Seq<u8>| #[trigger]
                tallies@.contains_key(k) ==> ({
                    let top = state@.chain_height() as nat;
                    &&& tallies@[k].count >= 1
                    &&& tallies@[k].count == blocks_mined_by(state@, k, top)
                    &&& tallies@[k].last == last_height_of(state@, k, top)
                    &&& tallies@[k].reward == rewards_of(state@, k, top)
                    &&& mined_at(state@, k, tallies@[k].last)
                    &&& tallies@[k].last_time == block_at_height(
                        state@,
                        tallies@[k].last,
                    ).unwrap().time()
                }),
        decreases n - i,
    {
        let e = order[i];
        let address = *tallies.key_at(e);
        let tally = *tallies.value_at(e);
        proof {
            tallies.lemma_entries();
            tallies.lemma_entry_seq();
            assert(tallies.key_seq()[e as int] == address@);
            assert(tallies@.contains_key(address@));
            assert(tallies@[address@] == tally);
        }
        let account = state.get_account(&address);
        let is_mining = match mining {
            Some(m) => crate::bytes::array_eq(&m, &address),
            None => false,
        };
        miners.push(
            MinerInfo {
                address,
                blocks_mined: tally.count,
                last_mined_height: tally.last,
                total_reward_knots: tally.reward,
                balance_knots: account.balance,
                nonce: account.nonce,
                referrer: account.referrer,
                last_block_time: tally.last_time,
                is_mining,
            },
        );
        i += 1;
    }
    proof {
        tallies.lemma_entries();
        tallies.lemma_entry_seq();
        assert forall|a: int, b: int| 0 <= a < b < miners@.len() implies (
        #[trigger] miners@[a]).blocks_mined >= (#[trigger] miners@[b]).blocks_mined
            && miners@[a].address@ != miners@[b].address@ by {
            let x = order@[a] as int;
            let y = order@[b] as int;
            assert(x != y);
            assert(entries[x].0@ == tallies.key_seq()[x]);
            assert(entries[y].0@ == tallies.key_seq()[y]);
            if x < y {
                assert(tallies.key_seq()[x] != tallies.key_seq()[y]);
            } else {
                assert(tallies.key_seq()[y] != tallies.key_seq()[x]);
            }
        }
        assert forall|m: Seq<u8>|
            blocks_mined_by(state@, m, state@.chain_height() as nat) > 0 implies exists|i: int|
            0 <= i < miners@.len() && (#[trigger] miners@[i]).address@ == m by {
            assert(tallies@.contains_key(m));
            let e = choose|e: int|
                0 <= e < tallies.key_seq().len() && #[trigger] tallies.key_seq()[e] == m;
            assert(order@.contains(e as usize));
            let p = choose|p: int| 0 <= p < order@.len() && order@[p] == e as usize;
            assert(miners@[p].address == entries[e].0);
        }
    }
    miners
}

/// The pending transactions that a caller is shown: the block template of
/// at most `limit` transactions, and never more than 1000.
pub fn mempool_entries(mempool: &Mempool, limit: u64) -> (out: Vec<StoredTransaction>)
    requires
        mempool.wf(),
    ensures
        is_template(
            mempool@,
            Seq::new(out@.len(), |i: int| out@[i]@),
            (if limit > 1000 {
                1000
            } else {
                limit as nat
            }),
        ),
{
    let capped: usize = if limit > 1000 {
        1000
    } else {
        limit as usize
    };
    mempool.get_top_transactions(capped)
}


/// The nonce of a sender's next transaction: one above the account's
/// nonce and above the highest nonce that the sender has pending.
pub open spec fn next_nonce_of(account_nonce: u64, pending: Option<u64>) -> nat {
    match pending {
        Some(p) => if p >= account_nonce {
            p as nat + 1
        } else {
            account_nonce as nat + 1
        },
        None => account_nonce as nat + 1,
    }
}

/// Picks the nonce of a sender's next transaction; `None` where no nonce
/// is left.
pub fn next_nonce(state: &ChainState, mempool: &Mempool, sender: &[u8; 32]) -> (n: Option<u64>)
    requires
        state.wf(),
        mempool.wf(),
    ensures
        ({
            let next = next_nonce_of(
                account_at(state@.accounts, sender@).nonce,
                highest_nonce(mempool@, sender@, mempool@.len()),
            );
            match n {
                Some(v) => v == next,
                None => next > u64::MAX,
            }
        }),
{
    let account_nonce = state.get_account(sender).nonce;
    let base = match mempool.highest_pending_nonce_for_sender(sender) {
        Some(p) => if p >= account_nonce {
            p
        } else {
            account_nonce
        },
        None => account_nonce,
    };
    base.checked_add(1)
}

/// An internal error.
fn internal_error(message: &str) -> (e: RpcError)
    ensures
        e.code == -32603,
        e.message@ == message@,
{
    RpcError { code: INTERNAL_ERROR, message: String::from_str(message) }
}

/// Signs a transaction whose fields are set.
fn signed(unsigned: Transaction, sk: &SecretKey) -> (tx: Transaction)
    ensures
        tx@ == (TxView {
            signature: dilithium3_signature(signing_hash_of(unsigned@), sk.0@),
            ..unsigned@
        }),
{
    let hash = unsigned.signing_hash();
    let signature = sign(hash.as_slice(), sk);
    Transaction {
        version: unsigned.version,
        sender_address: unsigned.sender_address,
        sender_pubkey: unsigned.sender_pubkey,
        recipient_address: unsigned.recipient_address,
        amount: unsigned.amount,
        fee: unsigned.fee,
        nonce: unsigned.nonce,
        timestamp: unsigned.timestamp,
        referrer_address: unsigned.referrer_address,
        governance_data: unsigned.governance_data,
        signature,
    }
}

/// Whether `tx` is the transaction of one knot fee that `public_key`'s
/// account sends with `nonce`, signed with `secret_key`.
pub open spec fn is_wallet_tx(
    tx: TxView,
    public_key: Seq<u8>,
    secret_key: Seq<u8>,
    recipient: [u8; 32],
    amount: u64,
    nonce: u64,
    timestamp: u64,
    referrer: Option<[u8; 32]>,
    proposal: Option<[u8; 32]>,
) -> bool {
    &&& tx.version == 1
    &&& tx.sender_address@ == address_of(public_key)
    &&& tx.sender_pubkey == public_key
    &&& tx.recipient_address == recipient
    &&& tx.amount == amount
    &&& tx.fee == 1
    &&& tx.nonce == nonce
    &&& tx.timestamp == timestamp
    &&& tx.referrer_address == referrer
    &&& tx.governance_data == proposal
    &&& tx.signature == dilithium3_signature(
        signing_hash_of(TxView { signature: Seq::<u8>::empty(), ..tx }),
        secret_key,
    )
}

/// The signing hash does not depend on the signature.
proof fn lemma_signing_hash_ignores_signature(a: TxView, b: TxView)
    requires
        a == (TxView { signature: a.signature, ..b }),
    ensures
        signing_hash_of(a) == signing_hash_of(b),
{
}

/// Assembles and signs a transfer of a wallet: one knot of fee, the next
/// nonce of the sender. The sender's balance must cover amount and fee.
pub fn assemble_transfer(
    state: &ChainState,
    mempool: &Mempool,
    pk: &PublicKey,
    sk: &SecretKey,
    recipient: &[u8; 32],
    amount: u64,
    governance_data: Option<[u8; 32]>,
    timestamp: u64,
) -> (r: Result<Transaction, RpcError>)
    requires
        state.wf(),
        mempool.wf(),
    ensures
        ({
            let sender = address_of(pk.0@);
            let account = account_at(state@.accounts, sender);
            let next = next_nonce_of(
                account.nonce,
                highest_nonce(mempool@, sender, mempool@.len()),
            );
            match r {
                Ok(tx) => account.balance >= amount + 1 && next <= u64::MAX && is_wallet_tx(
                    tx@,
                    pk.0@,
                    sk.0@,
                    *recipient,
                    amount,
                    next as u64,
                    timestamp,
                    None,
                    governance_data,
                ),
                Err(e) => e.code == -32603 && (if account.balance < amount + 1 {
                    e.message@ == "insufficient balance"@
                } else {
                    next > u64::MAX && e.message@ == "no nonce left"@
                }),
            }
        }),
{
    let sender = derive_address(pk);
    let account = state.get_account(&sender);
    if amount == u64::MAX || account.balance < amount + 1 {
        return Err(internal_error("insufficient balance"));
    }
    let nonce = match next_nonce(state, mempool, &sender) {
        Some(n) => n,
        None => {
            return Err(internal_error("no nonce left"));
        },
    };
    let unsigned = Transaction {
        version: 1,
        sender_address: sender,
        sender_pubkey: *pk,
        recipient_address: *recipient,
        amount,
        fee: 1,
        nonce,
        timestamp,
        referrer_address: None,
        governance_data,
        signature: Signature([0u8; 3309]),
    };
    let tx = signed(unsigned, sk);
    proof {
        lemma_signing_hash_ignores_signature(
            TxView { signature: Seq::<u8>::empty(), ..tx@ },
            unsigned@,
        );
    }
    Ok(tx)
}

/// Assembles and signs the referral registration of a wallet: nothing is
/// sent to oneself with nonce 1 and one knot of fee. The account must not
/// have sent a transaction yet and must hold the fee.
pub fn assemble_referral_registration(
    state: &ChainState,
    pk: &PublicKey,
    sk: &SecretKey,
    referrer: &[u8; 32],
    timestamp: u64,
) -> (r: Result<Transaction, RpcError>)
    requires
        state.wf(),
    ensures
        ({
            let sender = address_of(pk.0@);
            let account = account_at(state@.accounts, sender);
            match r {
                Ok(tx) => account.nonce == 0 && account.balance >= 1 && tx.recipient_address@
                    == sender && is_wallet_tx(
                    tx@,
                    pk.0@,
                    sk.0@,
                    tx.recipient_address,
                    0,
                    1,
                    timestamp,
                    Some(*referrer),
                    None,
                ),
                Err(e) => e.code == -32603 && (if account.nonce != 0 {
                    e.message@ == "wallet already active, referral must be first tx"@
                } else {
                    account.balance < 1 && e.message@ == "insufficient balance for 1 knot fee"@
                }),
            }
        }),
{
    let sender = derive_address(pk);
    let account = state.get_account(&sender);
    if account.nonce != 0 {
        return Err(internal_error("wallet already active, referral must be first tx"));
    }
    if account.balance < 1 {
        return Err(internal_error("insufficient balance for 1 knot fee"));
    }
    let unsigned = Transaction {
        version: 1,
        sender_address: sender,
        sender_pubkey: *pk,
        recipient_address: sender,
        amount: 0,
        fee: 1,
        nonce: 1,
        timestamp,
        referrer_address: Some(*referrer),
        governance_data: None,
        signature: Signature([0u8; 3309]),
    };
    let tx = signed(unsigned, sk);
    proof {
        lemma_signing_hash_ignores_signature(
            TxView { signature: Seq::<u8>::empty(), ..tx@ },
            unsigned@,
        );
    }
    Ok(tx)
}

/// A call to the node.
#[derive(Debug, Clone)]
pub enum RpcRequest {
    GetBlockCount,
    GetBlockHash { height: u32 },
    /// The hash in hexadecimal.
    GetBlock { hash: String },
    GetBlockByHeight { height: u32 },
    GetRecentBlocks { count: u64 },
    GetAllMiners,
    GetBalance { address: String },
    GetReferralInfo { address: String },
    GetGovernanceInfo { address: String },
    /// The proposal in hexadecimal.
    GetGovernanceTally { proposal: String },
    GetAddressStats,
    GetMempoolInfo,
    GetRawMempool,
    GetMempool { limit: u64 },
    EstimateFee { tx_size: u64 },
    /// The transaction in hexadecimal.
    SendRawTransaction { hex: String },
    /// Mine `count` blocks to `address`, for an optional referrer, on an
    /// optional number of threads.
    GenerateToAddress { count: u64, address: String, referrer: Option<String>, threads: Option<u64> },
    /// Mine to the primary address of a mnemonic until told to stop.
    StartMining { mnemonic: String, threads: Option<u64>, referrer: Option<String> },
    StopMining,
    AddNode { address: PeerAddr },
    GetPeerInfo,
    GetNetworkHashrate,
    GetBootstrapCheck,
    Stop,
    /// A method that the node does not know.
    Unknown { method: String },
}

/// What the node knows of its surroundings when a call comes in.
#[derive(Debug, Clone)]
pub struct NodeStatus {
    pub connected_peers: usize,
    pub known_peers: usize,
    /// Whether the P2P port listens on the loopback interface only.
    pub bound_to_loopback: bool,
    pub advertised: Vec<PeerAddr>,
    /// The address that the node mines to, while it mines.
    pub mining: Option<[u8; 32]>,
}

/// The answer to a call.
#[derive(Debug, Clone)]
pub enum RpcReply {
    BlockCount(u32),
    BlockHash([u8; 32]),
    Block(BlockInfo),
    RecentBlocks(Vec<BlockInfo>),
    Miners { miners: Vec<MinerInfo>, chain_height: u32 },
    Balance(BalanceInfo),
    Referral(ReferralInfo),
    Governance(GovernanceInfo),
    Tally(TallyInfo),
    AddressStats(AddressStats),
    MempoolInfo { size: usize },
    RawMempool(Vec<[u8; 32]>),
    Mempool(Vec<StoredTransaction>),
    Fee(FeeEstimate),
    /// The transaction was admitted; the message passes it on to the peers.
    Sent { txid: [u8; 32], broadcast: NetworkMessage },
    /// The node is to mine `count` blocks to `miner`.
    Generate { count: u32, miner: [u8; 32], referrer: Option<[u8; 32]>, threads: usize },
    /// The node is to mine to `miner` until it is told to stop.
    StartMining { miner: [u8; 32], referrer: Option<[u8; 32]>, threads: usize },
    /// The node mines already; nothing is to be done.
    AlreadyMining,
    /// The node is to stop mining.
    StopMining,
    /// The node is to dial the peer.
    Connect(PeerAddr),
    PeerInfo { connected: bool, peer_count: usize, known_peers: usize },
    Hashrate(u64),
    Bootstrap(Vec<BootstrapWarning>),
    /// The node is to shut down.
    Stopping,
}

/// An invalid parameter.
fn invalid_params(message: &str) -> (e: RpcError)
    ensures
        e.code == -32602,
        e.message@ == message@,
{
    RpcError { code: INVALID_PARAMS, message: String::from_str(message) }
}

/// Reads a 32-byte value given in hexadecimal.
fn hash_param(text: &str, bad_format: &'static str, bad_length: &'static str) -> (r: Result<
    [u8; 32],
    RpcError,
>)
    ensures
        match r {
            Ok(h) => is_hex(text.spec_bytes()) && h@ == hex_bytes(text.spec_bytes()),
            Err(e) => e.code == -32602 && (if !is_hex(text.spec_bytes()) {
                e.message@ == bad_format@
            } else {
                hex_bytes(text.spec_bytes()).len() != 32 && e.message@ == bad_length@
            }),
        },
{
    match hex_decode(text.as_bytes()) {
        None => Err(invalid_params(bad_format)),
        Some(raw) => {
            if raw.len() != 32 {
                Err(invalid_params(bad_length))
            } else {
                let h: [u8; 32] = read_array(raw.as_slice(), 0);
                assert(h@ =~= raw@);
                Ok(h)
            }
        },
    }
}

/// Answers a call.
///
/// Reads are answered from the store and the pool; a call that asks the
/// node to act (to generate blocks, to stop mining, to dial a peer, to shut
/// down) is checked and handed back as an order. A block that is not
/// stored, a malformed parameter and a refused transaction are errors with
/// their codes, and an unknown method is `method not found`.
pub fn handle_rpc(
    state: &ChainState,
    mempool: &mut Mempool,
    status: &NodeStatus,
    request: RpcRequest,
) -> (r: Result<RpcReply, RpcError>)
    requires
        state.wf(),
        old(mempool).wf(),
    ensures
        final(mempool).wf(),
        !(request is SendRawTransaction) ==> final(mempool)@ == old(mempool)@,
        match request {
            RpcRequest::GetBlockCount => r is Ok && r->Ok_0 == RpcReply::BlockCount(
                state@.chain_height(),
            ),
            RpcRequest::GetBlockHash { height } => match state@.hash_at_height(height) {
                Some(h) => r is Ok && r->Ok_0 == RpcReply::BlockHash(h),
                None => r is Err && r->Err_0.code == -32602 && r->Err_0.message@
                    == "block not found"@,
            },
            RpcRequest::GetBlock { hash } => match r {
                Ok(reply) => is_hex(encode_utf8(hash@)) && state@.blocks.contains_key(
                    hex_bytes(encode_utf8(hash@)),
                ) && reply is Block && shows_block(
                    reply->Block_0,
                    state@.blocks[hex_bytes(encode_utf8(hash@))],
                    state@.blocks[hex_bytes(encode_utf8(hash@))].height(),
                ),
                Err(e) => e.code == -32602 && (if !is_hex(encode_utf8(hash@)) {
                    e.message@ == "invalid hash format"@
                } else if hex_bytes(encode_utf8(hash@)).len() != 32 {
                    e.message@ == "invalid hash length"@
                } else {
                    !state@.blocks.contains_key(hex_bytes(encode_utf8(hash@))) && e.message@
                        == "block not found"@
                }),
            },
            RpcRequest::GetBlockByHeight { height } => match block_at_height(state@, height) {
                Some(b) => r is Ok && r->Ok_0 is Block && shows_block(r->Ok_0->Block_0, b, height),
                None => r is Err && r->Err_0.code == -32602 && r->Err_0.message@
                    == "block not found"@,
            },
            RpcRequest::GetRecentBlocks { count } => r is Ok && r->Ok_0 is RecentBlocks
                && lists_recent(r->Ok_0->RecentBlocks_0@, state@, count),
            RpcRequest::GetAllMiners => r is Ok && r->Ok_0 is Miners && r->Ok_0->chain_height
                == state@.chain_height() && lists_miners(r->Ok_0->miners@, state@, status.mining),
            RpcRequest::GetBalance { address } => match address_param(encode_utf8(address@)) {
                Some(a) => r is Ok && r->Ok_0 is Balance && shows_balance(
                    r->Ok_0->Balance_0,
                    state@,
                    a@,
                ),
                None => r is Err && r->Err_0.code == -32602 && r->Err_0.message@
                    == "invalid address"@,
            },
            RpcRequest::GetReferralInfo { address } => match address_param(encode_utf8(address@)) {
                Some(a) => r is Ok && r->Ok_0 is Referral && shows_referral(
                    r->Ok_0->Referral_0,
                    state@,
                    a@,
                ),
                None => r is Err && r->Err_0.code == -32602 && r->Err_0.message@
                    == "invalid address"@,
            },
            RpcRequest::GetGovernanceInfo { address } => match address_param(
                encode_utf8(address@),
            ) {
                Some(a) => r is Ok && r->Ok_0 is Governance && shows_governance(
                    r->Ok_0->Governance_0,
                    state@,
                    a,
                ),
                None => r is Err && r->Err_0.code == -32602 && r->Err_0.message@
                    == "invalid address"@,
            },
            RpcRequest::GetGovernanceTally { proposal } => match r {
                Ok(reply) => is_hex(encode_utf8(proposal@)) && reply is Tally && shows_tally(
                    reply->Tally_0,
                    state@,
                    hex_bytes(encode_utf8(proposal@)),
                ),
                Err(e) => e.code == -32602 && (if !is_hex(encode_utf8(proposal@)) {
                    e.message@ == "invalid proposal hash"@
                } else {
                    hex_bytes(encode_utf8(proposal@)).len() != 32 && e.message@
                        == "proposal hash must be 32 bytes"@
                }),
            },
            RpcRequest::GetAddressStats => r is Ok && r->Ok_0 is AddressStats && counts_accounts(
                r->Ok_0->AddressStats_0,
                state.account_list(),
            ),
            RpcRequest::GetMempoolInfo => r is Ok && r->Ok_0 == (RpcReply::MempoolInfo {
                size: old(mempool)@.len() as usize,
            }),
            RpcRequest::GetRawMempool => r is Ok && r->Ok_0 is RawMempool
                && r->Ok_0->RawMempool_0@.len() == old(mempool)@.len() && forall|i: int|
                0 <= i < old(mempool)@.len() ==> (#[trigger] r->Ok_0->RawMempool_0@[i])@
                    == txid_of(old(mempool)@[i]),
            RpcRequest::GetMempool { limit } => r is Ok && r->Ok_0 is Mempool && is_template(
                old(mempool)@,
                Seq::new(r->Ok_0->Mempool_0@.len(), |i: int| r->Ok_0->Mempool_0@[i]@),
                (if limit > 1000 {
                    1000
                } else {
                    limit as nat
                }),
            ),
            RpcRequest::EstimateFee { tx_size } => r is Ok && r->Ok_0 is Fee
                && r->Ok_0->Fee_0.recommended_fee_knots == recommended_fee(old(mempool)@.len())
                && r->Ok_0->Fee_0.fast_fee_knots == fast_fee(old(mempool)@.len())
                && r->Ok_0->Fee_0.tx_size_bytes == tx_size && r->Ok_0->Fee_0.mempool_size == old(
                mempool,
            )@.len(),
            RpcRequest::SendRawTransaction { hex } => match r {
                Ok(reply) => is_hex(encode_utf8(hex@)) && parse_tx(
                    hex_bytes(encode_utf8(hex@)),
                ) is Ok && admission(
                    old(mempool)@,
                    parse_tx(hex_bytes(encode_utf8(hex@)))->Ok_0.0,
                ) == Ok::<Seq<TxView>, &'static str>(final(mempool)@) && reply is Sent
                    && reply->txid@ == txid_of(parse_tx(hex_bytes(encode_utf8(hex@)))->Ok_0.0)
                    && reply->broadcast@ == MessageView::Tx(hex_bytes(encode_utf8(hex@))),
                Err(e) => final(mempool)@ == old(mempool)@ && (if !is_hex(encode_utf8(hex@)) {
                    e.code == -32602 && e.message@ == "invalid hex"@
                } else {
                    match parse_tx(hex_bytes(encode_utf8(hex@))) {
                        Err(why) => e.code == -32602 && e.message@
                            == "deserialization failed: "@ + why@,
                        Ok((t, n)) => admission(old(mempool)@, t) is Err && e.code == -32603
                            && e.message@ == "mempool rejected: "@ + admission(
                            old(mempool)@,
                            t,
                        )->Err_0@,
                    }
                }),
            },
            RpcRequest::GenerateToAddress { count, address, referrer, threads } => if count == 0
                || count > 500 {
                r is Err && r->Err_0.code == -32602 && r->Err_0.message@
                    == "count must be between 1 and 500"@
            } else {
                match address_param(encode_utf8(address@)) {
                    Some(a) => r is Ok && r->Ok_0 == (RpcReply::Generate {
                        count: count as u32,
                        miner: a,
                        referrer: mining_referrer_of(text_bytes(referrer), state@.referral_index),
                        threads: thread_count(threads, 4) as usize,
                    }),
                    None => r is Err && r->Err_0.code == -32602 && r->Err_0.message@
                        == "invalid miner address"@,
                }
            },
            RpcRequest::StartMining { mnemonic, threads, referrer } => r is Ok && (
            if status.mining is Some {
                r->Ok_0 == RpcReply::AlreadyMining
            } else {
                r->Ok_0 matches RpcReply::StartMining { miner, referrer: bound, threads: n }
                    && miner@ == mnemonic_address(encode_utf8(mnemonic@)) && bound
                    == mining_referrer_of(text_bytes(referrer), state@.referral_index) && n
                    == thread_count(threads, 2)
            }),
            RpcRequest::StopMining => r is Ok && r->Ok_0 == RpcReply::StopMining,
            RpcRequest::AddNode { address } => r is Ok && r->Ok_0 == RpcReply::Connect(address),
            RpcRequest::GetPeerInfo => r is Ok && r->Ok_0 == (RpcReply::PeerInfo {
                connected: status.connected_peers > 0,
                peer_count: status.connected_peers,
                known_peers: status.known_peers,
            }),
            RpcRequest::GetNetworkHashrate => r is Ok && r->Ok_0 is Hashrate && r->Ok_0->Hashrate_0
                == network_hashrate_of(state@),
            RpcRequest::GetBootstrapCheck => r is Ok && r->Ok_0 is Bootstrap
                && r->Ok_0->Bootstrap_0@ == bootstrap_warnings_of(
                status.bound_to_loopback,
                status.advertised@,
                status.connected_peers as nat,
                status.known_peers as nat,
            ),
            RpcRequest::Stop => r is Ok && r->Ok_0 == RpcReply::Stopping,
            RpcRequest::Unknown { method } => r is Err && r->Err_0.code == -32601
                && r->Err_0.message@ == "method not found: "@ + method@,
        },
{
    match request {
        RpcRequest::GetBlockCount => Ok(RpcReply::BlockCount(state.get_chain_height())),
        RpcRequest::GetBlockHash { height } => match state.get_block_hash_by_height(height) {
            Some(h) => Ok(RpcReply::BlockHash(h)),
            None => Err(invalid_params("block not found")),
        },
        RpcRequest::GetBlock { hash } => {
            let h = match hash_param(hash.as_str(), "invalid hash format", "invalid hash length") {
                Ok(h) => h,
                Err(e) => {
                    return Err(e);
                },
            };
            match block_by_hash(state, &h) {
                Some(info) => Ok(RpcReply::Block(info)),
                None => Err(invalid_params("block not found")),
            }
        },
        RpcRequest::GetBlockByHeight { height } => match block_by_height(state, height) {
            Some(info) => Ok(RpcReply::Block(info)),
            None => Err(invalid_params("block not found")),
        },
        RpcRequest::GetRecentBlocks { count } => Ok(
            RpcReply::RecentBlocks(recent_blocks(state, count)),
        ),
        RpcRequest::GetAllMiners => Ok(
            RpcReply::Miners {
                miners: all_miners(state, status.mining),
                chain_height: state.get_chain_height(),
            },
        ),
        RpcRequest::GetBalance { address } => match parse_address_param(address.as_str()) {
            Some(a) => Ok(RpcReply::Balance(balance_info(state, &a))),
            None => Err(invalid_params("invalid address")),
        },
        RpcRequest::GetReferralInfo { address } => match parse_address_param(address.as_str()) {
            Some(a) => Ok(RpcReply::Referral(referral_info(state, &a))),
            None => Err(invalid_params("invalid address")),
        },
        RpcRequest::GetGovernanceInfo { address } => match parse_address_param(address.as_str()) {
            Some(a) => Ok(RpcReply::Governance(governance_info(state, &a))),
            None => Err(invalid_params("invalid address")),
        },
        RpcRequest::GetGovernanceTally { proposal } => {
            match hash_param(
                proposal.as_str(),
                "invalid proposal hash",
                "proposal hash must be 32 bytes",
            ) {
                Ok(p) => Ok(RpcReply::Tally(governance_tally_info(state, &p))),
                Err(e) => Err(e),
            }
        },
        RpcRequest::GetAddressStats => Ok(RpcReply::AddressStats(address_stats(state))),
        RpcRequest::GetMempoolInfo => Ok(RpcReply::MempoolInfo { size: mempool.size() }),
        RpcRequest::GetRawMempool => Ok(RpcReply::RawMempool(mempool.get_all_txids())),
        RpcRequest::GetMempool { limit } => Ok(RpcReply::Mempool(mempool_entries(mempool, limit))),
        RpcRequest::EstimateFee { tx_size } => Ok(
            RpcReply::Fee(estimate_fee(mempool.size(), tx_size)),
        ),
        RpcRequest::SendRawTransaction { hex } => {
            let raw = match hex_decode(hex.as_str().as_bytes()) {
                Some(raw) => raw,
                None => {
                    return Err(invalid_params("invalid hex"));
                },
            };
            match send_raw_transaction(mempool, raw) {
                Ok((txid, broadcast)) => Ok(RpcReply::Sent { txid, broadcast }),
                Err(e) => Err(e),
            }
        },
        RpcRequest::GenerateToAddress { count, address, referrer, threads } => {
            let n = match check_generate_count(count) {
                Ok(n) => n,
                Err(e) => {
                    return Err(e);
                },
            };
            match parse_address_param(address.as_str()) {
                Some(miner) => Ok(
                    RpcReply::Generate {
                        count: n,
                        miner,
                        referrer: mining_referrer(state, &referrer),
                        threads: mining_threads(threads, 4),
                    },
                ),
                None => Err(invalid_params("invalid miner address")),
            }
        },
        RpcRequest::StartMining { mnemonic, threads, referrer } => {
            if status.mining.is_some() {
                return Ok(RpcReply::AlreadyMining);
            }
            let (pk, _sk) = derive_keypair_from_mnemonic(mnemonic.as_str());
            Ok(
                RpcReply::StartMining {
                    miner: derive_address(&pk),
                    referrer: mining_referrer(state, &referrer),
                    threads: mining_threads(threads, 2),
                },
            )
        },
        RpcRequest::StopMining => Ok(RpcReply::StopMining),
        RpcRequest::AddNode { address } => Ok(RpcReply::Connect(address)),
        RpcRequest::GetPeerInfo => Ok(
            RpcReply::PeerInfo {
                connected: status.connected_peers > 0,
                peer_count: status.connected_peers,
                known_peers: status.known_peers,
            },
        ),
        RpcRequest::GetNetworkHashrate => Ok(RpcReply::Hashrate(network_hashrate(state))),
        RpcRequest::GetBootstrapCheck => Ok(
            RpcReply::Bootstrap(
                bootstrap_warnings(
                    status.bound_to_loopback,
                    &status.advertised,
                    status.connected_peers,
                    status.known_peers,
                ),
            ),
        ),
        RpcRequest::Stop => Ok(RpcReply::Stopping),
        RpcRequest::Unknown { method } => Err(
            RpcError {
                code: METHOD_NOT_FOUND,
                message: error_text("method not found: ", method.as_str()),
            },
        ),
    }
}

} // verus!
