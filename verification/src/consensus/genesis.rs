use vstd::prelude::*;
use crate::bytes::u32_field;
use crate::node::db_common::{StoredBlock, StoredTransaction, TxView};

verus! {

/// Timestamp of the mainnet genesis block.
pub const MAINNET_GENESIS_TIMESTAMP: u32 = 1771545600;

/// Why a genesis block is refused.
#[derive(Debug, Clone, Copy, PartialEq, Eq, Structural)]
pub enum GenesisError {
    /// The all-zero address burns the reward.
    BurnAddress,
    /// The all-`0xFF` address is the placeholder, not a real address.
    PlaceholderAddress,
}

/// The easiest target but one: `0x7F` followed by 31 bytes `0xFF`.
pub fn mainnet_genesis_target() -> (target: [u8; 32])
    ensures
        target@[0] == 0x7F,
        forall|i: int| 1 <= i < 32 ==> target@[i] == 0xFF,
{
    let mut target = [0xFFu8; 32];
    target[0] = 0x7F;
    target
}

/// The placeholder that stands where the genesis miner's address belongs.
pub fn genesis_miner_address() -> (addr: [u8; 32])
    ensures
        forall|i: int| 0 <= i < 32 ==> addr@[i] == 0xFF,
{
    [0xFFu8; 32]
}

/// Whether every byte of `addr` is `b`.
pub fn all_bytes(addr: &[u8; 32], b: u8) -> (r: bool)
    ensures
        r == (forall|i: int| 0 <= i < 32 ==> addr@[i] == b),
{
    let mut i: usize = 0;
    while i < 32
        invariant
            i <= 32,
            forall|k: int| 0 <= k < i ==> addr@[k] == b,
        decreases 32 - i,
    {
        if addr[i] != b {
            return false;
        }
        i += 1;
    }
    true
}

/// Refuses the two addresses that are no miner's: all zero and all `0xFF`.
pub fn check_genesis_miner(addr: &[u8; 32]) -> (r: Result<(), GenesisError>)
    ensures
        r == (if forall|i: int| 0 <= i < 32 ==> addr@[i] == 0 {
            Err::<(), GenesisError>(GenesisError::BurnAddress)
        } else if forall|i: int| 0 <= i < 32 ==> addr@[i] == 0xFF {
            Err::<(), GenesisError>(GenesisError::PlaceholderAddress)
        } else {
            Ok::<(), GenesisError>(())
        }),
{
    if all_bytes(addr, 0) {
        Err(GenesisError::BurnAddress)
    } else if all_bytes(addr, 0xFF) {
        Err(GenesisError::PlaceholderAddress)
    } else {
        Ok(())
    }
}

/// Whether `b` is the genesis block for a miner: height 0, no previous
/// hash, no Merkle root, the fixed timestamp and target, no transactions.
pub open spec fn is_genesis(b: crate::node::db_common::BlockView, miner: Seq<u8>) -> bool {
    &&& b.version == seq![1u8, 0u8, 0u8, 0u8]
    &&& b.previous_hash == Seq::new(32, |i: int| 0u8)
    &&& b.merkle_root == Seq::new(32, |i: int| 0u8)
    &&& b.time() == MAINNET_GENESIS_TIMESTAMP
    &&& b.difficulty_target == Seq::new(32, |i: int| if i == 0 { 0x7Fu8 } else { 0xFFu8 })
    &&& b.nonce == Seq::new(8, |i: int| 0u8)
    &&& b.height() == 0
    &&& b.miner_address == miner
    &&& b.tx_data == Seq::<TxView>::empty()
}

/// The genesis block for `miner`.
fn genesis_block(miner: [u8; 32]) -> (b: StoredBlock)
    ensures
        is_genesis(b@, miner@),
{
    let version: [u8; 4] = [1, 0, 0, 0];
    let zero = [0u8; 32];
    let nonce = [0u8; 8];
    let target = mainnet_genesis_target();
    let tx_data: Vec<StoredTransaction> = Vec::new();
    proof {
        assert(version@ =~= seq![1u8, 0u8, 0u8, 0u8]);
        assert(zero@ =~= Seq::new(32, |i: int| 0u8));
        assert(nonce@ =~= Seq::new(8, |i: int| 0u8));
        assert(target@ =~= Seq::new(32, |i: int| if i == 0 { 0x7Fu8 } else { 0xFFu8 }));
        assert(crate::node::db_common::tx_views(tx_data@) =~= Seq::<TxView>::empty());
    }
    StoredBlock {
        version,
        previous_hash: zero,
        merkle_root: zero,
        timestamp: u32_field(MAINNET_GENESIS_TIMESTAMP),
        difficulty_target: target,
        nonce,
        block_height: u32_field(0),
        miner_address: miner,
        tx_data,
    }
}

/// The bytes of the built-in genesis miner address.
pub open spec fn built_in_miner() -> Seq<u8> {
    Seq::new(32, |i: int| 0xFFu8)
}

/// Whether `miner` is a real address: neither the burn address nor the
/// placeholder.
pub open spec fn is_real_miner(miner: Seq<u8>) -> bool {
    &&& !(forall|i: int| 0 <= i < 32 ==> miner[i] == 0)
    &&& !(forall|i: int| 0 <= i < 32 ==> miner[i] == 0xFF)
}

/// The genesis block for the built-in miner address. That address is the
/// placeholder until a real one takes its place, and a genesis block is
/// never handed out with the placeholder in it: the call is refused.
pub fn create_genesis_block() -> (r: Result<StoredBlock, GenesisError>)
    ensures
        r is Ok <==> is_real_miner(built_in_miner()),
        r is Ok ==> is_genesis(r->Ok_0@, built_in_miner()),
        r is Err ==> r->Err_0 == GenesisError::PlaceholderAddress,
{
    let miner = genesis_miner_address();
    assert(miner@ =~= built_in_miner());
    assert(miner@[0] == 0xFF);
    create_genesis_block_for(&miner)
}

/// The genesis block for a real miner; the burn address and the
/// placeholder are refused.
pub fn create_genesis_block_for(miner: &[u8; 32]) -> (r: Result<StoredBlock, GenesisError>)
    ensures
        match r {
            Ok(b) => is_genesis(b@, miner@) && is_real_miner(miner@),
            Err(GenesisError::BurnAddress) => forall|i: int| 0 <= i < 32 ==> miner@[i] == 0,
            Err(GenesisError::PlaceholderAddress) => forall|i: int|
                0 <= i < 32 ==> miner@[i] == 0xFF,
        },
{
    match check_genesis_miner(miner) {
        Err(e) => Err(e),
        Ok(_) => Ok(genesis_block(*miner)),
    }
}

} // verus!
