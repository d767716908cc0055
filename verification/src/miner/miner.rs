use vstd::prelude::*;
use crate::bytes::{be_le, be_value, u32_field, u64_field};
use crate::consensus::chain::{calculate_new_difficulty, retarget};
use crate::consensus::state::{
    ancestor_times, block_hash, block_hash_of, collect_ancestor_times, median_time, sort_times,
};
use crate::crypto::hash::{hash_sha3_256, sha3_256};
use crate::node::db_common::{tx_views, BlockView, StoredBlock, StoredTransaction, TxView};
use crate::node::store::{ChainState, ChainView, GovernanceParams};
use crate::primitives::block::{hash_views, merkle_leaves, merkle_reduce, merkle_root_of};

verus! {

/// Most transactions in a block template.
pub const MAX_TXS: usize = 6;

/// Number of blocks between two retargets.
pub const RETARGET_INTERVAL: u64 = 60;

/// The Merkle root over the serialised forms of the transactions.
pub fn merkle_root(txs: &[StoredTransaction]) -> (root: [u8; 32])
    ensures
        root@ == merkle_root_of(merkle_leaves(tx_views(txs@))),
{
    let mut leaves: Vec<[u8; 32]> = Vec::new();
    let mut i: usize = 0;
    while i < txs.len()
        invariant
            i <= txs@.len(),
            leaves@.len() == i,
            forall|k: int|
                0 <= k < i ==> (#[trigger] leaves@[k])@ == sha3_256(
                    crate::node::db_common::tx_bytes(txs@[k]@),
                ),
        decreases txs@.len() - i,
    {
        let bytes = txs[i].to_bytes();
        leaves.push(hash_sha3_256(bytes.as_slice()));
        i += 1;
    }
    assert(hash_views(leaves@) =~= merkle_leaves(tx_views(txs@)));
    merkle_reduce(leaves)
}

/// The timestamp of the block at `height`, where index and block are stored.
pub open spec fn time_at_height(view: ChainView, height: u32) -> Option<u32> {
    match view.hash_at_height(height) {
        Some(h) => if view.blocks.contains_key(h@) {
            Some(view.blocks[h@].time())
        } else {
            None
        },
        None => None,
    }
}

/// The timestamp of the tip's block.
pub open spec fn tip_time(view: ChainView) -> Option<u32> {
    match view.tip {
        Some(h) => if view.blocks.contains_key(h@) {
            Some(view.blocks[h@].time())
        } else {
            None
        },
        None => None,
    }
}

/// The seconds that the last window took: from the block 60 below
/// `height` to the tip, and at least one.
pub open spec fn window_secs(start: u32, end: u32) -> nat {
    if end > start {
        (end - start) as nat
    } else {
        1
    }
}

/// The target of the block at `height`: every 60 blocks the current target
/// is retargeted by the time that the last 60 blocks took; at every other
/// height, and where the window's blocks are not stored, it stays.
pub open spec fn next_target(view: ChainView, height: u32, current: Seq<u8>, next: Seq<u8>) -> bool {
    if height == 0 || height % 60 != 0 {
        next == current
    } else {
        match (time_at_height(view, (height - 60) as u32), tip_time(view)) {
            (Some(start), Some(end)) => be_value(next) == retarget(
                be_value(current),
                window_secs(start, end),
            ),
            _ => next == current,
        }
    }
}

/// The difficulty target for the block at `current_height`.
pub fn next_difficulty(state: &ChainState, current_height: u32, current_target: [u8; 32]) -> (next:
    [u8; 32])
    requires
        state.wf(),
    ensures
        next_target(state@, current_height, current_target@, next@),
{
    if current_height == 0 || current_height as u64 % RETARGET_INTERVAL != 0 {
        return current_target;
    }
    let window_start = current_height - 60;
    let start_hash = match state.get_block_hash_by_height(window_start) {
        Some(h) => h,
        None => {
            return current_target;
        },
    };
    let start_ts = match state.get_block(&start_hash) {
        Some(b) => b.time(),
        None => {
            return current_target;
        },
    };
    let tip_hash = match state.get_tip() {
        Some(h) => h,
        None => {
            return current_target;
        },
    };
    let end_ts = match state.get_block(&tip_hash) {
        Some(b) => b.time(),
        None => {
            return current_target;
        },
    };
    let elapsed: u64 = if end_ts > start_ts {
        (end_ts - start_ts) as u64
    } else {
        1
    };
    calculate_new_difficulty(&current_target, elapsed)
}

/// The number of mining threads: the governance parameter, held to 1..8.
pub fn mining_thread_count(params: &GovernanceParams) -> (n: usize)
    ensures
        1 <= n <= 8,
        n == (if params.mining_threads < 1 {
            1
        } else if params.mining_threads > 8 {
            8
        } else {
            params.mining_threads as int
        }),
{
    if params.mining_threads < 1 {
        1
    } else if params.mining_threads > 8 {
        8
    } else {
        params.mining_threads as usize
    }
}

/// The timestamp of a new block: the clock, moved one second past the
/// median-time-past of the last 11 blocks where it is not later already.
pub open spec fn template_time(times: Seq<u32>, now: u32) -> u32 {
    if times.len() > 0 && now <= median_time(times) {
        if median_time(times) == u32::MAX {
            u32::MAX
        } else {
            (median_time(times) + 1) as u32
        }
    } else {
        now
    }
}

/// Whether `t` is the template on top of the store's tip: one height above
/// the tip, pointing at it, with the target of that height, the Merkle
/// root of the transactions, a timestamp past the median-time-past, and a
/// zero nonce.
pub open spec fn is_template(
    view: ChainView,
    txs: Seq<TxView>,
    miner: Seq<u8>,
    now: u32,
    t: BlockView,
) -> bool {
    let tip = view.blocks[view.tip.unwrap()@];
    &&& view.tip.is_some()
    &&& view.blocks.contains_key(view.tip.unwrap()@)
    &&& tip.height() < u32::MAX
    &&& t.version == seq![1u8, 0u8, 0u8, 0u8]
    &&& t.previous_hash == view.tip.unwrap()@
    &&& t.merkle_root == merkle_root_of(merkle_leaves(txs))
    &&& t.time() == template_time(ancestor_times(view, (tip.height() + 1) as u32, 11), now)
    &&& next_target(view, (tip.height() + 1) as u32, tip.difficulty_target, t.difficulty_target)
    &&& t.nonce == Seq::new(8, |i: int| 0u8)
    &&& t.height() == tip.height() + 1
    &&& t.miner_address == miner
    &&& t.tx_data == txs
}

/// Assembles the block template on top of the tip; `None` where no block
/// has been applied yet, the tip's block is missing, or no height is left.
pub fn build_template(
    state: &ChainState,
    txs: Vec<StoredTransaction>,
    miner_addr: &[u8; 32],
    now: u32,
) -> (r: Option<StoredBlock>)
    requires
        state.wf(),
    ensures
        match r {
            Some(t) => is_template(state@, tx_views(txs@), miner_addr@, now, t@),
            None => state@.tip.is_none() || !state@.blocks.contains_key(state@.tip.unwrap()@)
                || state@.blocks[state@.tip.unwrap()@].height() == u32::MAX,
        },
{
    let prev_hash = match state.get_tip() {
        Some(h) => h,
        None => {
            return None;
        },
    };
    let (tip_height, base_target) = match state.get_block(&prev_hash) {
        Some(tip) => (tip.height(), tip.difficulty_target),
        None => {
            return None;
        },
    };
    if tip_height == u32::MAX {
        return None;
    }
    let height = tip_height + 1;
    let difficulty_target = next_difficulty(state, height, base_target);
    let times = collect_ancestor_times(state, height);
    let mut timestamp = now;
    if times.len() > 0 {
        let sorted = sort_times(&times);
        let mtp = sorted[times.len() / 2];
        if now <= mtp {
            timestamp = mtp.saturating_add(1);
        }
    }
    let root = merkle_root(txs.as_slice());
    let version: [u8; 4] = [1, 0, 0, 0];
    let nonce = [0u8; 8];
    proof {
        assert(version@ =~= seq![1u8, 0u8, 0u8, 0u8]);
        assert(nonce@ =~= Seq::new(8, |i: int| 0u8));
    }
    Some(
        StoredBlock {
            version,
            previous_hash: prev_hash,
            merkle_root: root,
            timestamp: u32_field(timestamp),
            difficulty_target,
            nonce,
            block_height: u32_field(height),
            miner_address: *miner_addr,
            tx_data: txs,
        },
    )
}

/// Tries one nonce on a template: where the proof-of-work hash that the
/// engine computed for it meets the target, the block with that nonce and
/// its hash.
pub fn seal_block(template: &StoredBlock, nonce: u64, pow_hash: &[u8; 32]) -> (r: Option<
    (StoredBlock, [u8; 32]),
>)
    ensures
        match r {
            Some((block, hash)) => be_value(pow_hash@) <= be_value(template@.difficulty_target)
                && block@ == (BlockView {
                nonce: vstd::bytes::spec_u64_to_le_bytes(nonce),
                ..template@
            }) && hash@ == block_hash_of(block@),
            None => be_value(pow_hash@) > be_value(template@.difficulty_target),
        },
{
    if !be_le(pow_hash, &template.difficulty_target) {
        return None;
    }
    let mut block = template.duplicate();
    block.nonce = u64_field(nonce);
    let hash = block_hash(&block);
    Some((block, hash))
}

} // verus!
