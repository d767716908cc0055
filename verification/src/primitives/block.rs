use vstd::prelude::*;
use crate::bytes::put_bytes;
use crate::crypto::hash::{hash_sha3_256, sha3_256};
use crate::node::db_common::{tx_bytes, TxView};
use crate::primitives::transaction::Transaction;

verus! {

pub const BLOCK_HEADER_BYTES: usize = 148;

pub const BASE_BLOCK_SIZE_KB: usize = 50;

pub const MAX_BLOCK_SIZE_KB: usize = 500;

pub const TARGET_BLOCK_TIME_SEC: u64 = 60;

/// The 148-byte block header.
#[derive(Debug, Clone, Copy)]
pub struct BlockHeader {
    pub version: [u8; 4],
    pub previous_hash: [u8; 32],
    pub merkle_root: [u8; 32],
    pub timestamp: [u8; 4],
    pub difficulty_target: [u8; 32],
    pub nonce: [u8; 8],
    pub block_height: [u8; 4],
    pub miner_address: [u8; 32],
}

impl BlockHeader {
    /// The header's 148 bytes.
    pub open spec fn bytes(self) -> Seq<u8> {
        self.version@ + self.previous_hash@ + self.merkle_root@ + self.timestamp@
            + self.difficulty_target@ + self.nonce@ + self.block_height@ + self.miner_address@
    }

    /// The block hash: SHA3-256 of the header.
    pub fn hash(&self) -> (h: [u8; 32])
        ensures
            h@ == sha3_256(self.bytes()),
    {
        let mut buffer: Vec<u8> = Vec::with_capacity(BLOCK_HEADER_BYTES);
        put_bytes(&mut buffer, self.version.as_slice());
        put_bytes(&mut buffer, self.previous_hash.as_slice());
        put_bytes(&mut buffer, self.merkle_root.as_slice());
        put_bytes(&mut buffer, self.timestamp.as_slice());
        put_bytes(&mut buffer, self.difficulty_target.as_slice());
        put_bytes(&mut buffer, self.nonce.as_slice());
        put_bytes(&mut buffer, self.block_height.as_slice());
        put_bytes(&mut buffer, self.miner_address.as_slice());
        assert(buffer@ =~= self.bytes());
        hash_sha3_256(buffer.as_slice())
    }
}

/// A header with its transactions in block order.
#[derive(Debug, Clone)]
pub struct Block {
    pub header: BlockHeader,
    pub transactions: Vec<Transaction>,
}

/// The node above two children.
pub open spec fn merkle_parent(left: Seq<u8>, right: Seq<u8>) -> Seq<u8> {
    sha3_256(left + right)
}

/// The level above `level`: neighbours are paired, and a last node without a
/// neighbour is paired with itself.
pub open spec fn merkle_level(level: Seq<Seq<u8>>) -> Seq<Seq<u8>> {
    Seq::new(
        ((level.len() + 1) / 2) as nat,
        |i: int|
            merkle_parent(
                level[2 * i],
                if 2 * i + 1 < level.len() {
                    level[2 * i + 1]
                } else {
                    level[2 * i]
                },
            ),
    )
}

/// The root of the tree over `leaves`; 32 zero bytes where there are none.
pub open spec fn merkle_root_of(leaves: Seq<Seq<u8>>) -> Seq<u8>
    decreases leaves.len(),
{
    if leaves.len() == 0 {
        Seq::new(32, |i: int| 0u8)
    } else if leaves.len() == 1 {
        leaves[0]
    } else {
        merkle_root_of(merkle_level(leaves))
    }
}

/// The leaves of a block's tree: the SHA3-256 of each transaction's serialised form.
pub open spec fn merkle_leaves(txs: Seq<TxView>) -> Seq<Seq<u8>> {
    Seq::new(txs.len(), |i: int| sha3_256(tx_bytes(txs[i])))
}

/// The values of a run of hashes.
pub open spec fn hash_views(hashes: Seq<[u8; 32]>) -> Seq<Seq<u8>> {
    Seq::new(hashes.len(), |i: int| hashes[i]@)
}

/// Reduces a level of hashes to the root above it.
pub fn merkle_reduce(leaves: Vec<[u8; 32]>) -> (root: [u8; 32])
    ensures
        root@ == merkle_root_of(hash_views(leaves@)),
{
    if leaves.len() == 0 {
        let zero = [0u8; 32];
        assert(zero@ =~= Seq::new(32, |i: int| 0u8));
        return zero;
    }
    let mut current = leaves;
    while current.len() > 1
        invariant
            current@.len() >= 1,
            merkle_root_of(hash_views(current@)) == merkle_root_of(hash_views(leaves@)),
        decreases current@.len(),
    {
        let mut next: Vec<[u8; 32]> = Vec::new();
        let n = current.len();
        let pairs = n / 2 + n % 2;
        let mut k: usize = 0;
        while k < pairs
            invariant
                n == current@.len(),
                n > 1,
                pairs == (n + 1) / 2,
                k <= pairs,
                next@.len() == k,
                forall|j: int|
                    0 <= j < next@.len() ==> next@[j]@ == merkle_level(hash_views(current@))[j],
            decreases pairs - k,
        {
            let i = 2 * k;
            let mut input: Vec<u8> = Vec::with_capacity(64);
            put_bytes(&mut input, current[i].as_slice());
            if i + 1 < n {
                put_bytes(&mut input, current[i + 1].as_slice());
            } else {
                put_bytes(&mut input, current[i].as_slice());
            }
            let h = hash_sha3_256(input.as_slice());
            next.push(h);
            k += 1;
        }
        assert(hash_views(next@) =~= merkle_level(hash_views(current@)));
        current = next;
    }
    current[0]
}

impl Block {
    /// The Merkle root over the transactions' serialised forms.
    pub fn compute_merkle_root(transactions: &[Transaction]) -> (root: [u8; 32])
        ensures
            root@ == merkle_root_of(
                merkle_leaves(Seq::new(transactions@.len(), |i: int| transactions@[i]@)),
            ),
    {
        let mut leaves: Vec<[u8; 32]> = Vec::new();
        let mut i: usize = 0;
        while i < transactions.len()
            invariant
                i <= transactions@.len(),
                leaves@.len() == i,
                forall|k: int|
                    0 <= k < i ==> leaves@[k]@ == sha3_256(tx_bytes(transactions@[k]@)),
            decreases transactions@.len() - i,
        {
            let bytes = transactions[i].to_stored().to_bytes();
            leaves.push(hash_sha3_256(bytes.as_slice()));
            i += 1;
        }
        assert(hash_views(leaves@) =~= merkle_leaves(
            Seq::new(transactions@.len(), |i: int| transactions@[i]@),
        ));
        merkle_reduce(leaves)
    }
}

} // verus!
