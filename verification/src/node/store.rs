use vstd::prelude::*;
use vstd::bytes::spec_u32_to_le_bytes;
use crate::bytemap::ByteMap;
use crate::bytes::{put_bytes, read_array, u32_field};
use crate::consensus::chain::{
    GOVERNANCE_CAP_DEFAULT_BPS, GOVERNANCE_CAP_MAX_BPS, GOVERNANCE_CAP_MIN_BPS,
    MINING_THREADS_DEFAULT, MINING_THREADS_MAX, MINING_THREADS_MIN, PONC_ROUNDS_DEFAULT,
    PONC_ROUNDS_MAX, PONC_ROUNDS_MIN,
};
use crate::crypto::hash::{hash_sha3_256, sha3_256};
use crate::node::db_common::{array32, lemma_array32, AccountState, BlockView, StoredBlock};

verus! {

/// Parameters that governance can change.
#[derive(Debug, Clone, Copy)]
pub struct GovernanceParams {
    pub cap_bps: u64,
    pub ponc_rounds: u64,
    pub mining_threads: u64,
}

/// `v` held to the range from `lo` to `hi`.
pub open spec fn held_to(v: u64, lo: u64, hi: u64) -> u64 {
    if v < lo {
        lo
    } else if v > hi {
        hi
    } else {
        v
    }
}

fn hold_to(v: u64, lo: u64, hi: u64) -> (r: u64)
    ensures
        r == held_to(v, lo, hi),
{
    if v < lo {
        lo
    } else if v > hi {
        hi
    } else {
        v
    }
}

impl GovernanceParams {
    /// The parameters a chain starts with.
    pub open spec fn spec_default() -> GovernanceParams {
        GovernanceParams { cap_bps: 1000, ponc_rounds: 512, mining_threads: 4 }
    }

    /// Whether every parameter is within its bounds: the cap from 500 to
    /// 2000 basis points, the rounds from 256 to 2048, the threads from 1 to 8.
    pub open spec fn in_bounds(self) -> bool {
        &&& 500 <= self.cap_bps <= 2000
        &&& 256 <= self.ponc_rounds <= 2048
        &&& 1 <= self.mining_threads <= 8
    }

    /// Whether every parameter is within its bounds.
    pub fn within_bounds(&self) -> (r: bool)
        ensures
            r == self.in_bounds(),
    {
        GOVERNANCE_CAP_MIN_BPS <= self.cap_bps && self.cap_bps <= GOVERNANCE_CAP_MAX_BPS
            && PONC_ROUNDS_MIN <= self.ponc_rounds && self.ponc_rounds <= PONC_ROUNDS_MAX
            && MINING_THREADS_MIN <= self.mining_threads && self.mining_threads
            <= MINING_THREADS_MAX
    }

    /// The parameters with each one held to its bounds.
    pub fn clamped(&self) -> (p: Self)
        ensures
            p.in_bounds(),
            p.cap_bps == held_to(self.cap_bps, 500, 2000),
            p.ponc_rounds == held_to(self.ponc_rounds, 256, 2048),
            p.mining_threads == held_to(self.mining_threads, 1, 8),
            self.in_bounds() ==> p == *self,
    {
        GovernanceParams {
            cap_bps: hold_to(self.cap_bps, GOVERNANCE_CAP_MIN_BPS, GOVERNANCE_CAP_MAX_BPS),
            ponc_rounds: hold_to(self.ponc_rounds, PONC_ROUNDS_MIN, PONC_ROUNDS_MAX),
            mining_threads: hold_to(self.mining_threads, MINING_THREADS_MIN, MINING_THREADS_MAX),
        }
    }
}

impl Default for GovernanceParams {
    fn default() -> (p: Self)
        ensures
            p == GovernanceParams::spec_default(),
    {
        GovernanceParams {
            cap_bps: GOVERNANCE_CAP_DEFAULT_BPS,
            ponc_rounds: PONC_ROUNDS_DEFAULT,
            mining_threads: MINING_THREADS_DEFAULT,
        }
    }
}

/// The contents of a chain store.
pub ghost struct ChainView {
    /// Block hash → block.
    pub blocks: Map<Seq<u8>, BlockView>,
    /// Height (four bytes, little-endian) → block hash.
    pub heights: Map<Seq<u8>, [u8; 32]>,
    /// Address → account; an address without an entry stands for the empty account.
    pub accounts: Map<Seq<u8>, AccountState>,
    /// Referral code (eight bytes) → address.
    pub referral_index: Map<Seq<u8>, [u8; 32]>,
    /// Proposal → tally.
    pub tallies: Map<Seq<u8>, u64>,
    /// The votes cast: proposal ‖ voter.
    pub votes: Set<Seq<u8>>,
    /// Hash of the newest block.
    pub tip: Option<[u8; 32]>,
    pub params: GovernanceParams,
}

/// The account stored under `addr`; the empty account where there is none.
pub open spec fn account_at(accounts: Map<Seq<u8>, AccountState>, addr: Seq<u8>) -> AccountState {
    if accounts.contains_key(addr) {
        accounts[addr]
    } else {
        AccountState::spec_empty()
    }
}

/// The tally stored for `proposal`; zero where there is none.
pub open spec fn tally_at(tallies: Map<Seq<u8>, u64>, proposal: Seq<u8>) -> u64 {
    if tallies.contains_key(proposal) {
        tallies[proposal]
    } else {
        0
    }
}

/// The referral code of an address: the first eight bytes of its SHA3-256.
pub open spec fn referral_code(addr: Seq<u8>) -> Seq<u8> {
    sha3_256(addr).subrange(0, 8)
}

/// The key under which a vote is recorded.
pub open spec fn vote_key(proposal: Seq<u8>, voter: Seq<u8>) -> Seq<u8> {
    proposal + voter
}

impl ChainView {
    /// A store that holds nothing.
    pub open spec fn empty() -> ChainView {
        ChainView {
            blocks: Map::empty(),
            heights: Map::empty(),
            accounts: Map::empty(),
            referral_index: Map::empty(),
            tallies: Map::empty(),
            votes: Set::empty(),
            tip: None,
            params: GovernanceParams::spec_default(),
        }
    }

    /// The hash indexed at a height.
    pub open spec fn hash_at_height(self, height: u32) -> Option<[u8; 32]> {
        if self.heights.contains_key(spec_u32_to_le_bytes(height)) {
            Some(self.heights[spec_u32_to_le_bytes(height)])
        } else {
            None
        }
    }

    /// The height of the tip's block; zero where there is no tip or its block is missing.
    pub open spec fn chain_height(self) -> u32 {
        match self.tip {
            Some(h) => if self.blocks.contains_key(h@) {
                self.blocks[h@].height()
            } else {
                0
            },
            None => 0,
        }
    }

    /// The index after `addr` has been entered: the first address under a code stays.
    pub open spec fn index_address(self, addr: [u8; 32]) -> ChainView {
        if self.referral_index.contains_key(referral_code(addr@)) {
            self
        } else {
            ChainView {
                referral_index: self.referral_index.insert(referral_code(addr@), addr),
                ..self
            }
        }
    }

    /// The store after an account has been written.
    pub open spec fn with_account(self, addr: [u8; 32], account: AccountState) -> ChainView {
        ChainView { accounts: self.accounts.insert(addr@, account), ..self }.index_address(addr)
    }

    /// The store after a block has been stored under its hash and indexed by its height.
    pub open spec fn with_block(self, hash: [u8; 32], block: BlockView) -> ChainView {
        ChainView {
            blocks: self.blocks.insert(hash@, block),
            heights: self.heights.insert(block.block_height, hash),
            ..self
        }
    }

    /// The index after the addresses have been entered one after another.
    pub open spec fn index_addresses(self, addrs: Seq<Seq<u8>>) -> ChainView
        decreases addrs.len(),
    {
        if addrs.len() == 0 {
            self
        } else {
            self.index_addresses(addrs.drop_last()).index_address(array32(addrs.last()))
        }
    }

    /// The store after the writes of one block have been committed: the block
    /// under its hash, the hash under the block's height, the written
    /// accounts (whose addresses enter the referral index in the order
    /// given), tallies and votes, and the hash as the new tip.
    pub open spec fn committed(
        self,
        hash: [u8; 32],
        block: BlockView,
        accounts: Map<Seq<u8>, AccountState>,
        order: Seq<Seq<u8>>,
        tallies: Map<Seq<u8>, u64>,
        votes: Set<Seq<u8>>,
    ) -> ChainView {
        ChainView {
            blocks: self.blocks.insert(hash@, block),
            heights: self.heights.insert(block.block_height, hash),
            accounts: self.accounts.union_prefer_right(accounts),
            referral_index: self.index_addresses(order).referral_index,
            tallies: self.tallies.union_prefer_right(tallies),
            votes: self.votes + votes,
            tip: Some(hash),
            params: self.params,
        }
    }

    /// The store after the accounts have been written one after another.
    pub open spec fn accounts_written(self, updates: Seq<([u8; 32], AccountState)>) -> ChainView
        decreases updates.len(),
    {
        if updates.len() == 0 {
            self
        } else {
            self.accounts_written(updates.drop_last()).with_account(
                updates.last().0,
                updates.last().1,
            )
        }
    }

    /// The store after the blocks have been stored one after another.
    pub open spec fn blocks_stored(self, blocks: Seq<([u8; 32], BlockView)>) -> ChainView
        decreases blocks.len(),
    {
        if blocks.len() == 0 {
            self
        } else {
            self.blocks_stored(blocks.drop_last()).with_block(blocks.last().0, blocks.last().1)
        }
    }

    /// The store after a vote of the given weight; a second vote of the same
    /// voter on the same proposal changes nothing.
    pub open spec fn with_vote(self, proposal: Seq<u8>, voter: Seq<u8>, weight: u64) -> ChainView {
        if self.votes.contains(vote_key(proposal, voter)) {
            self
        } else {
            ChainView {
                tallies: self.tallies.insert(
                    proposal,
                    saturating_sum(tally_at(self.tallies, proposal), weight),
                ),
                votes: self.votes.insert(vote_key(proposal, voter)),
                ..self
            }
        }
    }
}

/// `a + b`, held to `u64::MAX`.
pub open spec fn saturating_sum(a: u64, b: u64) -> u64 {
    if a + b > u64::MAX {
        u64::MAX
    } else {
        (a + b) as u64
    }
}

/// An in-memory chain store: blocks, the height index, accounts, the
/// referral-code index, governance tallies and votes, the tip and the
/// governance parameters.
pub struct ChainState {
    blocks: ByteMap<StoredBlock, 32>,
    heights: ByteMap<[u8; 32], 4>,
    accounts: ByteMap<AccountState, 32>,
    referral_index: ByteMap<[u8; 32], 8>,
    tallies: ByteMap<u64, 32>,
    votes: ByteMap<u8, 64>,
    tip: Option<[u8; 32]>,
    params: GovernanceParams,
}

/// The writes of one block, assembled to be committed as a whole.
pub struct BlockCommit {
    /// The block's hash, which becomes the tip.
    pub hash: [u8; 32],
    pub block: StoredBlock,
    /// The accounts written, in the order of first writing.
    pub accounts: ByteMap<AccountState, 32>,
    /// The tallies written.
    pub tallies: ByteMap<u64, 32>,
    /// The votes recorded, by their 64-byte keys.
    pub votes: ByteMap<u8, 64>,
}

impl BlockCommit {
    /// Well-formedness of the tables.
    pub open spec fn wf(&self) -> bool {
        &&& self.accounts.wf()
        &&& self.tallies.wf()
        &&& self.votes.wf()
    }
}

/// The 64-byte key of a vote.
pub fn make_vote_key(proposal: &[u8; 32], voter: &[u8; 32]) -> (key: [u8; 64])
    ensures
        key@ == vote_key(proposal@, voter@),
{
    let mut buf: Vec<u8> = Vec::with_capacity(64);
    put_bytes(&mut buf, proposal.as_slice());
    put_bytes(&mut buf, voter.as_slice());
    let key: [u8; 64] = read_array(buf.as_slice(), 0);
    assert(key@ =~= proposal@ + voter@);
    key
}

/// The referral code of an address.
pub fn make_referral_code(addr: &[u8; 32]) -> (code: [u8; 8])
    ensures
        code@ == referral_code(addr@),
{
    let h = hash_sha3_256(addr.as_slice());
    read_array(h.as_slice(), 0)
}

impl ChainState {
    /// Well-formedness of the tables.
    pub closed spec fn wf(&self) -> bool {
        &&& self.blocks.wf()
        &&& self.heights.wf()
        &&& self.accounts.wf()
        &&& self.referral_index.wf()
        &&& self.tallies.wf()
        &&& self.votes.wf()
    }

    /// The store's contents.
    pub closed spec fn view(&self) -> ChainView {
        ChainView {
            blocks: self.blocks@.map_values(|b: StoredBlock| b@),
            heights: self.heights@,
            accounts: self.accounts@,
            referral_index: self.referral_index@,
            tallies: self.tallies@,
            votes: self.votes@.dom(),
            tip: self.tip,
            params: self.params,
        }
    }

    /// The stored accounts with their addresses, in the order of first writing.
    pub closed spec fn account_list(&self) -> Seq<([u8; 32], AccountState)> {
        self.accounts.entry_seq()
    }

    /// The account list holds every stored account once.
    pub proof fn lemma_account_list(&self)
        requires
            self.wf(),
        ensures
            self.account_list().len() == self@.accounts.dom().len(),
            forall|i: int|
                0 <= i < self.account_list().len() ==> self@.accounts.contains_key(
                    (#[trigger] self.account_list()[i]).0@,
                ) && self@.accounts[self.account_list()[i].0@] == self.account_list()[i].1,
            forall|i: int, j: int|
                0 <= i < j < self.account_list().len() ==> (#[trigger] self.account_list()[i]).0@
                    != (#[trigger] self.account_list()[j]).0@,
            forall|a: Seq<u8>|
                self@.accounts.contains_key(a) ==> exists|i: int|
                    0 <= i < self.account_list().len() && (#[trigger] self.account_list()[i]).0@
                        == a,
    {
        self.accounts.lemma_entries();
        self.accounts.lemma_entry_seq();
        let list = self.account_list();
        assert forall|a: Seq<u8>| self@.accounts.contains_key(a) implies exists|i: int|
            0 <= i < list.len() && (#[trigger] list[i]).0@ == a by {
            let i = choose|i: int|
                0 <= i < self.accounts.key_seq().len() && #[trigger] self.accounts.key_seq()[i]
                    == a;
            assert(list[i].0@ == a);
        }
    }

    /// An empty store with the default parameters.
    pub fn new() -> (s: Self)
        ensures
            s.wf(),
            s@ == ChainView::empty(),
    {
        let s = ChainState {
            blocks: ByteMap::new(),
            heights: ByteMap::new(),
            accounts: ByteMap::new(),
            referral_index: ByteMap::new(),
            tallies: ByteMap::new(),
            votes: ByteMap::new(),
            tip: None,
            params: GovernanceParams::default(),
        };
        assert(s.blocks@.map_values(|b: StoredBlock| b@) =~= Map::<Seq<u8>, BlockView>::empty());
        assert(s.votes@.dom() =~= Set::<Seq<u8>>::empty());
        s
    }

    /// The block stored under `hash`.
    pub fn get_block(&self, hash: &[u8; 32]) -> (r: Option<&StoredBlock>)
        requires
            self.wf(),
        ensures
            match r {
                Some(b) => self@.blocks.contains_key(hash@) && self@.blocks[hash@] == b@,
                None => !self@.blocks.contains_key(hash@),
            },
    {
        self.blocks.get(hash)
    }

    /// Whether a block is stored under `hash`.
    pub fn has_block(&self, hash: &[u8; 32]) -> (r: bool)
        requires
            self.wf(),
        ensures
            r == self@.blocks.contains_key(hash@),
    {
        self.blocks.contains(hash)
    }

    /// Stores a block under `hash` and indexes the hash under the block's height.
    pub fn store_block(&mut self, hash: &[u8; 32], block: &StoredBlock)
        requires
            old(self).wf(),
        ensures
            final(self).wf(),
            final(self)@ == old(self)@.with_block(*hash, block@),
    {
        let copy = block.duplicate();
        self.blocks.insert(*hash, copy);
        self.heights.insert(block.block_height, *hash);
        assert(self.blocks@.map_values(|b: StoredBlock| b@) =~= old(self).blocks@.map_values(
            |b: StoredBlock| b@,
        ).insert(hash@, block@));
    }

    /// The hash indexed under `height`.
    pub fn get_block_hash_by_height(&self, height: u32) -> (r: Option<[u8; 32]>)
        requires
            self.wf(),
        ensures
            r == self@.hash_at_height(height),
    {
        let key = u32_field(height);
        match self.heights.get(&key) {
            Some(h) => Some(*h),
            None => None,
        }
    }

    /// The account under `addr`; the empty account where none is stored.
    pub fn get_account(&self, addr: &[u8; 32]) -> (a: AccountState)
        requires
            self.wf(),
        ensures
            a == account_at(self@.accounts, addr@),
    {
        match self.accounts.get(addr) {
            Some(a) => *a,
            None => AccountState::empty(),
        }
    }

    /// Whether an account is stored under `addr`.
    pub fn has_account(&self, addr: &[u8; 32]) -> (r: bool)
        requires
            self.wf(),
        ensures
            r == self@.accounts.contains_key(addr@),
    {
        self.accounts.contains(addr)
    }

    /// Writes an account and enters its address in the referral index.
    pub fn put_account(&mut self, addr: &[u8; 32], state: &AccountState)
        requires
            old(self).wf(),
        ensures
            final(self).wf(),
            final(self)@ == old(self)@.with_account(*addr, *state),
    {
        self.accounts.insert(*addr, *state);
        let code = make_referral_code(addr);
        if !self.referral_index.contains(&code) {
            self.referral_index.insert(code, *addr);
        }
    }

    /// Writes a run of accounts, in order.
    pub fn apply_account_batch(&mut self, updates: Vec<([u8; 32], AccountState)>)
        requires
            old(self).wf(),
        ensures
            final(self).wf(),
            final(self)@ == old(self)@.accounts_written(updates@),
    {
        let mut i: usize = 0;
        assert(updates@.take(0) =~= Seq::<([u8; 32], AccountState)>::empty());
        while i < updates.len()
            invariant
                self.wf(),
                i <= updates@.len(),
                self@ == old(self)@.accounts_written(updates@.take(i as int)),
            decreases updates@.len() - i,
        {
            proof {
                assert(updates@.take(i + 1).drop_last() =~= updates@.take(i as int));
                assert(updates@.take(i + 1).last() == updates@[i as int]);
            }
            let (addr, account) = updates[i];
            self.put_account(&addr, &account);
            i += 1;
        }
        assert(updates@.take(i as int) =~= updates@);
    }

    /// Stores a run of blocks under their hashes, in order.
    pub fn apply_block_data_batch(&mut self, blocks: Vec<([u8; 32], StoredBlock)>)
        requires
            old(self).wf(),
        ensures
            final(self).wf(),
            final(self)@ == old(self)@.blocks_stored(
                Seq::new(blocks@.len(), |i: int| (blocks@[i].0, blocks@[i].1@)),
            ),
    {
        let ghost views = Seq::new(blocks@.len(), |i: int| (blocks@[i].0, blocks@[i].1@));
        let mut i: usize = 0;
        assert(views.take(0) =~= Seq::<([u8; 32], BlockView)>::empty());
        while i < blocks.len()
            invariant
                self.wf(),
                i <= blocks@.len(),
                views == Seq::new(blocks@.len(), |i: int| (blocks@[i].0, blocks@[i].1@)),
                self@ == old(self)@.blocks_stored(views.take(i as int)),
            decreases blocks@.len() - i,
        {
            proof {
                assert(views.take(i + 1).drop_last() =~= views.take(i as int));
                assert(views.take(i + 1).last() == views[i as int]);
            }
            let hash = blocks[i].0;
            self.store_block(&hash, &blocks[i].1);
            i += 1;
        }
        assert(views.take(i as int) =~= views);
    }

    /// The address entered under a referral code.
    pub fn get_address_by_referral_code(&self, code: &[u8; 8]) -> (r: Option<[u8; 32]>)
        requires
            self.wf(),
        ensures
            match r {
                Some(a) => self@.referral_index.contains_key(code@) && self@.referral_index[code@]
                    == a,
                None => !self@.referral_index.contains_key(code@),
            },
    {
        match self.referral_index.get(code) {
            Some(a) => Some(*a),
            None => None,
        }
    }

    /// Sets the tip.
    pub fn set_tip(&mut self, hash: &[u8; 32])
        requires
            old(self).wf(),
        ensures
            final(self).wf(),
            final(self)@ == (ChainView { tip: Some(*hash), ..old(self)@ }),
    {
        self.tip = Some(*hash);
    }

    /// The tip, if a block has been applied.
    pub fn get_tip(&self) -> (r: Option<[u8; 32]>)
        ensures
            r == self@.tip,
    {
        self.tip
    }

    /// The height of the tip's block, or zero.
    pub fn get_chain_height(&self) -> (h: u32)
        requires
            self.wf(),
        ensures
            h == self@.chain_height(),
    {
        match self.tip {
            Some(hash) => match self.blocks.get(&hash) {
                Some(block) => block.height(),
                None => 0,
            },
            None => 0,
        }
    }

    /// The tally of a proposal; zero where nobody has voted.
    pub fn get_governance_tally(&self, proposal_hash: &[u8; 32]) -> (t: u64)
        requires
            self.wf(),
        ensures
            t == tally_at(self@.tallies, proposal_hash@),
    {
        match self.tallies.get(proposal_hash) {
            Some(t) => *t,
            None => 0,
        }
    }

    /// Sets the tally of a proposal.
    pub fn set_governance_tally(&mut self, proposal_hash: &[u8; 32], tally: u64)
        requires
            old(self).wf(),
        ensures
            final(self).wf(),
            final(self)@ == (ChainView {
                tallies: old(self)@.tallies.insert(proposal_hash@, tally),
                ..old(self)@
            }),
    {
        self.tallies.insert(*proposal_hash, tally);
    }

    /// Whether `voter` has voted on the proposal.
    pub fn has_governance_vote(&self, proposal_hash: &[u8; 32], voter: &[u8; 32]) -> (r: bool)
        requires
            self.wf(),
        ensures
            r == self@.votes.contains(vote_key(proposal_hash@, voter@)),
    {
        self.get_governance_vote_exists(proposal_hash, voter)
    }

    /// Records that `voter` has voted on the proposal; the tally stays.
    pub fn record_governance_vote(&mut self, proposal_hash: &[u8; 32], voter: &[u8; 32])
        requires
            old(self).wf(),
        ensures
            final(self).wf(),
            final(self)@ == (ChainView {
                votes: old(self)@.votes.insert(vote_key(proposal_hash@, voter@)),
                ..old(self)@
            }),
    {
        let key = make_vote_key(proposal_hash, voter);
        self.votes.insert(key, 1);
        assert(self.votes@.dom() =~= old(self).votes@.dom().insert(key@));
    }

    /// Enters an address under a referral code; the first address under a
    /// code stays.
    pub fn index_referral_code(&mut self, code: &[u8; 8], addr: &[u8; 32])
        requires
            old(self).wf(),
        ensures
            final(self).wf(),
            final(self)@ == (if old(self)@.referral_index.contains_key(code@) {
                old(self)@
            } else {
                ChainView {
                    referral_index: old(self)@.referral_index.insert(code@, *addr),
                    ..old(self)@
                }
            }),
    {
        if !self.referral_index.contains(code) {
            self.referral_index.insert(*code, *addr);
        }
    }

    /// Whether `voter` has voted on the proposal.
    pub fn get_governance_vote_exists(&self, proposal_hash: &[u8; 32], voter: &[u8; 32]) -> (r:
        bool)
        requires
            self.wf(),
        ensures
            r == self@.votes.contains(vote_key(proposal_hash@, voter@)),
    {
        let key = make_vote_key(proposal_hash, voter);
        self.votes.contains(&key)
    }

    /// Records a vote and adds its weight to the tally, once per voter and proposal.
    pub fn add_governance_vote(&mut self, proposal_hash: &[u8; 32], voter: &[u8; 32], weight: u64)
        requires
            old(self).wf(),
        ensures
            final(self).wf(),
            final(self)@ == old(self)@.with_vote(proposal_hash@, voter@, weight),
    {
        let key = make_vote_key(proposal_hash, voter);
        if self.votes.contains(&key) {
            return ;
        }
        let current = self.get_governance_tally(proposal_hash);
        let new_tally = current.saturating_add(weight);
        self.tallies.insert(*proposal_hash, new_tally);
        self.votes.insert(key, 1);
        assert(self.votes@.dom() =~= old(self).votes@.dom().insert(key@));
    }

    /// Commits the writes of one block as a whole.
    pub fn apply_batch(&mut self, batch: &BlockCommit)
        requires
            old(self).wf(),
            batch.wf(),
        ensures
            final(self).wf(),
            final(self)@ == old(self)@.committed(
                batch.hash,
                batch.block@,
                batch.accounts@,
                batch.accounts.key_seq(),
                batch.tallies@,
                batch.votes@.dom(),
            ),
    {
        let n = batch.accounts.len();
        let mut i: usize = 0;
        let ghost order = batch.accounts.key_seq();
        assert(order.take(0) =~= Seq::<Seq<u8>>::empty());
        while i < n
            invariant
                self.wf(),
                batch.wf(),
                i <= n,
                n == order.len(),
                order == batch.accounts.key_seq(),
                self.referral_index@ == old(self)@.index_addresses(
                    order.take(i as int),
                ).referral_index,
                self.blocks == old(self).blocks,
                self.heights == old(self).heights,
                self.accounts == old(self).accounts,
                self.tallies == old(self).tallies,
                self.votes == old(self).votes,
                self.params == old(self).params,
            decreases n - i,
        {
            let addr = batch.accounts.key_at(i);
            let code = make_referral_code(addr);
            proof {
                lemma_array32(*addr);
                assert(order.take(i + 1).drop_last() =~= order.take(i as int));
                assert(order.take(i + 1).last() == addr@);
                let before = old(self)@.index_addresses(order.take(i as int));
                assert(before.index_address(*addr).referral_index == if self.referral_index@.contains_key(
                    code@,
                ) {
                    self.referral_index@
                } else {
                    self.referral_index@.insert(code@, *addr)
                });
            }
            if !self.referral_index.contains(&code) {
                self.referral_index.insert(code, *addr);
            }
            i += 1;
        }
        assert(order.take(n as int) =~= order);
        self.accounts.absorb(&batch.accounts);
        self.tallies.absorb(&batch.tallies);
        self.votes.absorb(&batch.votes);
        let copy = batch.block.duplicate();
        self.blocks.insert(batch.hash, copy);
        self.heights.insert(batch.block.block_height, batch.hash);
        self.tip = Some(batch.hash);
        proof {
            assert(self.blocks@.map_values(|b: StoredBlock| b@) =~= old(self).blocks@.map_values(
                |b: StoredBlock| b@,
            ).insert(batch.hash@, batch.block@));
            assert(self.votes@.dom() =~= old(self).votes@.dom() + batch.votes@.dom());
        }
    }

    /// The governance parameters.
    pub fn get_governance_params(&self) -> (p: GovernanceParams)
        ensures
            p == self@.params,
    {
        self.params
    }

    /// Replaces the governance parameters.
    pub fn set_governance_params(&mut self, params: &GovernanceParams)
        requires
            old(self).wf(),
        ensures
            final(self).wf(),
            final(self)@ == (ChainView { params: *params, ..old(self)@ }),
    {
        self.params = *params;
    }

    /// Every stored account with its address, in the order of first writing.
    pub fn iter_accounts(&self) -> (out: Vec<([u8; 32], AccountState)>)
        requires
            self.wf(),
        ensures
            out@ == self.account_list(),
            out@.len() == self@.accounts.dom().len(),
            forall|i: int|
                0 <= i < out@.len() ==> self@.accounts.contains_key(#[trigger] out@[i].0@)
                    && self@.accounts[out@[i].0@] == out@[i].1,
            forall|i: int, j: int| 0 <= i < j < out@.len() ==> out@[i].0@ != out@[j].0@,
    {
        proof {
            self.lemma_account_list();
            self.accounts.lemma_entry_seq();
        }
        let n = self.accounts.len();
        let mut out: Vec<([u8; 32], AccountState)> = Vec::new();
        let mut i: usize = 0;
        while i < n
            invariant
                self.wf(),
                i <= n,
                n == self.accounts.key_seq().len(),
                n == self.accounts.entry_seq().len(),
                out@.len() == i,
                forall|k: int| 0 <= k < i ==> #[trigger] out@[k] == self.accounts.entry_seq()[k],
            decreases n - i,
        {
            out.push((*self.accounts.key_at(i), *self.accounts.value_at(i)));
            i += 1;
        }
        assert(out@ =~= self.account_list());
        out
    }
}

} // verus!
