use vstd::prelude::*;
use vstd::relations::{sorted_by, total_ordering};
use vstd::string::StringExecFns;
use crate::bytemap::ByteMap;
use crate::bytes::{array_eq, be_le, be_value};
use crate::consensus::chain::{
    block_reward, calculate_block_reward, calculate_governance_weight, calculate_referral_bonus,
    capped_weight, referral_bonus, referrer_active,
};
use crate::crypto::hash::{hash_sha3_256, sha3_256};
use crate::node::db_common::{
    array32, header_bytes, lemma_array32, AccountState, BlockView, StoredBlock, StoredTransaction,
    TxView,
};
use crate::node::store::{
    account_at, make_vote_key, saturating_sum, tally_at, vote_key, BlockCommit, ChainState,
    ChainView,
};
pub use crate::node::store::GovernanceParams;
use crate::primitives::transaction::{structurally_valid, txid_of, Transaction};

verus! {

/// Blocks may run at most this many seconds ahead of the clock.
pub const MAX_FUTURE_SECS: u64 = 7_200;

/// Why a block or a transaction was refused.
#[derive(Debug)]
pub enum StateError {
    InsufficientBalance,
    InvalidNonce { expected: u64, got: u64 },
    DuplicateReferrer,
    SelfReferral,
    InvalidCoinbase,
    MathOverflow,
    DatabaseError(String),
    InvalidPoW,
    InvalidTransaction(&'static str),
    BlockInPast,
    BlockTooFarInFuture,
    /// The block is in the store already.
    AlreadyKnown,
}

/// The character of a decimal digit.
pub open spec fn digit_char(d: nat) -> char {
    if d == 0 {
        '0'
    } else if d == 1 {
        '1'
    } else if d == 2 {
        '2'
    } else if d == 3 {
        '3'
    } else if d == 4 {
        '4'
    } else if d == 5 {
        '5'
    } else if d == 6 {
        '6'
    } else if d == 7 {
        '7'
    } else if d == 8 {
        '8'
    } else {
        '9'
    }
}

/// A number in decimal.
pub open spec fn decimal_chars(n: nat) -> Seq<char>
    decreases n,
{
    if n < 10 {
        seq![digit_char(n)]
    } else {
        decimal_chars(n / 10).push(digit_char(n % 10))
    }
}

/// The text of a decimal digit.
fn digit_text(d: u64) -> (t: &'static str)
    requires
        d < 10,
    ensures
        t@ == seq![digit_char(d as nat)],
{
    proof {
        reveal_strlit("0");
        reveal_strlit("1");
        reveal_strlit("2");
        reveal_strlit("3");
        reveal_strlit("4");
        reveal_strlit("5");
        reveal_strlit("6");
        reveal_strlit("7");
        reveal_strlit("8");
        reveal_strlit("9");
    }
    let t = if d == 0 {
        "0"
    } else if d == 1 {
        "1"
    } else if d == 2 {
        "2"
    } else if d == 3 {
        "3"
    } else if d == 4 {
        "4"
    } else if d == 5 {
        "5"
    } else if d == 6 {
        "6"
    } else if d == 7 {
        "7"
    } else if d == 8 {
        "8"
    } else {
        "9"
    };
    assert(t@ =~= seq![digit_char(d as nat)]);
    t
}

/// Appends a number in decimal.
fn append_decimal(s: &mut String, n: u64)
    ensures
        final(s)@ == old(s)@ + decimal_chars(n as nat),
    decreases n,
{
    if n >= 10 {
        append_decimal(s, n / 10);
    }
    s.append(digit_text(n % 10));
    proof {
        if n >= 10 {
            assert(s@ =~= old(s)@ + decimal_chars(n as nat));
        } else {
            assert(s@ =~= old(s)@ + decimal_chars(n as nat));
        }
    }
}

/// What an error says.
pub open spec fn error_text(e: StateError) -> Seq<char> {
    match e {
        StateError::InsufficientBalance => "insufficient balance"@,
        StateError::InvalidNonce { expected, got } => "bad nonce: want "@ + decimal_chars(
            expected as nat,
        ) + ", got "@ + decimal_chars(got as nat),
        StateError::DuplicateReferrer => "referrer already set"@,
        StateError::SelfReferral => "cannot refer yourself"@,
        StateError::InvalidCoinbase => "invalid coinbase"@,
        StateError::MathOverflow => "mathematical overflow"@,
        StateError::DatabaseError(why) => "database: "@ + why@,
        StateError::InvalidPoW => "invalid proof-of-work hash"@,
        StateError::InvalidTransaction(why) => "transaction validation failed: "@ + why@,
        StateError::BlockInPast => "block timestamp is before median-time-past"@,
        StateError::BlockTooFarInFuture => "block timestamp is too far in future"@,
        StateError::AlreadyKnown => "block already known"@,
    }
}

impl StateError {
    /// What the error says.
    pub fn message(&self) -> (s: String)
        ensures
            s@ == error_text(*self),
    {
        match self {
            StateError::InsufficientBalance => String::from_str("insufficient balance"),
            StateError::InvalidNonce { expected, got } => {
                let mut s = String::from_str("bad nonce: want ");
                append_decimal(&mut s, *expected);
                s.append(", got ");
                append_decimal(&mut s, *got);
                s
            },
            StateError::DuplicateReferrer => String::from_str("referrer already set"),
            StateError::SelfReferral => String::from_str("cannot refer yourself"),
            StateError::InvalidCoinbase => String::from_str("invalid coinbase"),
            StateError::MathOverflow => String::from_str("mathematical overflow"),
            StateError::DatabaseError(why) => {
                let mut s = String::from_str("database: ");
                s.append(why.as_str());
                s
            },
            StateError::InvalidPoW => String::from_str("invalid proof-of-work hash"),
            StateError::InvalidTransaction(why) => {
                let mut s = String::from_str("transaction validation failed: ");
                s.append(why);
                s
            },
            StateError::BlockInPast => String::from_str(
                "block timestamp is before median-time-past",
            ),
            StateError::BlockTooFarInFuture => String::from_str(
                "block timestamp is too far in future",
            ),
            StateError::AlreadyKnown => String::from_str("block already known"),
        }
    }
}

/// The block hash: SHA3-256 of the 148-byte header.
pub open spec fn block_hash_of(block: BlockView) -> Seq<u8> {
    sha3_256(header_bytes(block))
}

pub fn block_hash(block: &StoredBlock) -> (h: [u8; 32])
    ensures
        h@ == block_hash_of(block@),
{
    let header = block.header_bytes();
    hash_sha3_256(header.as_slice())
}

/// Whether a proof-of-work hash meets a block's target: the genesis block
/// needs none, every other block needs hash ≤ target as big-endian numbers.
pub open spec fn pow_accepted(block: BlockView, pow_hash: Seq<u8>) -> bool {
    block.height() == 0 || be_value(pow_hash) <= be_value(block.difficulty_target)
}

/// Checks the proof-of-work hash that the engine computed over the block's
/// header prefix and nonce.
pub fn verify_block_pow(block: &StoredBlock, pow_hash: &[u8; 32]) -> (r: Result<(), StateError>)
    ensures
        r is Ok <==> pow_accepted(block@, pow_hash@),
        r is Err ==> r->Err_0 == StateError::InvalidPoW,
{
    if block.height() == 0 {
        return Ok(());
    }
    if be_le(pow_hash, &block.difficulty_target) {
        Ok(())
    } else {
        Err(StateError::InvalidPoW)
    }
}

/// The order of timestamps.
pub open spec fn time_order() -> spec_fn(u32, u32) -> bool {
    |a: u32, b: u32| a <= b
}

/// The middle element of the sorted timestamps (the upper one of two).
pub open spec fn median_time(times: Seq<u32>) -> u32 {
    times.sort_by(time_order())[(times.len() / 2) as int]
}

/// The timestamp of the block indexed `back` heights below `height`, where
/// the index and the block are there.
pub open spec fn ancestor_time(view: ChainView, height: u32, back: u32) -> Option<u32> {
    if height < back {
        None
    } else {
        match view.hash_at_height((height - back) as u32) {
            None => None,
            Some(h) => if view.blocks.contains_key(h@) {
                Some(view.blocks[h@].time())
            } else {
                None
            },
        }
    }
}

/// The timestamps of the ancestors 1 to `n` heights below `height` that the
/// store holds, nearest first.
pub open spec fn ancestor_times(view: ChainView, height: u32, n: nat) -> Seq<u32>
    decreases n,
{
    if n == 0 {
        Seq::<u32>::empty()
    } else {
        let nearer = ancestor_times(view, height, (n - 1) as nat);
        match ancestor_time(view, height, n as u32) {
            Some(t) => nearer.push(t),
            None => nearer,
        }
    }
}

/// The timestamp rule: above height 0 a block must be later than the median
/// of its last 11 ancestors and at most two hours ahead of `now`.
pub open spec fn timestamp_verdict(view: ChainView, block: BlockView, now: u64) -> Option<
    StateError,
> {
    if block.height() == 0 {
        None
    } else {
        let times = ancestor_times(view, block.height(), 11);
        if times.len() > 0 && block.time() <= median_time(times) {
            Some(StateError::BlockInPast)
        } else if block.time() > now + 7_200 {
            Some(StateError::BlockTooFarInFuture)
        } else {
            None
        }
    }
}

proof fn lemma_time_order_total()
    ensures
        total_ordering(time_order()),
{
}

/// Sorts timestamps in ascending order.
pub fn sort_times(times: &Vec<u32>) -> (sorted: Vec<u32>)
    ensures
        sorted@ == times@.sort_by(time_order()),
        sorted@.len() == times@.len(),
{
    broadcast use vstd::seq_lib::group_to_multiset_ensures;

    let mut sorted: Vec<u32> = Vec::new();
    let mut k: usize = 0;
    assert(times@.take(0) =~= Seq::<u32>::empty());
    while k < times.len()
        invariant
            k <= times@.len(),
            sorted@.len() == k,
            sorted_by(sorted@, time_order()),
            sorted@.to_multiset() == times@.take(k as int).to_multiset(),
        decreases times@.len() - k,
    {
        let x = times[k];
        let mut pos: usize = 0;
        while pos < sorted.len() && sorted[pos] <= x
            invariant
                pos <= sorted@.len(),
                forall|j: int| 0 <= j < pos ==> sorted@[j] <= x,
            decreases sorted@.len() - pos,
        {
            pos += 1;
        }
        let ghost before = sorted@;
        sorted.insert(pos, x);
        proof {
            assert(sorted@ == before.insert(pos as int, x));
            assert(times@.take(k + 1) =~= times@.take(k as int).push(x));
            vstd::seq_lib::to_multiset_insert(before, pos as int, x);
            vstd::seq_lib::to_multiset_build(times@.take(k as int), x);
            assert(sorted@.to_multiset() =~= times@.take(k + 1).to_multiset());
            assert forall|i: int, j: int| 0 <= i < j < sorted@.len() implies (time_order())(
                sorted@[i],
                sorted@[j],
            ) by {
                if j < pos {
                    assert((time_order())(before[i], before[j]));
                } else if j == pos {
                } else if i < pos {
                    assert((time_order())(before[i], before[j - 1]));
                } else if i == pos {
                    assert(pos < before.len());
                    assert(before[pos as int] > x);
                    if j - 1 > pos {
                        assert((time_order())(before[pos as int], before[j - 1]));
                    }
                } else {
                    assert((time_order())(before[i - 1], before[j - 1]));
                }
            }
        }
        k += 1;
    }
    proof {
        assert(times@.take(k as int) =~= times@);
        lemma_time_order_total();
        times@.lemma_sort_by_ensures(time_order());
        vstd::seq_lib::lemma_sorted_unique(sorted@, times@.sort_by(time_order()), time_order());
    }
    sorted
}

/// The timestamps of up to 11 ancestors of a block at `height`.
pub fn collect_ancestor_times(state: &ChainState, height: u32) -> (times: Vec<u32>)
    requires
        state.wf(),
    ensures
        times@ == ancestor_times(state@, height, 11),
        times@.len() <= 11,
{
    let mut times: Vec<u32> = Vec::new();
    let mut i: u32 = 1;
    while i <= 11
        invariant
            state.wf(),
            1 <= i <= 12,
            times@ == ancestor_times(state@, height, (i - 1) as nat),
            times@.len() <= i - 1,
        decreases 12 - i,
    {
        if height >= i {
            match state.get_block_hash_by_height(height - i) {
                Some(h) => match state.get_block(&h) {
                    Some(b) => {
                        times.push(b.time());
                    },
                    None => {},
                },
                None => {},
            }
        }
        i += 1;
    }
    times
}

/// Applies the timestamp rule to a block.
pub fn check_block_time(state: &ChainState, block: &StoredBlock, now: u64) -> (r: Result<
    (),
    StateError,
>)
    requires
        state.wf(),
    ensures
        match r {
            Ok(_) => timestamp_verdict(state@, block@, now).is_none(),
            Err(e) => timestamp_verdict(state@, block@, now) == Some(e),
        },
{
    let height = block.height();
    if height == 0 {
        return Ok(());
    }
    let block_time = block.time();
    let times = collect_ancestor_times(state, height);
    if times.len() > 0 {
        let sorted = sort_times(&times);
        let mtp = sorted[times.len() / 2];
        if block_time <= mtp {
            return Err(StateError::BlockInPast);
        }
    }
    if block_time as u128 > now as u128 + MAX_FUTURE_SECS as u128 {
        return Err(StateError::BlockTooFarInFuture);
    }
    Ok(())
}


/// The accounts, tallies and votes while a block is being applied.
pub ghost struct Ledger {
    pub accounts: Map<Seq<u8>, AccountState>,
    /// The addresses written so far, in the order of first writing.
    pub touched: Seq<Seq<u8>>,
    pub tallies: Map<Seq<u8>, u64>,
    pub votes: Set<Seq<u8>>,
    /// The identifiers of the block's transactions applied so far.
    pub seen: Set<Seq<u8>>,
    /// The fees collected so far.
    pub fees: u64,
}

impl Ledger {
    /// The ledger before anything of the block has been applied.
    pub open spec fn start(view: ChainView) -> Ledger {
        Ledger {
            accounts: view.accounts,
            touched: Seq::empty(),
            tallies: view.tallies,
            votes: view.votes,
            seen: Set::empty(),
            fees: 0,
        }
    }

    /// The account at an address; the empty account where there is none.
    pub open spec fn account(self, addr: Seq<u8>) -> AccountState {
        account_at(self.accounts, addr)
    }

    /// The ledger after an account has been written.
    pub open spec fn write(self, addr: Seq<u8>, account: AccountState) -> Ledger {
        Ledger {
            accounts: self.accounts.insert(addr, account),
            touched: if self.touched.contains(addr) {
                self.touched
            } else {
                self.touched.push(addr)
            },
            ..self
        }
    }

    /// The ledger after a governance signal: the first vote of a voter on a
    /// proposal adds the voter's weight to the tally, a later one nothing.
    pub open spec fn vote(self, proposal: Seq<u8>, voter: Seq<u8>) -> Ledger {
        if self.votes.contains(vote_key(proposal, voter)) {
            self
        } else {
            Ledger {
                tallies: self.tallies.insert(
                    proposal,
                    saturating_sum(
                        tally_at(self.tallies, proposal),
                        self.account(voter).governance_weight,
                    ),
                ),
                votes: self.votes.insert(vote_key(proposal, voter)),
                ..self
            }
        }
    }
}

/// The governance weight that is stored for `total` contributions.
pub open spec fn stored_weight(total: u64, cap_bps: u64) -> u64 {
    capped_weight(total as nat, cap_bps as nat) as u64
}

/// Reward assembly: the miner is credited with the base reward and counted
/// as having mined at `height`; a referrer of the miner who is inside the
/// activity window is credited with the bonus, which is minted.
pub open spec fn reward_outcome(l: Ledger, miner: Seq<u8>, height: u32, cap_bps: u64) -> Result<
    Ledger,
    StateError,
> {
    let reward = block_reward(height as nat);
    let m = l.account(miner);
    if m.balance + reward > u64::MAX {
        Err(StateError::MathOverflow)
    } else {
        let mined = saturating_sum(m.total_blocks_mined, 1);
        let l1 = l.write(
            miner,
            AccountState {
                balance: (m.balance + reward) as u64,
                last_mined_height: height as u64,
                total_blocks_mined: mined,
                governance_weight: stored_weight(mined, cap_bps),
                ..m
            },
        );
        match m.referrer {
            None => Ok(l1),
            Some(r) => {
                let ra = l1.account(r@);
                let bonus = referral_bonus(
                    reward,
                    ra.total_blocks_mined as nat,
                    ra.last_mined_height as nat,
                    height as nat,
                );
                if bonus == 0 {
                    Ok(l1)
                } else if ra.balance + bonus > u64::MAX || ra.total_referral_bonus_earned + bonus
                    > u64::MAX {
                    Err(StateError::MathOverflow)
                } else {
                    Ok(
                        l1.write(
                            r@,
                            AccountState {
                                balance: (ra.balance + bonus) as u64,
                                total_referral_bonus_earned: (ra.total_referral_bonus_earned
                                    + bonus) as u64,
                                governance_weight: stored_weight(ra.total_referred_miners, cap_bps),
                                ..ra
                            },
                        ),
                    )
                }
            },
        }
    }
}

/// Whether a pending referrer is bound to the miner: only on the miner's
/// first block, only where the miner has no referrer yet, and never to the
/// miner itself.
pub open spec fn binds_referrer(l: Ledger, miner: Seq<u8>, pending: Option<[u8; 32]>) -> bool {
    pending.is_some() && l.account(miner).referrer.is_none() && l.account(miner).total_blocks_mined
        == 1 && pending.unwrap()@ != miner
}

/// First-block referrer binding: the miner gets the referrer, and the
/// referrer one more referred miner.
pub open spec fn binding_outcome(
    l: Ledger,
    miner: Seq<u8>,
    pending: Option<[u8; 32]>,
    cap_bps: u64,
) -> Ledger {
    if binds_referrer(l, miner, pending) {
        let p = pending.unwrap();
        let l1 = l.write(miner, AccountState { referrer: Some(p), ..l.account(miner) });
        let up = l1.account(p@);
        let referred = saturating_sum(up.total_referred_miners, 1);
        l1.write(
            p@,
            AccountState {
                total_referred_miners: referred,
                governance_weight: stored_weight(referred, cap_bps),
                ..up
            },
        )
    } else {
        l
    }
}

/// Referral registration by a sender's first transaction.
pub open spec fn registration_outcome(
    l: Ledger,
    sender: Seq<u8>,
    referrer: [u8; 32],
    cap_bps: u64,
) -> Result<Ledger, StateError> {
    if referrer@ == sender {
        Err(StateError::SelfReferral)
    } else if l.account(sender).referrer.is_some() {
        Err(StateError::DuplicateReferrer)
    } else {
        let l1 = l.write(sender, AccountState { referrer: Some(referrer), ..l.account(sender) });
        let up = l1.account(referrer@);
        if up.total_referred_miners == u64::MAX {
            Err(StateError::MathOverflow)
        } else {
            let referred = (up.total_referred_miners + 1) as u64;
            Ok(
                l1.write(
                    referrer@,
                    AccountState {
                        total_referred_miners: referred,
                        governance_weight: stored_weight(referred, cap_bps),
                        ..up
                    },
                ),
            )
        }
    }
}

/// One transaction applied to the ledger: structural validation, no
/// duplicate in the block, nonce, balance; then debit, nonce, credit and
/// fee; then the governance signal and the referral registration.
pub open spec fn transaction_outcome(l: Ledger, t: TxView, cap_bps: u64) -> Result<
    Ledger,
    StateError,
> {
    let sender = t.sender_address@;
    let s = l.account(sender);
    if t.sender_pubkey.len() != 1952 {
        Err(StateError::InvalidTransaction("invalid public key length"))
    } else if t.signature.len() != 3309 {
        Err(StateError::InvalidTransaction("invalid signature length"))
    } else if !structurally_valid(t) {
        Err(StateError::InvalidTransaction("structural or signature failure"))
    } else if l.seen.contains(txid_of(t)) {
        Err(StateError::InvalidTransaction("duplicate transaction in block"))
    } else if s.nonce == u64::MAX {
        Err(StateError::MathOverflow)
    } else if t.nonce != s.nonce + 1 {
        Err(StateError::InvalidNonce { expected: (s.nonce + 1) as u64, got: t.nonce })
    } else if s.balance < t.amount + t.fee {
        Err(StateError::InsufficientBalance)
    } else {
        let l1 = l.write(
            sender,
            AccountState { balance: (s.balance - (t.amount + t.fee)) as u64, nonce: t.nonce, ..s },
        );
        let r = l1.account(t.recipient_address@);
        if r.balance + t.amount > u64::MAX || l.fees + t.fee > u64::MAX {
            Err(StateError::MathOverflow)
        } else {
            let l2 = Ledger {
                fees: (l.fees + t.fee) as u64,
                seen: l.seen.insert(txid_of(t)),
                ..l1.write(
                    t.recipient_address@,
                    AccountState { balance: (r.balance + t.amount) as u64, ..r },
                )
            };
            let l3 = match t.governance_data {
                Some(p) => l2.vote(p@, sender),
                None => l2,
            };
            match t.referrer_address {
                Some(rf) => if t.nonce == 1 {
                    registration_outcome(l3, sender, rf, cap_bps)
                } else {
                    Ok(l3)
                },
                None => Ok(l3),
            }
        }
    }
}

/// The transactions of a block applied in block order; the first failure
/// is the outcome.
pub open spec fn transactions_outcome(l: Ledger, txs: Seq<TxView>, cap_bps: u64) -> Result<
    Ledger,
    StateError,
>
    decreases txs.len(),
{
    if txs.len() == 0 {
        Ok(l)
    } else {
        match transactions_outcome(l, txs.drop_last(), cap_bps) {
            Err(e) => Err(e),
            Ok(l1) => transaction_outcome(l1, txs.last(), cap_bps),
        }
    }
}

/// The collected fees credited to the miner.
pub open spec fn fees_outcome(l: Ledger, miner: Seq<u8>) -> Result<Ledger, StateError> {
    let m = l.account(miner);
    if m.balance + l.fees > u64::MAX {
        Err(StateError::MathOverflow)
    } else {
        Ok(l.write(miner, AccountState { balance: (m.balance + l.fees) as u64, ..m }))
    }
}

/// Reward, binding, transactions and fees of a block on the store's ledger.
pub open spec fn ledger_outcome(view: ChainView, block: BlockView, pending: Option<[u8; 32]>) -> Result<
    Ledger,
    StateError,
> {
    let cap = view.params.cap_bps;
    match reward_outcome(Ledger::start(view), block.miner_address, block.height(), cap) {
        Err(e) => Err(e),
        Ok(l1) => match transactions_outcome(
            binding_outcome(l1, block.miner_address, pending, cap),
            block.tx_data,
            cap,
        ) {
            Err(e) => Err(e),
            Ok(l2) => fees_outcome(l2, block.miner_address),
        },
    }
}

/// What applying a block does: the store after it, or why the block was
/// refused, in which case the store stays as it is. A block that is in
/// the store is refused before anything else is looked at.
pub open spec fn block_outcome(
    view: ChainView,
    block: BlockView,
    pending: Option<[u8; 32]>,
    pow_hash: Seq<u8>,
    now: u64,
) -> Result<ChainView, StateError> {
    if view.blocks.contains_key(block_hash_of(block)) {
        Err(StateError::AlreadyKnown)
    } else {
        block_outcome_of_new(view, block, pending, pow_hash, now)
    }
}

/// What applying a block that is not in the store does.
pub open spec fn block_outcome_of_new(
    view: ChainView,
    block: BlockView,
    pending: Option<[u8; 32]>,
    pow_hash: Seq<u8>,
    now: u64,
) -> Result<ChainView, StateError> {
    match timestamp_verdict(view, block, now) {
        Some(e) => Err(e),
        None => if !pow_accepted(block, pow_hash) {
            Err(StateError::InvalidPoW)
        } else {
            match ledger_outcome(view, block, pending) {
                Err(e) => Err(e),
                Ok(l) => Ok(
                    ChainView {
                        blocks: view.blocks.insert(block_hash_of(block), block),
                        heights: view.heights.insert(
                            block.block_height,
                            array32(block_hash_of(block)),
                        ),
                        accounts: l.accounts,
                        referral_index: view.index_addresses(l.touched).referral_index,
                        tallies: l.tallies,
                        votes: l.votes,
                        tip: Some(array32(block_hash_of(block))),
                        params: view.params,
                    },
                ),
            }
        },
    }
}

/// A block is applied once: after it has been applied, every further
/// application of it is refused as already known, whatever referrer,
/// proof-of-work hash and clock come with it, and so the store stays as it
/// is.
pub proof fn law_applied_block_is_refused_again(
    view: ChainView,
    block: BlockView,
    pending: Option<[u8; 32]>,
    pow_hash: Seq<u8>,
    now: u64,
    pending_again: Option<[u8; 32]>,
    pow_hash_again: Seq<u8>,
    now_again: u64,
)
    requires
        block_outcome(view, block, pending, pow_hash, now) is Ok,
    ensures
        block_outcome(
            block_outcome(view, block, pending, pow_hash, now)->Ok_0,
            block,
            pending_again,
            pow_hash_again,
            now_again,
        ) == Err::<ChainView, StateError>(StateError::AlreadyKnown),
{
}

/// An applied block is the tip and is indexed at its height, and it leaves
/// the index of every other height as it was.
pub proof fn law_applied_block_is_tip_and_indexed(
    view: ChainView,
    block: BlockView,
    pending: Option<[u8; 32]>,
    pow_hash: Seq<u8>,
    now: u64,
)
    requires
        block.block_height.len() == 4,
        block_outcome(view, block, pending, pow_hash, now) is Ok,
    ensures
        ({
            let after = block_outcome(view, block, pending, pow_hash, now)->Ok_0;
            let hash = array32(block_hash_of(block));
            &&& after.tip == Some(hash)
            &&& after.hash_at_height(block.height()) == Some(hash)
            &&& after.blocks.contains_key(block_hash_of(block))
            &&& after.blocks[block_hash_of(block)] == block
            &&& forall|h: u32|
                h != block.height() ==> after.hash_at_height(h) == view.hash_at_height(h)
        }),
{
    vstd::bytes::lemma_auto_spec_u32_to_from_le_bytes();
    let after = block_outcome(view, block, pending, pow_hash, now)->Ok_0;
    assert(vstd::bytes::spec_u32_to_le_bytes(block.height()) == block.block_height);
    assert forall|h: u32| h != block.height() implies after.hash_at_height(h)
        == view.hash_at_height(h) by {
        assert(vstd::bytes::spec_u32_to_le_bytes(h).len() == 4);
        assert(vstd::bytes::spec_u32_from_le_bytes(vstd::bytes::spec_u32_to_le_bytes(h)) == h);
    }
}

/// Number of transactions among `txs` that `sender` sent.
pub open spec fn count_sent(txs: Seq<TxView>, sender: Seq<u8>) -> nat
    decreases txs.len(),
{
    if txs.len() == 0 {
        0
    } else {
        count_sent(txs.drop_last(), sender) + (if txs.last().sender_address@ == sender {
            1nat
        } else {
            0nat
        })
    }
}

proof fn lemma_transaction_nonce(l: Ledger, t: TxView, cap_bps: u64, a: Seq<u8>)
    requires
        transaction_outcome(l, t, cap_bps) is Ok,
    ensures
        transaction_outcome(l, t, cap_bps)->Ok_0.account(a).nonce == l.account(a).nonce + (if t.sender_address@
            == a {
            1nat
        } else {
            0nat
        }),
{
}

proof fn lemma_transactions_nonce(l: Ledger, txs: Seq<TxView>, cap_bps: u64, a: Seq<u8>)
    requires
        transactions_outcome(l, txs, cap_bps) is Ok,
    ensures
        transactions_outcome(l, txs, cap_bps)->Ok_0.account(a).nonce == l.account(a).nonce
            + count_sent(txs, a),
    decreases txs.len(),
{
    if txs.len() > 0 {
        lemma_transactions_nonce(l, txs.drop_last(), cap_bps, a);
        let l1 = transactions_outcome(l, txs.drop_last(), cap_bps)->Ok_0;
        lemma_transaction_nonce(l1, txs.last(), cap_bps, a);
    }
}

/// An applied block advances the nonce of every account by the number of
/// transactions that the account sent in the block, and by nothing else.
pub proof fn law_nonce_counts_outgoing(
    view: ChainView,
    block: BlockView,
    pending: Option<[u8; 32]>,
    pow_hash: Seq<u8>,
    now: u64,
    addr: Seq<u8>,
)
    requires
        block_outcome(view, block, pending, pow_hash, now) is Ok,
    ensures
        account_at(block_outcome(view, block, pending, pow_hash, now)->Ok_0.accounts, addr).nonce
            == account_at(view.accounts, addr).nonce + count_sent(block.tx_data, addr),
{
    let cap = view.params.cap_bps;
    let l0 = Ledger::start(view);
    let l1 = reward_outcome(l0, block.miner_address, block.height(), cap)->Ok_0;
    assert(l1.account(addr).nonce == l0.account(addr).nonce);
    let l2 = binding_outcome(l1, block.miner_address, pending, cap);
    assert(l2.account(addr).nonce == l1.account(addr).nonce);
    lemma_transactions_nonce(l2, block.tx_data, cap, addr);
}

/// Whether a transaction reads or writes the account at `addr`: as its
/// sender, its recipient or the referrer that it names.
pub open spec fn touches(t: TxView, addr: Seq<u8>) -> bool {
    ||| t.sender_address@ == addr
    ||| t.recipient_address@ == addr
    ||| (t.referrer_address matches Some(r) && r@ == addr)
}

/// The fees of a run of transactions.
pub open spec fn fee_total(txs: Seq<TxView>) -> nat
    decreases txs.len(),
{
    if txs.len() == 0 {
        0
    } else {
        fee_total(txs.drop_last()) + txs.last().fee as nat
    }
}

/// Applied transactions leave every account as it was that none of them
/// touches, and they collect their fees.
pub proof fn law_untouched_account_stays(l: Ledger, txs: Seq<TxView>, cap_bps: u64, addr: Seq<u8>)
    requires
        transactions_outcome(l, txs, cap_bps) is Ok,
        forall|i: int| 0 <= i < txs.len() ==> !touches(#[trigger] txs[i], addr),
    ensures
        transactions_outcome(l, txs, cap_bps)->Ok_0.account(addr) == l.account(addr),
        transactions_outcome(l, txs, cap_bps)->Ok_0.fees == l.fees + fee_total(txs),
    decreases txs.len(),
{
    if txs.len() > 0 {
        let rest = txs.drop_last();
        assert forall|i: int| 0 <= i < rest.len() implies !touches(#[trigger] rest[i], addr) by {
            assert(rest[i] == txs[i]);
        }
        law_untouched_account_stays(l, rest, cap_bps, addr);
        assert(!touches(txs[txs.len() - 1], addr));
    }
}

/// Outside the activity window no bonus is minted: where the referrer of
/// the miner is not active at the height of an applied block, and no
/// transaction of the block touches the referrer, the referrer's account
/// stays as it was.
pub proof fn law_no_bonus_outside_window(
    view: ChainView,
    block: BlockView,
    pending: Option<[u8; 32]>,
    pow_hash: Seq<u8>,
    now: u64,
    referrer: [u8; 32],
)
    requires
        block_outcome(view, block, pending, pow_hash, now) is Ok,
        account_at(view.accounts, block.miner_address).referrer == Some(referrer),
        referrer@ != block.miner_address,
        !referrer_active(
            account_at(view.accounts, referrer@).total_blocks_mined as nat,
            account_at(view.accounts, referrer@).last_mined_height as nat,
            block.height() as nat,
        ),
        forall|i: int|
            0 <= i < block.tx_data.len() ==> !touches(#[trigger] block.tx_data[i], referrer@),
    ensures
        account_at(
            block_outcome(view, block, pending, pow_hash, now)->Ok_0.accounts,
            referrer@,
        ) == account_at(view.accounts, referrer@),
{
    let cap = view.params.cap_bps;
    let l0 = Ledger::start(view);
    let l1 = reward_outcome(l0, block.miner_address, block.height(), cap)->Ok_0;
    assert(l1.account(referrer@) == l0.account(referrer@));
    let l2 = binding_outcome(l1, block.miner_address, pending, cap);
    assert(l2 == l1);
    law_untouched_account_stays(l2, block.tx_data, cap, referrer@);
}

/// The miner of an applied block gains the full base reward and the fees
/// of the block, whatever is minted for a referrer: where no transaction
/// of the block touches the miner and the miner is not its own referrer,
/// the miner's balance grows by exactly that much.
pub proof fn law_miner_gains_reward_and_fees(
    view: ChainView,
    block: BlockView,
    pending: Option<[u8; 32]>,
    pow_hash: Seq<u8>,
    now: u64,
)
    requires
        block_outcome(view, block, pending, pow_hash, now) is Ok,
        account_at(view.accounts, block.miner_address).referrer matches Some(r) ==> r@
            != block.miner_address,
        forall|i: int|
            0 <= i < block.tx_data.len() ==> !touches(
                #[trigger] block.tx_data[i],
                block.miner_address,
            ),
    ensures
        account_at(
            block_outcome(view, block, pending, pow_hash, now)->Ok_0.accounts,
            block.miner_address,
        ).balance == account_at(view.accounts, block.miner_address).balance + block_reward(
            block.height() as nat,
        ) + fee_total(block.tx_data),
{
    let cap = view.params.cap_bps;
    let miner = block.miner_address;
    let l0 = Ledger::start(view);
    let l1 = reward_outcome(l0, miner, block.height(), cap)->Ok_0;
    assert(l1.account(miner).balance == l0.account(miner).balance + block_reward(
        block.height() as nat,
    ));
    let l2 = binding_outcome(l1, miner, pending, cap);
    assert(l2.account(miner).balance == l1.account(miner).balance);
    assert(l2.fees == 0);
    law_untouched_account_stays(l2, block.tx_data, cap, miner);
}

/// A governance signal counts once: the first signal of a sender on a
/// proposal records the vote and adds the sender's weight to the tally; a
/// signal of a sender who has voted on the proposal, and a transaction
/// without a proposal, leave tallies and votes as they were.
pub proof fn law_signal_counts_once(l: Ledger, t: TxView, cap_bps: u64)
    requires
        transaction_outcome(l, t, cap_bps) is Ok,
    ensures
        ({
            let after = transaction_outcome(l, t, cap_bps)->Ok_0;
            let sender = t.sender_address@;
            match t.governance_data {
                None => after.tallies == l.tallies && after.votes == l.votes,
                Some(p) => if l.votes.contains(vote_key(p@, sender)) {
                    after.tallies == l.tallies && after.votes == l.votes
                } else {
                    &&& after.votes == l.votes.insert(vote_key(p@, sender))
                    &&& after.tallies == l.tallies.insert(
                        p@,
                        saturating_sum(
                            tally_at(l.tallies, p@),
                            l.account(sender).governance_weight,
                        ),
                    )
                },
            }
        }),
{
}

proof fn lemma_transactions_votes_grow(l: Ledger, txs: Seq<TxView>, cap_bps: u64)
    requires
        transactions_outcome(l, txs, cap_bps) is Ok,
    ensures
        l.votes.subset_of(transactions_outcome(l, txs, cap_bps)->Ok_0.votes),
        (forall|i: int| 0 <= i < txs.len() ==> (#[trigger] txs[i]).governance_data.is_none())
            ==> transactions_outcome(l, txs, cap_bps)->Ok_0.votes == l.votes
            && transactions_outcome(l, txs, cap_bps)->Ok_0.tallies == l.tallies,
    decreases txs.len(),
{
    if txs.len() > 0 {
        lemma_transactions_votes_grow(l, txs.drop_last(), cap_bps);
        let l1 = transactions_outcome(l, txs.drop_last(), cap_bps)->Ok_0;
        law_signal_counts_once(l1, txs.last(), cap_bps);
        if forall|i: int| 0 <= i < txs.len() ==> (#[trigger] txs[i]).governance_data.is_none() {
            assert forall|i: int| 0 <= i < txs.drop_last().len() implies (
            #[trigger] txs.drop_last()[i]).governance_data.is_none() by {
                assert(txs.drop_last()[i] == txs[i]);
            }
            assert(txs.last() == txs[txs.len() - 1]);
        }
    }
}

/// A governance signal that counted: the first signal of a voter on a
/// proposal, with the weight that it added.
pub ghost struct Signal {
    pub proposal: [u8; 32],
    pub voter: [u8; 32],
    pub weight: u64,
}

/// The signals of a run of transactions that counted, in order: the
/// signals of senders who had not voted on their proposal before, each
/// with the sender's governance weight at that moment.
pub open spec fn counted_signals(l: Ledger, txs: Seq<TxView>, cap_bps: u64) -> Seq<Signal>
    decreases txs.len(),
{
    if txs.len() == 0 {
        Seq::<Signal>::empty()
    } else {
        let before = counted_signals(l, txs.drop_last(), cap_bps);
        let t = txs.last();
        match (transactions_outcome(l, txs.drop_last(), cap_bps), t.governance_data) {
            (Ok(l1), Some(p)) => if !l1.votes.contains(vote_key(p@, t.sender_address@))
                && transaction_outcome(l1, t, cap_bps) is Ok {
                before.push(
                    Signal {
                        proposal: p,
                        voter: t.sender_address,
                        weight: l1.account(t.sender_address@).governance_weight,
                    },
                )
            } else {
                before
            },
            _ => before,
        }
    }
}

/// The weights of the signals on a proposal, in order.
pub open spec fn weights_on(signals: Seq<Signal>, proposal: Seq<u8>) -> Seq<u64>
    decreases signals.len(),
{
    if signals.len() == 0 {
        Seq::<u64>::empty()
    } else if signals.last().proposal@ == proposal {
        weights_on(signals.drop_last(), proposal).push(signals.last().weight)
    } else {
        weights_on(signals.drop_last(), proposal)
    }
}

/// `start` and the weights added up, held to `u64::MAX`.
pub open spec fn saturating_total(start: u64, weights: Seq<u64>) -> u64
    decreases weights.len(),
{
    if weights.len() == 0 {
        start
    } else {
        saturating_sum(saturating_total(start, weights.drop_last()), weights.last())
    }
}

/// The votes that signals record.
pub open spec fn votes_of(signals: Seq<Signal>) -> Set<Seq<u8>> {
    Set::new(
        |key: Seq<u8>|
            exists|i: int|
                0 <= i < signals.len() && vote_key(
                    (#[trigger] signals[i]).proposal@,
                    signals[i].voter@,
                ) == key,
    )
}

/// The tally of a proposal is the sum of the governance weights of the
/// distinct voters who signalled it: over any run of applied transactions
/// the tally grows by the weights of the signals that counted, no voter
/// counts twice on a proposal, nobody who had voted before counts again,
/// and the votes recorded are those of the counted signals.
pub proof fn law_tally_sums_distinct_voters(
    l: Ledger,
    txs: Seq<TxView>,
    cap_bps: u64,
    proposal: Seq<u8>,
)
    requires
        transactions_outcome(l, txs, cap_bps) is Ok,
    ensures
        ({
            let after = transactions_outcome(l, txs, cap_bps)->Ok_0;
            let signals = counted_signals(l, txs, cap_bps);
            &&& tally_at(after.tallies, proposal) == saturating_total(
                tally_at(l.tallies, proposal),
                weights_on(signals, proposal),
            )
            &&& after.votes == l.votes + votes_of(signals)
            &&& forall|i: int|
                0 <= i < signals.len() ==> !l.votes.contains(
                    vote_key((#[trigger] signals[i]).proposal@, signals[i].voter@),
                )
            &&& forall|i: int, j: int|
                0 <= i < j < signals.len() && (#[trigger] signals[i]).proposal == (
                #[trigger] signals[j]).proposal ==> signals[i].voter != signals[j].voter
        }),
    decreases txs.len(),
{
    let after = transactions_outcome(l, txs, cap_bps)->Ok_0;
    let signals = counted_signals(l, txs, cap_bps);
    if txs.len() == 0 {
        assert(votes_of(signals) =~= Set::<Seq<u8>>::empty());
        assert(after.votes =~= l.votes + votes_of(signals));
    } else {
        let t = txs.last();
        let l1 = transactions_outcome(l, txs.drop_last(), cap_bps)->Ok_0;
        let before = counted_signals(l, txs.drop_last(), cap_bps);
        law_tally_sums_distinct_voters(l, txs.drop_last(), cap_bps, proposal);
        law_signal_counts_once(l1, t, cap_bps);
        assert(l1.votes == l.votes + votes_of(before));
        match t.governance_data {
            Some(p) => {
                let key = vote_key(p@, t.sender_address@);
                if !l1.votes.contains(key) {
                    let s = Signal {
                        proposal: p,
                        voter: t.sender_address,
                        weight: l1.account(t.sender_address@).governance_weight,
                    };
                    assert(signals == before.push(s));
                    assert(signals.drop_last() =~= before);
                    assert(signals.last() == s);
                    let ws = weights_on(before, proposal);
                    if p@ == proposal {
                        assert(weights_on(signals, proposal) == ws.push(s.weight));
                        assert(ws.push(s.weight).drop_last() =~= ws);
                        assert(ws.push(s.weight).last() == s.weight);
                    } else {
                        assert(weights_on(signals, proposal) == ws);
                    }
                    assert(tally_at(after.tallies, proposal) == saturating_total(
                        tally_at(l.tallies, proposal),
                        weights_on(signals, proposal),
                    ));
                    assert forall|k: Seq<u8>| votes_of(signals).contains(k) <==> (votes_of(
                        before,
                    ).contains(k) || k == key) by {
                        if votes_of(signals).contains(k) {
                            let i = choose|i: int|
                                0 <= i < signals.len() && vote_key(
                                    (#[trigger] signals[i]).proposal@,
                                    signals[i].voter@,
                                ) == k;
                            if i < before.len() {
                                assert(signals[i] == before[i]);
                            }
                        }
                        if votes_of(before).contains(k) {
                            let i = choose|i: int|
                                0 <= i < before.len() && vote_key(
                                    (#[trigger] before[i]).proposal@,
                                    before[i].voter@,
                                ) == k;
                            assert(signals[i] == before[i]);
                        }
                        if k == key {
                            assert(vote_key(
                                signals[signals.len() - 1].proposal@,
                                signals[signals.len() - 1].voter@,
                            ) == k);
                        }
                    }
                    assert(after.votes =~= l.votes + votes_of(signals));
                    assert forall|i: int| 0 <= i < signals.len() implies !l.votes.contains(
                        vote_key((#[trigger] signals[i]).proposal@, signals[i].voter@),
                    ) by {
                        if i < before.len() {
                            assert(signals[i] == before[i]);
                        }
                    }
                    assert forall|i: int, j: int|
                        0 <= i < j < signals.len() && (#[trigger] signals[i]).proposal == (
                        #[trigger] signals[j]).proposal implies signals[i].voter
                        != signals[j].voter by {
                        assert(signals[i] == before[i]);
                        if j < before.len() {
                            assert(signals[j] == before[j]);
                        } else {
                            // an earlier signal of this voter on this proposal would be recorded
                            if signals[i].voter == s.voter {
                                assert(votes_of(before).contains(
                                    vote_key(before[i].proposal@, before[i].voter@),
                                ));
                            }
                        }
                    }
                } else {
                    assert(signals == before);
                }
            },
            None => {
                assert(signals == before);
            },
        }
    }
}

/// The signals of a block that counted on the store `view`.
pub open spec fn block_signals(view: ChainView, block: BlockView, pending: Option<[u8; 32]>) -> Seq<
    Signal,
> {
    let cap = view.params.cap_bps;
    match reward_outcome(Ledger::start(view), block.miner_address, block.height(), cap) {
        Err(_) => Seq::<Signal>::empty(),
        Ok(l1) => counted_signals(
            binding_outcome(l1, block.miner_address, pending, cap),
            block.tx_data,
            cap,
        ),
    }
}

/// No two of the signals are of one voter on one proposal, and none is of
/// a vote in `votes`.
pub open spec fn fresh_and_distinct(signals: Seq<Signal>, votes: Set<Seq<u8>>) -> bool {
    &&& forall|i: int|
        0 <= i < signals.len() ==> !votes.contains(
            vote_key((#[trigger] signals[i]).proposal@, signals[i].voter@),
        )
    &&& forall|i: int, j: int|
        0 <= i < j < signals.len() && (#[trigger] signals[i]).proposal == (
        #[trigger] signals[j]).proposal ==> signals[i].voter != signals[j].voter
}

/// An applied block adds to the tally of a proposal the weights of the
/// voters who signal it in the block for the first time, each once, and
/// records their votes.
pub proof fn law_block_tally_sums_distinct_voters(
    view: ChainView,
    block: BlockView,
    pending: Option<[u8; 32]>,
    pow_hash: Seq<u8>,
    now: u64,
    proposal: Seq<u8>,
)
    requires
        block_outcome(view, block, pending, pow_hash, now) is Ok,
    ensures
        ({
            let after = block_outcome(view, block, pending, pow_hash, now)->Ok_0;
            let signals = block_signals(view, block, pending);
            &&& tally_at(after.tallies, proposal) == saturating_total(
                tally_at(view.tallies, proposal),
                weights_on(signals, proposal),
            )
            &&& after.votes == view.votes + votes_of(signals)
            &&& fresh_and_distinct(signals, view.votes)
        }),
{
    let cap = view.params.cap_bps;
    let l0 = Ledger::start(view);
    let l1 = reward_outcome(l0, block.miner_address, block.height(), cap)->Ok_0;
    let l2 = binding_outcome(l1, block.miner_address, pending, cap);
    law_tally_sums_distinct_voters(l2, block.tx_data, cap, proposal);
}

/// Votes are never taken back, and tallies and votes move through
/// governance signals only: a block without a signal leaves them as they
/// were.
pub proof fn law_tallies_move_by_signals_only(
    view: ChainView,
    block: BlockView,
    pending: Option<[u8; 32]>,
    pow_hash: Seq<u8>,
    now: u64,
)
    requires
        block_outcome(view, block, pending, pow_hash, now) is Ok,
    ensures
        ({
            let after = block_outcome(view, block, pending, pow_hash, now)->Ok_0;
            &&& view.votes.subset_of(after.votes)
            &&& (forall|i: int|
                0 <= i < block.tx_data.len() ==> (#[trigger] block.tx_data[i]).governance_data.is_none())
                ==> after.votes == view.votes && after.tallies == view.tallies
        }),
{
    let cap = view.params.cap_bps;
    let l0 = Ledger::start(view);
    let l1 = reward_outcome(l0, block.miner_address, block.height(), cap)->Ok_0;
    let l2 = binding_outcome(l1, block.miner_address, pending, cap);
    lemma_transactions_votes_grow(l2, block.tx_data, cap);
}

/// The writes collected while a block is being applied.
struct Pending {
    accounts: ByteMap<AccountState, 32>,
    tallies: ByteMap<u64, 32>,
    votes: ByteMap<u8, 64>,
    seen: ByteMap<u8, 32>,
    fees: u64,
}

impl Pending {
    spec fn wf(&self) -> bool {
        &&& self.accounts.wf()
        &&& self.tallies.wf()
        &&& self.votes.wf()
        &&& self.seen.wf()
    }

    /// The ledger that the store and the collected writes stand for.
    spec fn ledger(&self, view: ChainView) -> Ledger {
        Ledger {
            accounts: view.accounts.union_prefer_right(self.accounts@),
            touched: self.accounts.key_seq(),
            tallies: view.tallies.union_prefer_right(self.tallies@),
            votes: view.votes + self.votes@.dom(),
            seen: self.seen@.dom(),
            fees: self.fees,
        }
    }

    fn new(Ghost(view): Ghost<ChainView>) -> (p: Self)
        ensures
            p.wf(),
            p.ledger(view) == Ledger::start(view),
    {
        let p = Pending {
            accounts: ByteMap::new(),
            tallies: ByteMap::new(),
            votes: ByteMap::new(),
            seen: ByteMap::new(),
            fees: 0,
        };
        proof {
            assert(view.accounts.union_prefer_right(p.accounts@) =~= view.accounts);
            assert(view.tallies.union_prefer_right(p.tallies@) =~= view.tallies);
            assert(view.votes + p.votes@.dom() =~= view.votes);
            assert(p.seen@.dom() =~= Set::<Seq<u8>>::empty());
            assert(p.accounts.key_seq() =~= Seq::<Seq<u8>>::empty());
        }
        p
    }

    /// The account at `addr` as the block has left it so far.
    fn load(&self, state: &ChainState, addr: &[u8; 32]) -> (a: AccountState)
        requires
            self.wf(),
            state.wf(),
        ensures
            a == self.ledger(state@).account(addr@),
    {
        match self.accounts.get(addr) {
            Some(a) => *a,
            None => state.get_account(addr),
        }
    }

    /// Writes an account.
    fn store(&mut self, Ghost(view): Ghost<ChainView>, addr: &[u8; 32], account: AccountState)
        requires
            old(self).wf(),
        ensures
            final(self).wf(),
            final(self).ledger(view) == old(self).ledger(view).write(addr@, account),
    {
        proof {
            self.accounts.lemma_entries();
        }
        self.accounts.insert(*addr, account);
        proof {
            assert(view.accounts.union_prefer_right(self.accounts@) =~= view.accounts.union_prefer_right(
                old(self).accounts@,
            ).insert(addr@, account));
            let touched = old(self).accounts.key_seq();
            if old(self).accounts@.contains_key(addr@) {
                let i = choose|i: int| 0 <= i < touched.len() && #[trigger] touched[i] == addr@;
                assert(touched.contains(addr@));
            } else {
                if touched.contains(addr@) {
                    let i = choose|i: int| 0 <= i < touched.len() && touched[i] == addr@;
                    assert(old(self).accounts@.contains_key(touched[i]));
                }
            }
        }
    }

    /// Records a governance signal of `voter`.
    fn vote(&mut self, state: &ChainState, proposal: &[u8; 32], voter: &[u8; 32])
        requires
            old(self).wf(),
            state.wf(),
        ensures
            final(self).wf(),
            final(self).ledger(state@) == old(self).ledger(state@).vote(proposal@, voter@),
    {
        let key = make_vote_key(proposal, voter);
        if self.votes.contains(&key) || state.get_governance_vote_exists(proposal, voter) {
            return ;
        }
        let current = match self.tallies.get(proposal) {
            Some(t) => *t,
            None => state.get_governance_tally(proposal),
        };
        let weight = self.load(state, voter).governance_weight;
        self.tallies.insert(*proposal, current.saturating_add(weight));
        self.votes.insert(key, 1);
        proof {
            let view = state@;
            assert(view.tallies.union_prefer_right(self.tallies@) =~= view.tallies.union_prefer_right(
                old(self).tallies@,
            ).insert(proposal@, saturating_sum(current, weight)));
            assert(view.votes + self.votes@.dom() =~= (view.votes + old(self).votes@.dom()).insert(
                key@,
            ));
        }
    }
}


/// Step of reward assembly.
fn credit_reward(state: &ChainState, p: &mut Pending, miner: &[u8; 32], height: u32) -> (r: Result<
    (),
    StateError,
>)
    requires
        old(p).wf(),
        state.wf(),
    ensures
        final(p).wf(),
        match r {
            Ok(_) => reward_outcome(old(p).ledger(state@), miner@, height, state@.params.cap_bps)
                == Ok::<Ledger, StateError>(final(p).ledger(state@)),
            Err(e) => reward_outcome(old(p).ledger(state@), miner@, height, state@.params.cap_bps)
                == Err::<Ledger, StateError>(e),
        },
{
    let cap = state.get_governance_params().cap_bps;
    let reward = calculate_block_reward(height as u64);
    let mut m = p.load(state, miner);
    let referrer = m.referrer;
    m.balance = match m.balance.checked_add(reward) {
        Some(b) => b,
        None => {
            return Err(StateError::MathOverflow);
        },
    };
    m.last_mined_height = height as u64;
    m.total_blocks_mined = m.total_blocks_mined.saturating_add(1);
    m.governance_weight = calculate_governance_weight(m.total_blocks_mined, cap);
    p.store(Ghost(state@), miner, m);
    match referrer {
        None => Ok(()),
        Some(r) => {
            let mut ra = p.load(state, &r);
            let bonus = calculate_referral_bonus(
                reward,
                ra.total_blocks_mined,
                ra.last_mined_height,
                height as u64,
            );
            if bonus == 0 {
                return Ok(());
            }
            let balance = ra.balance.checked_add(bonus);
            let earned = ra.total_referral_bonus_earned.checked_add(bonus);
            match (balance, earned) {
                (Some(b), Some(e)) => {
                    ra.balance = b;
                    ra.total_referral_bonus_earned = e;
                    ra.governance_weight = calculate_governance_weight(ra.total_referred_miners, cap);
                    p.store(Ghost(state@), &r, ra);
                    Ok(())
                },
                _ => Err(StateError::MathOverflow),
            }
        },
    }
}

/// Step of first-block referrer binding.
fn bind_referrer(state: &ChainState, p: &mut Pending, miner: &[u8; 32], pending: Option<[u8; 32]>)
    requires
        old(p).wf(),
        state.wf(),
    ensures
        final(p).wf(),
        final(p).ledger(state@) == binding_outcome(
            old(p).ledger(state@),
            miner@,
            pending,
            state@.params.cap_bps,
        ),
{
    let cap = state.get_governance_params().cap_bps;
    let mut m = p.load(state, miner);
    if let Some(ref_addr) = pending {
        if m.referrer.is_none() && m.total_blocks_mined == 1 && !array_eq(&ref_addr, miner) {
            m.referrer = Some(ref_addr);
            p.store(Ghost(state@), miner, m);
            let mut up = p.load(state, &ref_addr);
            up.total_referred_miners = up.total_referred_miners.saturating_add(1);
            up.governance_weight = calculate_governance_weight(up.total_referred_miners, cap);
            p.store(Ghost(state@), &ref_addr, up);
        }
    }
}

/// Step of referral registration.
fn register_referrer(
    state: &ChainState,
    p: &mut Pending,
    sender: &[u8; 32],
    referrer: &[u8; 32],
) -> (r: Result<(), StateError>)
    requires
        old(p).wf(),
        state.wf(),
    ensures
        final(p).wf(),
        match r {
            Ok(_) => registration_outcome(
                old(p).ledger(state@),
                sender@,
                *referrer,
                state@.params.cap_bps,
            ) == Ok::<Ledger, StateError>(final(p).ledger(state@)),
            Err(e) => registration_outcome(
                old(p).ledger(state@),
                sender@,
                *referrer,
                state@.params.cap_bps,
            ) == Err::<Ledger, StateError>(e),
        },
{
    let cap = state.get_governance_params().cap_bps;
    if array_eq(referrer, sender) {
        return Err(StateError::SelfReferral);
    }
    let mut s = p.load(state, sender);
    if s.referrer.is_some() {
        return Err(StateError::DuplicateReferrer);
    }
    s.referrer = Some(*referrer);
    p.store(Ghost(state@), sender, s);
    let mut up = p.load(state, referrer);
    up.total_referred_miners = match up.total_referred_miners.checked_add(1) {
        Some(n) => n,
        None => {
            return Err(StateError::MathOverflow);
        },
    };
    up.governance_weight = calculate_governance_weight(up.total_referred_miners, cap);
    p.store(Ghost(state@), referrer, up);
    Ok(())
}

/// Applies one transaction of a block to the collected writes.
fn apply_transaction(state: &ChainState, p: &mut Pending, tx: &StoredTransaction) -> (r: Result<
    (),
    StateError,
>)
    requires
        old(p).wf(),
        state.wf(),
    ensures
        final(p).wf(),
        match r {
            Ok(_) => transaction_outcome(old(p).ledger(state@), tx@, state@.params.cap_bps)
                == Ok::<Ledger, StateError>(final(p).ledger(state@)),
            Err(e) => transaction_outcome(old(p).ledger(state@), tx@, state@.params.cap_bps)
                == Err::<Ledger, StateError>(e),
        },
{
    let domain_tx = match Transaction::try_from(tx) {
        Ok(t) => t,
        Err(e) => {
            return Err(StateError::InvalidTransaction(e));
        },
    };
    let txid = match domain_tx.checked_txid() {
        Some(id) => id,
        None => {
            return Err(StateError::InvalidTransaction("structural or signature failure"));
        },
    };
    if p.seen.contains(&txid) {
        return Err(StateError::InvalidTransaction("duplicate transaction in block"));
    }
    let mut sender = p.load(state, &tx.sender_address);
    let want = match sender.nonce.checked_add(1) {
        Some(n) => n,
        None => {
            return Err(StateError::MathOverflow);
        },
    };
    if tx.nonce != want {
        return Err(StateError::InvalidNonce { expected: want, got: tx.nonce });
    }
    let debit = tx.amount + tx.fee;
    if sender.balance < debit {
        return Err(StateError::InsufficientBalance);
    }
    sender.balance = sender.balance - debit;
    sender.nonce = tx.nonce;
    let ghost l0 = p.ledger(state@);
    p.store(Ghost(state@), &tx.sender_address, sender);
    let mut recipient = p.load(state, &tx.recipient_address);
    let credited = recipient.balance.checked_add(tx.amount);
    let fees = p.fees.checked_add(tx.fee);
    match (credited, fees) {
        (Some(b), Some(f)) => {
            recipient.balance = b;
            p.store(Ghost(state@), &tx.recipient_address, recipient);
            let ghost l1 = p.ledger(state@);
            p.fees = f;
            p.seen.insert(txid, 1);
            proof {
                assert(p.seen@.dom() =~= old(p).seen@.dom().insert(txid@));
                assert(p.ledger(state@) == Ledger {
                    fees: f,
                    seen: l0.seen.insert(txid_of(tx@)),
                    ..l1
                });
            }
        },
        _ => {
            return Err(StateError::MathOverflow);
        },
    }
    if let Some(proposal) = tx.governance_data {
        p.vote(state, &proposal, &tx.sender_address);
    }
    if tx.nonce == 1 {
        if let Some(ref_addr) = tx.referrer_address {
            return register_referrer(state, p, &tx.sender_address, &ref_addr);
        }
    }
    Ok(())
}

/// Credits the collected fees to the miner.
fn credit_fees(state: &ChainState, p: &mut Pending, miner: &[u8; 32]) -> (r: Result<(), StateError>)
    requires
        old(p).wf(),
        state.wf(),
    ensures
        final(p).wf(),
        match r {
            Ok(_) => fees_outcome(old(p).ledger(state@), miner@) == Ok::<Ledger, StateError>(
                final(p).ledger(state@),
            ),
            Err(e) => fees_outcome(old(p).ledger(state@), miner@) == Err::<Ledger, StateError>(e),
        },
{
    let mut m = p.load(state, miner);
    m.balance = match m.balance.checked_add(p.fees) {
        Some(b) => b,
        None => {
            return Err(StateError::MathOverflow);
        },
    };
    p.store(Ghost(state@), miner, m);
    Ok(())
}

/// Once a transaction has failed, every longer run of the block fails with
/// its error.
proof fn lemma_transactions_error(l: Ledger, txs: Seq<TxView>, i: int, cap_bps: u64)
    requires
        0 <= i <= txs.len(),
        transactions_outcome(l, txs.take(i), cap_bps) is Err,
    ensures
        transactions_outcome(l, txs, cap_bps) == transactions_outcome(l, txs.take(i), cap_bps),
    decreases txs.len() - i,
{
    if i < txs.len() {
        assert(txs.take(i + 1).drop_last() =~= txs.take(i));
        lemma_transactions_error(l, txs, i + 1, cap_bps);
    } else {
        assert(txs.take(i) =~= txs);
    }
}

/// Validates a block against the store and assembles its writes; the store
/// is not changed.
///
/// `pow_hash` is the hash that the proof-of-work engine computed over the
/// block's header prefix and nonce, `now` the clock in seconds.
#[verifier::loop_isolation(false)]
pub fn build_block_commit(
    state: &ChainState,
    block: &StoredBlock,
    pending_referrer: Option<[u8; 32]>,
    pow_hash: &[u8; 32],
    now: u64,
) -> (r: Result<BlockCommit, StateError>)
    requires
        state.wf(),
    ensures
        match r {
            Ok(c) => c.wf() && c.block@ == block@ && c.hash@ == block_hash_of(block@)
                && block_outcome(state@, block@, pending_referrer, pow_hash@, now) == Ok::<
                ChainView,
                StateError,
            >(
                state@.committed(
                    c.hash,
                    c.block@,
                    c.accounts@,
                    c.accounts.key_seq(),
                    c.tallies@,
                    c.votes@.dom(),
                ),
            ),
            Err(e) => block_outcome(state@, block@, pending_referrer, pow_hash@, now) == Err::<
                ChainView,
                StateError,
            >(e),
        },
{
    let hash = block_hash(block);
    if state.has_block(&hash) {
        return Err(StateError::AlreadyKnown);
    }
    match check_block_time(state, block, now) {
        Err(e) => {
            return Err(e);
        },
        Ok(_) => {},
    }
    match verify_block_pow(block, pow_hash) {
        Err(e) => {
            return Err(e);
        },
        Ok(_) => {},
    }
    let height = block.height();
    let ghost cap = state@.params.cap_bps;
    let mut p = Pending::new(Ghost(state@));
    match credit_reward(state, &mut p, &block.miner_address, height) {
        Err(e) => {
            return Err(e);
        },
        Ok(_) => {},
    }
    bind_referrer(state, &mut p, &block.miner_address, pending_referrer);
    let ghost l_start = p.ledger(state@);
    let mut i: usize = 0;
    assert(block@.tx_data.take(0) =~= Seq::<TxView>::empty());
    while i < block.tx_data.len()
        invariant
            state.wf(),
            p.wf(),
            cap == state@.params.cap_bps,
            i <= block.tx_data@.len(),
            block@.tx_data.len() == block.tx_data@.len(),
            transactions_outcome(l_start, block@.tx_data.take(i as int), cap) == Ok::<
                Ledger,
                StateError,
            >(p.ledger(state@)),
        decreases block.tx_data@.len() - i,
    {
        proof {
            assert(block@.tx_data.take(i + 1).drop_last() =~= block@.tx_data.take(i as int));
            assert(block@.tx_data.take(i + 1).last() == block.tx_data@[i as int]@);
        }
        match apply_transaction(state, &mut p, &block.tx_data[i]) {
            Err(e) => {
                proof {
                    lemma_transactions_error(l_start, block@.tx_data, i + 1, cap);
                }
                return Err(e);
            },
            Ok(_) => {},
        }
        i += 1;
    }
    assert(block@.tx_data.take(i as int) =~= block@.tx_data);
    match credit_fees(state, &mut p, &block.miner_address) {
        Err(e) => {
            return Err(e);
        },
        Ok(_) => {},
    }
    proof {
        lemma_array32(hash);
    }
    let Pending { accounts, tallies, votes, seen, fees } = p;
    Ok(BlockCommit { hash, block: block.duplicate(), accounts, tallies, votes })
}

/// Applies a block and, on its first block, binds the miner to a pending
/// referrer. A refused block changes nothing.
pub fn apply_block_with_referrer(
    state: &mut ChainState,
    block: &StoredBlock,
    pending_referrer: Option<[u8; 32]>,
    pow_hash: &[u8; 32],
    now: u64,
) -> (r: Result<(), StateError>)
    requires
        old(state).wf(),
    ensures
        final(state).wf(),
        match r {
            Ok(_) => block_outcome(old(state)@, block@, pending_referrer, pow_hash@, now) == Ok::<
                ChainView,
                StateError,
            >(final(state)@),
            Err(e) => block_outcome(old(state)@, block@, pending_referrer, pow_hash@, now) == Err::<
                ChainView,
                StateError,
            >(e) && final(state)@ == old(state)@,
        },
{
    match build_block_commit(state, block, pending_referrer, pow_hash, now) {
        Err(e) => Err(e),
        Ok(commit) => {
            state.apply_batch(&commit);
            Ok(())
        },
    }
}

/// Applies a block.
pub fn apply_block(state: &mut ChainState, block: &StoredBlock, pow_hash: &[u8; 32], now: u64) -> (r:
    Result<(), StateError>)
    requires
        old(state).wf(),
    ensures
        final(state).wf(),
        match r {
            Ok(_) => block_outcome(old(state)@, block@, None, pow_hash@, now) == Ok::<
                ChainView,
                StateError,
            >(final(state)@),
            Err(e) => block_outcome(old(state)@, block@, None, pow_hash@, now) == Err::<
                ChainView,
                StateError,
            >(e) && final(state)@ == old(state)@,
        },
{
    apply_block_with_referrer(state, block, None, pow_hash, now)
}

} // verus!
