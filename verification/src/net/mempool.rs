use vstd::prelude::*;
use crate::bytes::{array_eq, be_le, be_value, lemma_be_value_injective};
use crate::node::db_common::{StoredTransaction, TxView};
use crate::primitives::transaction::{stored_txid, structurally_valid, txid_of, Transaction};

verus! {

/// Most transactions that the pool holds.
pub const MAX_MEMPOOL_SIZE: usize = 5000;

/// A pending transaction with its identifier and its priority.
#[derive(Debug, Clone)]
pub struct MempoolEntry {
    pub tx: StoredTransaction,
    pub txid: [u8; 32],
    /// fee · 10000 / size, in integers so that every node orders alike.
    pub fee_per_byte_scaled: u128,
}

/// The pool of pending transactions, in the order of admission.
pub struct Mempool {
    entries: Vec<MempoolEntry>,
}

/// The size in bytes that a transaction is counted with.
pub open spec fn tx_size(t: TxView) -> nat {
    let referrer: nat = if t.referrer_address.is_some() {
        32
    } else {
        0
    };
    let proposal: nat = if t.governance_data.is_some() {
        32
    } else {
        0
    };
    5368 + referrer + proposal
}

/// The priority of a transaction: fee · 10000 / size.
pub open spec fn fee_rate(t: TxView) -> nat {
    (t.fee as nat * 10000) / tx_size(t)
}

/// Two transactions compete for one place: same sender, same nonce.
pub open spec fn same_slot(a: TxView, b: TxView) -> bool {
    a.sender_address == b.sender_address && a.nonce == b.nonce
}

/// The lowest fee that replaces a pending transaction of fee `existing`:
/// 110% of it, and at least one knot more.
pub open spec fn min_replacement_fee(existing: u64) -> nat {
    (existing + (if existing / 10 >= 1 {
        existing / 10
    } else {
        1
    })) as nat
}

/// `a` comes before `b` in a block template: higher priority first, and
/// among equals the smaller identifier.
pub open spec fn ranks_before(a: TxView, b: TxView) -> bool {
    fee_rate(a) > fee_rate(b) || (fee_rate(a) == fee_rate(b) && be_value(txid_of(a)) < be_value(
        txid_of(b),
    ))
}

/// Whether the pool holds a transaction with this identifier.
pub open spec fn holds_txid(pool: Seq<TxView>, txid: Seq<u8>) -> bool {
    exists|i: int| 0 <= i < pool.len() && txid_of(#[trigger] pool[i]) == txid
}

/// Whether a pending transaction takes the place that `t` asks for.
pub open spec fn slot_taken(pool: Seq<TxView>, t: TxView) -> bool {
    exists|i: int| 0 <= i < pool.len() && same_slot(#[trigger] pool[i], t)
}

/// The position of the pending transaction in `t`'s place.
pub open spec fn slot_position(pool: Seq<TxView>, t: TxView) -> int {
    choose|i: int| 0 <= i < pool.len() && same_slot(#[trigger] pool[i], t)
}

/// Position `i` holds the transaction that is evicted from a full pool: the
/// earliest admitted among those of the lowest priority.
pub open spec fn is_eviction_position(pool: Seq<TxView>, i: int) -> bool {
    &&& 0 <= i < pool.len()
    &&& forall|j: int| 0 <= j < pool.len() ==> fee_rate(pool[i]) <= fee_rate(#[trigger] pool[j])
    &&& forall|j: int| 0 <= j < i ==> fee_rate(pool[i]) < fee_rate(#[trigger] pool[j])
}

/// The position of the transaction that is evicted from a full pool.
pub open spec fn eviction_position(pool: Seq<TxView>) -> int {
    choose|i: int| is_eviction_position(pool, i)
}

/// A pool holds no identifier twice, no (sender, nonce) twice, only
/// identifiers of 32 bytes, and at most 5000 transactions.
pub open spec fn pool_valid(pool: Seq<TxView>) -> bool {
    &&& pool.len() <= 5000
    &&& forall|i: int, j: int|
        0 <= i < j < pool.len() ==> txid_of(#[trigger] pool[i]) != txid_of(#[trigger] pool[j])
    &&& forall|i: int, j: int|
        0 <= i < j < pool.len() ==> !same_slot(#[trigger] pool[i], #[trigger] pool[j])
    &&& forall|i: int| 0 <= i < pool.len() ==> txid_of(#[trigger] pool[i]).len() == 32
}

/// The pool after room has been made for one more transaction.
pub open spec fn with_room(pool: Seq<TxView>) -> Seq<TxView> {
    if pool.len() >= 5000 {
        pool.remove(eviction_position(pool))
    } else {
        pool
    }
}

/// Admission of `t`: the pool with `t` in it, or the reason why `t` was refused.
pub open spec fn admission(pool: Seq<TxView>, t: TxView) -> Result<Seq<TxView>, &'static str> {
    if t.sender_pubkey.len() != 1952 {
        Err("invalid public key length")
    } else if t.signature.len() != 3309 {
        Err("invalid signature length")
    } else if !structurally_valid(t) {
        Err("structural or signature validation failed")
    } else if t.fee < 1 {
        Err("fee below minimum (1 knot)")
    } else if holds_txid(pool, txid_of(t)) {
        Err("duplicate transaction")
    } else if slot_taken(pool, t) {
        if t.fee < min_replacement_fee(pool[slot_position(pool, t)].fee) {
            Err("replacement fee too low (must be >= 110% of existing)")
        } else {
            Ok(with_room(pool.remove(slot_position(pool, t))).push(t))
        }
    } else {
        Ok(with_room(pool).push(t))
    }
}

/// Among the first `n` pending there is one of the lowest priority that is
/// the earliest of its priority.
proof fn lemma_lowest_of_prefix(pool: Seq<TxView>, n: int) -> (best: int)
    requires
        1 <= n <= pool.len(),
    ensures
        0 <= best < n,
        forall|j: int| 0 <= j < n ==> fee_rate(pool[best]) <= fee_rate(#[trigger] pool[j]),
        forall|j: int| 0 <= j < best ==> fee_rate(pool[best]) < fee_rate(#[trigger] pool[j]),
    decreases n,
{
    if n == 1 {
        0
    } else {
        let b = lemma_lowest_of_prefix(pool, n - 1);
        if fee_rate(pool[n - 1]) < fee_rate(pool[b]) {
            n - 1
        } else {
            b
        }
    }
}

/// Pool bound: a full pool admits a new transaction by evicting one of its
/// own of the lowest priority, the earliest admitted among equals; it stays
/// full, and the others stay in their order with the new one behind them.
pub proof fn law_full_pool_evicts_lowest(pool: Seq<TxView>, t: TxView)
    requires
        pool_valid(pool),
        pool.len() == 5000,
        admission(pool, t) is Ok,
        !slot_taken(pool, t),
    ensures
        ({
            let e = eviction_position(pool);
            let after = admission(pool, t)->Ok_0;
            &&& 0 <= e < pool.len()
            &&& forall|j: int| 0 <= j < pool.len() ==> fee_rate(pool[e]) <= fee_rate(#[trigger] pool[j])
            &&& forall|j: int| 0 <= j < e ==> fee_rate(pool[e]) < fee_rate(#[trigger] pool[j])
            &&& after == pool.remove(e).push(t)
            &&& after.len() == 5000
            &&& !holds_txid(after, txid_of(pool[e]))
        }),
{
    let best = lemma_lowest_of_prefix(pool, pool.len() as int);
    assert(is_eviction_position(pool, best));
    let e = eviction_position(pool);
    let after = pool.remove(e).push(t);
    assert(!holds_txid(pool, txid_of(t)));
    assert forall|k: int| 0 <= k < after.len() implies txid_of(#[trigger] after[k]) != txid_of(
        pool[e],
    ) by {
        if k < e {
            assert(after[k] == pool[k]);
        } else if k < after.len() - 1 {
            assert(after[k] == pool[k + 1]);
        } else {
            assert(after[k] == t);
            assert(txid_of(pool[e]) != txid_of(t));
        }
    }
}

/// Replace-by-fee: where a pending transaction takes the place that `t`
/// asks for, a `t` that pays at least 110% of its fee is admitted, the
/// pending one is gone and `t` is in the pool; a `t` that pays less is
/// refused.
pub proof fn law_replace_by_fee(pool: Seq<TxView>, t: TxView)
    requires
        pool_valid(pool),
        t.sender_pubkey.len() == 1952,
        t.signature.len() == 3309,
        structurally_valid(t),
        !holds_txid(pool, txid_of(t)),
        slot_taken(pool, t),
    ensures
        ({
            let pending = pool[slot_position(pool, t)];
            if t.fee >= min_replacement_fee(pending.fee) {
                &&& admission(pool, t) is Ok
                &&& !holds_txid(admission(pool, t)->Ok_0, txid_of(pending))
                &&& holds_txid(admission(pool, t)->Ok_0, txid_of(t))
            } else {
                admission(pool, t) is Err
            }
        }),
{
    let s = slot_position(pool, t);
    assert(0 <= s < pool.len() && same_slot(pool[s], t));
    let pending = pool[s];
    if t.fee >= min_replacement_fee(pending.fee) {
        let freed = pool.remove(s);
        let room = with_room(freed);
        let after = room.push(t);
        assert(admission(pool, t) == Ok::<Seq<TxView>, &'static str>(after));
        assert(after[after.len() - 1] == t);
        assert(txid_of(pool[s]) != txid_of(t));
        assert forall|k: int| 0 <= k < freed.len() implies txid_of(#[trigger] freed[k]) != txid_of(
            pending,
        ) by {
            let k0 = if k < s { k } else { k + 1 };
            assert(freed[k] == pool[k0]);
        }
        assert forall|k: int| 0 <= k < room.len() implies txid_of(#[trigger] room[k]) != txid_of(
            pending,
        ) by {
            if freed.len() >= 5000 {
                let e = eviction_position(freed);
                if 0 <= e < freed.len() {
                    let k0 = if k < e { k } else { k + 1 };
                    assert(room[k] == freed[k0]);
                } else {
                    assert(room[k] == freed[k]);
                }
            }
        }
        assert forall|k: int| 0 <= k < after.len() implies txid_of(#[trigger] after[k])
            != txid_of(pending) by {
            if k < room.len() {
                assert(after[k] == room[k]);
            }
        }
    }
}

/// `top` is the block template of at most `max_count` transactions: the
/// pending transactions that rank first, in their order.
pub open spec fn is_template(pool: Seq<TxView>, top: Seq<TxView>, max_count: nat) -> bool {
    &&& top.len() == (if max_count <= pool.len() {
        max_count
    } else {
        pool.len()
    })
    &&& forall|i: int| 0 <= i < top.len() ==> pool.contains(#[trigger] top[i])
    &&& forall|i: int, j: int|
        0 <= i < j < top.len() ==> ranks_before(#[trigger] top[i], #[trigger] top[j])
    &&& forall|i: int, k: int|
        0 <= i < top.len() && 0 <= k < pool.len() && !top.contains(pool[k]) ==> ranks_before(
            #[trigger] top[i],
            #[trigger] pool[k],
        )
}

/// The pending transactions whose identifier is none of `txids`, in order.
pub open spec fn without_txids(pool: Seq<TxView>, txids: Seq<Seq<u8>>) -> Seq<TxView> {
    pool.filter(|t: TxView| !txids.contains(txid_of(t)))
}

/// The highest nonce among the first `n` pending transactions of `sender`.
pub open spec fn highest_nonce(pool: Seq<TxView>, sender: Seq<u8>, n: nat) -> Option<u64>
    decreases n,
{
    if n == 0 {
        None
    } else {
        let before = highest_nonce(pool, sender, (n - 1) as nat);
        let t = pool[n - 1];
        if t.sender_address@ != sender {
            before
        } else {
            match before {
                Some(m) => if m >= t.nonce {
                    Some(m)
                } else {
                    Some(t.nonce)
                },
                None => Some(t.nonce),
            }
        }
    }
}

impl Mempool {
    /// The pending transactions in the order of admission.
    pub closed spec fn view(&self) -> Seq<TxView> {
        Seq::new(self.entries@.len(), |i: int| self.entries@[i].tx@)
    }

    /// Well-formedness: the pool is valid, and every entry carries the
    /// identifier and the priority of its transaction.
    pub closed spec fn wf(&self) -> bool {
        &&& pool_valid(self@)
        &&& forall|i: int|
            0 <= i < self.entries@.len() ==> (#[trigger] self.entries@[i]).txid@ == txid_of(
                self.entries@[i].tx@,
            )
        &&& forall|i: int|
            0 <= i < self.entries@.len() ==> (#[trigger] self.entries@[i]).fee_per_byte_scaled
                == fee_rate(self.entries@[i].tx@)
    }

    /// A well-formed pool holds a valid sequence of transactions, the one
    /// that the laws of admission speak of.
    pub proof fn lemma_wf_valid(&self)
        requires
            self.wf(),
        ensures
            pool_valid(self@),
    {
    }

    pub fn new() -> (pool: Self)
        ensures
            pool.wf(),
            pool@ == Seq::<TxView>::empty(),
    {
        let pool = Mempool { entries: Vec::new() };
        assert(pool@ =~= Seq::<TxView>::empty());
        pool
    }

    /// The identifier of a stored transaction.
    pub fn compute_txid_from_stored(tx: &StoredTransaction) -> (id: [u8; 32])
        ensures
            id@ == txid_of(tx@),
    {
        Self::compute_txid(tx)
    }

    /// The identifier of a stored transaction.
    pub fn compute_txid(tx: &StoredTransaction) -> (id: [u8; 32])
        ensures
            id@ == txid_of(tx@),
    {
        stored_txid(tx)
    }

    /// The size in bytes that a transaction is counted with.
    pub fn estimate_tx_size(tx: &StoredTransaction) -> (n: usize)
        ensures
            n == tx_size(tx@),
    {
        let mut base: usize = 1 + 32 + 4 + 1952 + 32 + 8 + 8 + 8 + 8 + 1 + 1 + 4 + 3309;
        if tx.referrer_address.is_some() {
            base += 32;
        }
        if tx.governance_data.is_some() {
            base += 32;
        }
        base
    }

    /// Number of pending transactions.
    pub fn size(&self) -> (n: usize)
        ensures
            n == self@.len(),
    {
        self.entries.len()
    }

    /// Position of the entry with this identifier.
    fn find_txid(&self, txid: &[u8; 32]) -> (r: Option<usize>)
        requires
            self.wf(),
        ensures
            match r {
                Some(i) => i < self@.len() && txid_of(self@[i as int]) == txid@,
                None => !holds_txid(self@, txid@),
            },
    {
        let mut i: usize = 0;
        while i < self.entries.len()
            invariant
                self.wf(),
                i <= self.entries@.len(),
                forall|j: int| 0 <= j < i ==> txid_of(#[trigger] self@[j]) != txid@,
            decreases self.entries@.len() - i,
        {
            if array_eq(&self.entries[i].txid, txid) {
                return Some(i);
            }
            i += 1;
        }
        None
    }

    /// Position of the entry that takes the place of (`sender`, `nonce`).
    fn find_slot(&self, tx: &StoredTransaction) -> (r: Option<usize>)
        requires
            self.wf(),
        ensures
            match r {
                Some(i) => i < self@.len() && same_slot(self@[i as int], tx@) && slot_taken(
                    self@,
                    tx@,
                ) && slot_position(self@, tx@) == i,
                None => !slot_taken(self@, tx@),
            },
    {
        let mut i: usize = 0;
        while i < self.entries.len()
            invariant
                self.wf(),
                i <= self.entries@.len(),
                forall|j: int| 0 <= j < i ==> !same_slot(#[trigger] self@[j], tx@),
            decreases self.entries@.len() - i,
        {
            let e = &self.entries[i];
            if e.tx.nonce == tx.nonce && array_eq(&e.tx.sender_address, &tx.sender_address) {
                proof {
                    assert(same_slot(self@[i as int], tx@));
                    let p = slot_position(self@, tx@);
                    assert(0 <= p < self@.len() && same_slot(self@[p], tx@));
                    if p != i as int {
                        assert(same_slot(self@[p], self@[i as int]));
                    }
                }
                return Some(i);
            }
            i += 1;
        }
        None
    }

    /// Position of the entry that a full pool evicts.
    fn find_eviction(&self) -> (i: usize)
        requires
            self.wf(),
            self@.len() > 0,
        ensures
            i == eviction_position(self@),
            is_eviction_position(self@, i as int),
    {
        let mut best: usize = 0;
        let mut i: usize = 1;
        while i < self.entries.len()
            invariant
                self.wf(),
                1 <= i <= self.entries@.len(),
                best < i,
                forall|j: int| 0 <= j < i ==> fee_rate(self@[best as int]) <= fee_rate(
                    #[trigger] self@[j],
                ),
                forall|j: int| 0 <= j < best ==> fee_rate(self@[best as int]) < fee_rate(
                    #[trigger] self@[j],
                ),
            decreases self.entries@.len() - i,
        {
            if self.entries[i].fee_per_byte_scaled < self.entries[best].fee_per_byte_scaled {
                best = i;
            }
            i += 1;
        }
        proof {
            assert(is_eviction_position(self@, best as int));
            let c = eviction_position(self@);
            assert(is_eviction_position(self@, c));
            if c < best {
                assert(fee_rate(self@[best as int]) < fee_rate(self@[c]));
                assert(fee_rate(self@[c]) <= fee_rate(self@[best as int]));
            } else if best < c {
                assert(fee_rate(self@[c]) < fee_rate(self@[best as int]));
                assert(fee_rate(self@[best as int]) <= fee_rate(self@[c]));
            }
        }
        best
    }

    /// Removes the entry at `i`.
    fn remove_at(&mut self, i: usize)
        requires
            old(self).wf(),
            i < old(self)@.len(),
        ensures
            final(self).wf(),
            final(self)@ == old(self)@.remove(i as int),
    {
        let _ = self.entries.remove(i);
        proof {
            assert(self@ =~= old(self)@.remove(i as int));
            assert forall|a: int, b: int| 0 <= a < b < self@.len() implies txid_of(
                #[trigger] self@[a],
            ) != txid_of(#[trigger] self@[b]) && !same_slot(self@[a], self@[b]) by {
                let a0 = if a < i { a } else { a + 1 };
                let b0 = if b < i { b } else { b + 1 };
                assert(self@[a] == old(self)@[a0]);
                assert(self@[b] == old(self)@[b0]);
            }
            assert forall|a: int| 0 <= a < self@.len() implies txid_of(#[trigger] self@[a]).len()
                == 32 by {
                let a0 = if a < i { a } else { a + 1 };
                assert(self@[a] == old(self)@[a0]);
            }
            assert forall|a: int| 0 <= a < self.entries@.len() implies (
            #[trigger] self.entries@[a]).txid@ == txid_of(self.entries@[a].tx@)
                && self.entries@[a].fee_per_byte_scaled == fee_rate(self.entries@[a].tx@) by {
                let a0 = if a < i { a } else { a + 1 };
                assert(self.entries@[a] == old(self).entries@[a0]);
            }
        }
    }

    /// Admits a transaction: `Ok(true)` where it was added, `Ok(false)`
    /// where it took the place of a pending one with the same sender and
    /// nonce, and the reason where it was refused, which leaves the pool as
    /// it was.
    pub fn add_transaction(&mut self, tx: StoredTransaction) -> (r: Result<bool, &'static str>)
        requires
            old(self).wf(),
        ensures
            final(self).wf(),
            match r {
                Ok(added) => admission(old(self)@, tx@) == Ok::<Seq<TxView>, &'static str>(
                    final(self)@,
                ) && added == !slot_taken(old(self)@, tx@),
                Err(e) => admission(old(self)@, tx@) == Err::<Seq<TxView>, &'static str>(e)
                    && final(self)@ == old(self)@,
            },
    {
        let domain_tx = match Transaction::try_from(&tx) {
            Ok(t) => t,
            Err(e) => {
                return Err(e);
            },
        };
        let txid = match domain_tx.checked_txid() {
            Some(id) => id,
            None => {
                return Err("structural or signature validation failed");
            },
        };
        if tx.fee < 1 {
            return Err("fee below minimum (1 knot)");
        }
        if self.find_txid(&txid).is_some() {
            return Err("duplicate transaction");
        }
        let mut added = true;
        match self.find_slot(&tx) {
            Some(i) => {
                let existing = self.entries[i].tx.fee;
                let tenth = existing / 10;
                let margin: u64 = if tenth >= 1 { tenth } else { 1 };
                if (tx.fee as u128) < existing as u128 + margin as u128 {
                    return Err("replacement fee too low (must be >= 110% of existing)");
                }
                self.remove_at(i);
                added = false;
            },
            None => {},
        }
        if self.entries.len() >= MAX_MEMPOOL_SIZE {
            let worst = self.find_eviction();
            self.remove_at(worst);
        }
        let ghost room = self@;
        let size = Self::estimate_tx_size(&tx);
        let fee_per_byte_scaled: u128 = (tx.fee as u128 * 10000) / (size as u128);
        let ghost t = tx@;
        self.entries.push(MempoolEntry { tx, txid, fee_per_byte_scaled });
        proof {
            assert(self@ =~= room.push(t));
            assert forall|a: int| 0 <= a < room.len() implies txid_of(#[trigger] room[a])
                != txid_of(t) && !same_slot(room[a], t) by {
                Self::lemma_room_entry(old(self)@, t, a);
            }
        }
        Ok(added)
    }

    /// Every transaction left after room has been made was pending before.
    proof fn lemma_room_entry(pool: Seq<TxView>, t: TxView, a: int)
        requires
            pool_valid(pool),
            !holds_txid(pool, txid_of(t)),
            ({
                let freed = if slot_taken(pool, t) {
                    pool.remove(slot_position(pool, t))
                } else {
                    pool
                };
                freed.len() >= 5000 ==> is_eviction_position(freed, eviction_position(freed))
            }),
            0 <= a < (if slot_taken(pool, t) {
                with_room(pool.remove(slot_position(pool, t)))
            } else {
                with_room(pool)
            }).len(),
        ensures
            ({
                let room = if slot_taken(pool, t) {
                    with_room(pool.remove(slot_position(pool, t)))
                } else {
                    with_room(pool)
                };
                txid_of(room[a]) != txid_of(t) && !same_slot(room[a], t)
            }),
    {
        let freed = if slot_taken(pool, t) {
            pool.remove(slot_position(pool, t))
        } else {
            pool
        };
        let room = with_room(freed);
        // every entry of freed is an entry of pool that is not in t's place
        assert forall|k: int| 0 <= k < freed.len() implies txid_of(#[trigger] freed[k]) != txid_of(t)
            && !same_slot(freed[k], t) by {
            if slot_taken(pool, t) {
                let s = slot_position(pool, t);
                assert(0 <= s < pool.len() && same_slot(pool[s], t));
                let k0 = if k < s { k } else { k + 1 };
                assert(freed[k] == pool[k0]);
                assert(txid_of(pool[k0]) != txid_of(t));
                if same_slot(pool[k0], t) {
                    assert(same_slot(pool[k0], pool[s]));
                }
            } else {
                assert(txid_of(pool[k]) != txid_of(t));
            }
        }
        if freed.len() >= 5000 {
            let e = eviction_position(freed);
            let a0 = if a < e { a } else { a + 1 };
            assert(room[a] == freed[a0]);
        }
    }

    /// Whether entry `a` comes before entry `b` in a template.
    fn entry_ranks_before(&self, a: usize, b: usize) -> (r: bool)
        requires
            self.wf(),
            a < self@.len(),
            b < self@.len(),
        ensures
            r == ranks_before(self@[a as int], self@[b as int]),
            a != b ==> (r || ranks_before(self@[b as int], self@[a as int])),
    {
        let x = &self.entries[a];
        let y = &self.entries[b];
        proof {
            if a != b {
                if be_value(txid_of(self@[a as int])) == be_value(txid_of(self@[b as int])) {
                    lemma_be_value_injective(txid_of(self@[a as int]), txid_of(self@[b as int]));
                    if a < b {
                        assert(txid_of(self@[a as int]) != txid_of(self@[b as int]));
                    } else {
                        assert(txid_of(self@[b as int]) != txid_of(self@[a as int]));
                    }
                }
            }
        }
        x.fee_per_byte_scaled > y.fee_per_byte_scaled || (x.fee_per_byte_scaled
            == y.fee_per_byte_scaled && !be_le(&y.txid, &x.txid))
    }

    /// The transactions for a block template: at most `max_count`, highest
    /// priority first and among equals the smaller identifier. The pool
    /// keeps them.
    pub fn get_top_transactions(&self, max_count: usize) -> (top: Vec<StoredTransaction>)
        requires
            self.wf(),
        ensures
            is_template(self@, Seq::new(top@.len(), |i: int| top@[i]@), max_count as nat),
    {
        let n = self.entries.len();
        let mut order: Vec<usize> = Vec::new();
        let mut k: usize = 0;
        while k < n
            invariant
                self.wf(),
                n == self@.len(),
                k <= n,
                order@.len() == k,
                forall|i: int| 0 <= i < order@.len() ==> #[trigger] order@[i] < k,
                forall|j: usize| j < k ==> #[trigger] order@.contains(j),
                forall|i: int, j: int|
                    0 <= i < j < order@.len() ==> ranks_before(
                        self@[#[trigger] order@[i] as int],
                        self@[#[trigger] order@[j] as int],
                    ),
            decreases n - k,
        {
            let mut pos: usize = 0;
            while pos < order.len() && self.entry_ranks_before(order[pos], k)
                invariant
                    self.wf(),
                    n == self@.len(),
                    k < n,
                    pos <= order@.len(),
                    forall|i: int| 0 <= i < order@.len() ==> #[trigger] order@[i] < k,
                    forall|i: int|
                        0 <= i < pos ==> ranks_before(
                            self@[#[trigger] order@[i] as int],
                            self@[k as int],
                        ),
                decreases order@.len() - pos,
            {
                pos += 1;
            }
            let ghost before = order@;
            order.insert(pos, k);
            proof {
                assert(order@ == before.insert(pos as int, k));
                assert forall|j: usize| j < k + 1 implies #[trigger] order@.contains(j) by {
                    if j < k {
                        assert(before.contains(j));
                        let i = choose|i: int| 0 <= i < before.len() && before[i] == j;
                        if i < pos {
                            assert(order@[i] == j);
                        } else {
                            assert(order@[i + 1] == j);
                        }
                    } else {
                        assert(order@[pos as int] == k);
                    }
                }
                assert forall|i: int, j: int| 0 <= i < j < order@.len() implies ranks_before(
                    self@[#[trigger] order@[i] as int],
                    self@[#[trigger] order@[j] as int],
                ) by {
                    if j < pos {
                        assert(order@[i] == before[i] && order@[j] == before[j]);
                    } else if j == pos {
                        assert(order@[i] == before[i]);
                    } else if i < pos {
                        assert(order@[i] == before[i] && order@[j] == before[j - 1]);
                    } else if i == pos {
                        assert(order@[j] == before[j - 1]);
                        assert(pos < before.len());
                        assert(before[pos as int] < k);
                        assert(ranks_before(self@[k as int], self@[before[pos as int] as int]));
                        if j - 1 > pos {
                            assert(ranks_before(
                                self@[before[pos as int] as int],
                                self@[before[j - 1] as int],
                            ));
                        }
                    } else {
                        assert(order@[i] == before[i - 1] && order@[j] == before[j - 1]);
                    }
                }
            }
            k += 1;
        }
        let m = if max_count <= n { max_count } else { n };
        let mut top: Vec<StoredTransaction> = Vec::new();
        let mut i: usize = 0;
        while i < m
            invariant
                self.wf(),
                n == self@.len(),
                order@.len() == n,
                m <= n,
                i <= m,
                top@.len() == i,
                forall|a: int| 0 <= a < order@.len() ==> #[trigger] order@[a] < n,
                forall|a: int| 0 <= a < i ==> (#[trigger] top@[a])@ == self@[order@[a] as int],
            decreases m - i,
        {
            top.push(self.entries[order[i]].tx.duplicate());
            i += 1;
        }
        proof {
            let views = Seq::new(top@.len(), |i: int| top@[i]@);
            assert forall|a: int| 0 <= a < views.len() implies self@.contains(
                #[trigger] views[a],
            ) by {
                assert(self@[order@[a] as int] == views[a]);
            }
            assert forall|a: int, b: int| 0 <= a < b < views.len() implies ranks_before(
                #[trigger] views[a],
                #[trigger] views[b],
            ) by {
                assert(ranks_before(self@[order@[a] as int], self@[order@[b] as int]));
            }
            assert forall|a: int, q: int|
                0 <= a < views.len() && 0 <= q < self@.len() && !views.contains(
                    self@[q],
                ) implies ranks_before(#[trigger] views[a], #[trigger] self@[q]) by {
                assert(order@.contains(q as usize));
                let p = choose|p: int| 0 <= p < order@.len() && order@[p] == q as usize;
                if p < m {
                    assert(views[p] == self@[q]);
                    assert(views.contains(self@[q]));
                }
                assert(ranks_before(self@[order@[a] as int], self@[order@[p] as int]));
            }
        }
        top
    }

    /// Removes the transactions that a block has confirmed.
    pub fn remove_confirmed(&mut self, txids: &[[u8; 32]])
        requires
            old(self).wf(),
        ensures
            final(self).wf(),
            final(self)@ == without_txids(
                old(self)@,
                Seq::new(txids@.len(), |i: int| txids@[i]@),
            ),
    {
        let ghost ids = Seq::new(txids@.len(), |i: int| txids@[i]@);
        let ghost keep = |t: TxView| !ids.contains(txid_of(t));
        let mut i: usize = 0;
        let ghost start = self@;
        assert(start.take(0) =~= Seq::<TxView>::empty());
        while i < self.entries.len()
            invariant
                self.wf(),
                ids == Seq::new(txids@.len(), |i: int| txids@[i]@),
                keep == |t: TxView| !ids.contains(txid_of(t)),
                i <= self@.len(),
                self@.len() - i == start.len() - (start.len() - self@.len() + i),
                start.len() >= self@.len(),
                self@.take(i as int) == start.take(start.len() - self@.len() + i).filter(keep),
                self@.skip(i as int) == start.skip(start.len() - self@.len() + i),
            decreases self@.len() - i,
        {
            let ghost done = start.len() - self@.len() + i;
            let ghost cur = self@;
            proof {
                assert(cur[i as int] == cur.skip(i as int)[0]);
                assert(start[done] == start.skip(done)[0]);
                assert(start.take(done + 1) =~= start.take(done).push(start[done]));
                Self::lemma_filter_push(start.take(done), start[done], keep);
            }
            let mut listed = false;
            let mut k: usize = 0;
            while k < txids.len()
                invariant
                    self.wf(),
                    cur == self@,
                    i < self.entries@.len(),
                    k <= txids@.len(),
                    ids == Seq::new(txids@.len(), |i: int| txids@[i]@),
                    listed <==> exists|j: int| 0 <= j < k && ids[j] == txid_of(cur[i as int]),
                decreases txids@.len() - k,
            {
                if array_eq(&txids[k], &self.entries[i].txid) {
                    assert(ids[k as int] == txid_of(cur[i as int]));
                    listed = true;
                }
                k += 1;
            }
            proof {
                if listed {
                    let j = choose|j: int| 0 <= j < k && ids[j] == txid_of(cur[i as int]);
                    assert(ids.contains(txid_of(cur[i as int])));
                } else {
                    if ids.contains(txid_of(cur[i as int])) {
                        let j = choose|j: int| 0 <= j < ids.len() && ids[j] == txid_of(cur[i as int]);
                        assert(0 <= j < k && ids[j] == txid_of(cur[i as int]));
                    }
                }
            }
            if listed {
                self.remove_at(i);
                proof {
                    assert(self@.take(i as int) =~= cur.take(i as int));
                    assert(self@.skip(i as int) =~= cur.skip(i + 1));
                    assert(cur.skip(i + 1) =~= cur.skip(i as int).skip(1));
                    assert(start.skip(done + 1) =~= start.skip(done).skip(1));
                }
            } else {
                proof {
                    assert(cur.take(i + 1) =~= cur.take(i as int).push(cur[i as int]));
                    assert(cur.skip(i + 1) =~= cur.skip(i as int).skip(1));
                    assert(start.skip(done + 1) =~= start.skip(done).skip(1));
                }
                i += 1;
            }
        }
        proof {
            assert(self@.take(i as int) =~= self@);
            assert(start.take(start.len() as int) =~= start);
        }
    }

    proof fn lemma_filter_push(s: Seq<TxView>, t: TxView, keep: spec_fn(TxView) -> bool)
        ensures
            s.push(t).filter(keep) == (if keep(t) {
                s.filter(keep).push(t)
            } else {
                s.filter(keep)
            }),
    {
        reveal(Seq::filter);
        assert(s.push(t).drop_last() =~= s);
    }

    /// The identifiers of the pending transactions, in the order of admission.
    pub fn get_all_txids(&self) -> (ids: Vec<[u8; 32]>)
        requires
            self.wf(),
        ensures
            ids@.len() == self@.len(),
            forall|i: int| 0 <= i < ids@.len() ==> (#[trigger] ids@[i])@ == txid_of(self@[i]),
    {
        let mut ids: Vec<[u8; 32]> = Vec::new();
        let mut i: usize = 0;
        while i < self.entries.len()
            invariant
                self.wf(),
                i <= self.entries@.len(),
                ids@.len() == i,
                forall|k: int| 0 <= k < i ==> (#[trigger] ids@[k])@ == txid_of(self@[k]),
            decreases self.entries@.len() - i,
        {
            ids.push(self.entries[i].txid);
            i += 1;
        }
        ids
    }

    /// The highest nonce among the pending transactions of `sender`.
    pub fn highest_pending_nonce_for_sender(&self, sender: &[u8; 32]) -> (r: Option<u64>)
        requires
            self.wf(),
        ensures
            r == highest_nonce(self@, sender@, self@.len()),
    {
        let mut max_nonce: Option<u64> = None;
        let mut i: usize = 0;
        while i < self.entries.len()
            invariant
                i <= self.entries@.len(),
                max_nonce == highest_nonce(self@, sender@, i as nat),
            decreases self.entries@.len() - i,
        {
            let e = &self.entries[i];
            if array_eq(&e.tx.sender_address, sender) {
                max_nonce = match max_nonce {
                    Some(m) => if m >= e.tx.nonce {
                        Some(m)
                    } else {
                        Some(e.tx.nonce)
                    },
                    None => Some(e.tx.nonce),
                };
            }
            i += 1;
        }
        max_nonce
    }
}

impl Default for Mempool {
    fn default() -> (pool: Self)
        ensures
            pool.wf(),
            pool@ == Seq::<TxView>::empty(),
    {
        Mempool::new()
    }
}

} // verus!
