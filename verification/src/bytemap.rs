use vstd::prelude::*;
use crate::bytes::array_eq;

verus! {

/// A small associative table keyed by fixed-size byte strings.
///
/// Entries are kept in insertion order; a key occurs at most once.
pub struct ByteMap<V, const N: usize> {
    keys: Vec<[u8; N]>,
    vals: Vec<V>,
}

impl<V, const N: usize> ByteMap<V, N> {
    /// Well-formedness: one value per key, and no key twice.
    pub closed spec fn wf(&self) -> bool {
        &&& self.keys@.len() == self.vals@.len()
        &&& forall|i: int, j: int|
            0 <= i < j < self.keys@.len() ==> self.keys@[i]@ != self.keys@[j]@
    }

    /// The keys in insertion order.
    pub closed spec fn key_seq(&self) -> Seq<Seq<u8>> {
        Seq::new(self.keys@.len(), |i: int| self.keys@[i]@)
    }

    /// The entries in insertion order.
    pub closed spec fn entry_seq(&self) -> Seq<([u8; N], V)> {
        Seq::new(self.keys@.len(), |i: int| (self.keys@[i], self.vals@[i]))
    }

    /// The entries are the keys with their values.
    pub proof fn lemma_entry_seq(&self)
        requires
            self.wf(),
        ensures
            self.entry_seq().len() == self.key_seq().len(),
            forall|i: int|
                0 <= i < self.entry_seq().len() ==> (#[trigger] self.entry_seq()[i]).0@
                    == self.key_seq()[i] && self.entry_seq()[i].1 == self.val_seq()[i],
    {
    }

    /// The values in insertion order.
    pub closed spec fn val_seq(&self) -> Seq<V> {
        self.vals@
    }

    pub closed spec fn position(&self, k: Seq<u8>) -> int {
        choose|i: int| 0 <= i < self.keys@.len() && self.keys@[i]@ == k
    }

    /// The table as a mathematical map from key bytes to values.
    pub closed spec fn view(&self) -> Map<Seq<u8>, V> {
        Map::new(
            |k: Seq<u8>| exists|i: int| 0 <= i < self.keys@.len() && self.keys@[i]@ == k,
            |k: Seq<u8>| self.vals@[self.position(k)],
        )
    }

    /// Relates the ordered entries to the map: entry `i` is the map's value at key `i`.
    pub proof fn lemma_entries(&self)
        requires
            self.wf(),
        ensures
            self.key_seq().len() == self.val_seq().len(),
            self@.dom().finite(),
            self@.dom().len() == self.key_seq().len(),
            forall|i: int|
                0 <= i < self.key_seq().len() ==> #[trigger] self.key_seq()[i].len() == N,
            forall|i: int|
                0 <= i < self.key_seq().len() ==> self@.contains_key(#[trigger] self.key_seq()[i])
                    && self@[self.key_seq()[i]] == self.val_seq()[i],
            forall|k: Seq<u8>|
                self@.contains_key(k) ==> exists|i: int|
                    0 <= i < self.key_seq().len() && #[trigger] self.key_seq()[i] == k,
            forall|i: int, j: int|
                0 <= i < j < self.key_seq().len() ==> self.key_seq()[i] != self.key_seq()[j],
    {
        assert forall|i: int| 0 <= i < self.key_seq().len() implies self@.contains_key(
            #[trigger] self.key_seq()[i],
        ) && self@[self.key_seq()[i]] == self.val_seq()[i] by {
            let k = self.keys@[i]@;
            let p = self.position(k);
            assert(0 <= p < self.keys@.len() && self.keys@[p]@ == k);
            assert(p == i);
        }
        assert forall|k: Seq<u8>| self@.contains_key(k) implies exists|i: int|
            0 <= i < self.key_seq().len() && #[trigger] self.key_seq()[i] == k by {
            let i = choose|i: int| 0 <= i < self.keys@.len() && self.keys@[i]@ == k;
            assert(self.key_seq()[i] == k);
        }
        Self::lemma_dom_count(self.key_seq(), self@.dom());
    }

    proof fn lemma_dom_count(ks: Seq<Seq<u8>>, dom: Set<Seq<u8>>)
        requires
            forall|i: int, j: int| 0 <= i < j < ks.len() ==> ks[i] != ks[j],
            forall|k: Seq<u8>| dom.contains(k) <==> exists|i: int| 0 <= i < ks.len() && ks[i] == k,
        ensures
            dom.finite(),
            dom.len() == ks.len(),
        decreases ks.len(),
    {
        if ks.len() == 0 {
            assert(dom =~= Set::empty());
        } else {
            let last = ks.last();
            let rest = ks.drop_last();
            let sub = dom.remove(last);
            assert forall|k: Seq<u8>| sub.contains(k) <==> exists|i: int|
                0 <= i < rest.len() && rest[i] == k by {
                if sub.contains(k) {
                    let i = choose|i: int| 0 <= i < ks.len() && ks[i] == k;
                    assert(i < rest.len());
                    assert(rest[i] == k);
                }
                if exists|i: int| 0 <= i < rest.len() && rest[i] == k {
                    let i = choose|i: int| 0 <= i < rest.len() && rest[i] == k;
                    assert(ks[i] == k);
                }
            }
            Self::lemma_dom_count(rest, sub);
            assert(ks[ks.len() - 1] == last);
            assert(dom.contains(last));
            assert(dom =~= sub.insert(last));
        }
    }

    /// An empty table.
    pub fn new() -> (m: Self)
        ensures
            m.wf(),
            m@ == Map::<Seq<u8>, V>::empty(),
            m.key_seq().len() == 0,
    {
        let m = ByteMap { keys: Vec::new(), vals: Vec::new() };
        assert(m@ =~= Map::<Seq<u8>, V>::empty());
        m
    }

    /// Number of entries.
    pub fn len(&self) -> (n: usize)
        requires
            self.wf(),
        ensures
            n == self@.dom().len(),
            n == self.key_seq().len(),
    {
        proof {
            self.lemma_entries();
        }
        self.keys.len()
    }

    /// Index of `k` among the entries, if present.
    pub fn find(&self, k: &[u8; N]) -> (r: Option<usize>)
        requires
            self.wf(),
        ensures
            match r {
                Some(i) => i < self.key_seq().len() && self.key_seq()[i as int] == k@
                    && self@.contains_key(k@) && self@[k@] == self.val_seq()[i as int],
                None => !self@.contains_key(k@),
            },
    {
        let mut i: usize = 0;
        while i < self.keys.len()
            invariant
                self.wf(),
                i <= self.keys@.len(),
                forall|j: int| 0 <= j < i ==> self.keys@[j]@ != k@,
            decreases self.keys@.len() - i,
        {
            if array_eq(&self.keys[i], k) {
                proof {
                    self.lemma_entries();
                    assert(self.key_seq()[i as int] == k@);
                }
                return Some(i);
            }
            i += 1;
        }
        None
    }

    /// Whether `k` has an entry.
    pub fn contains(&self, k: &[u8; N]) -> (r: bool)
        requires
            self.wf(),
        ensures
            r == self@.contains_key(k@),
    {
        self.find(k).is_some()
    }

    /// The value stored under `k`.
    pub fn get(&self, k: &[u8; N]) -> (r: Option<&V>)
        requires
            self.wf(),
        ensures
            match r {
                Some(v) => self@.contains_key(k@) && *v == self@[k@],
                None => !self@.contains_key(k@),
            },
    {
        match self.find(k) {
            Some(i) => Some(&self.vals[i]),
            None => None,
        }
    }

    /// The key of entry `i`.
    pub fn key_at(&self, i: usize) -> (k: &[u8; N])
        requires
            self.wf(),
            i < self.key_seq().len(),
        ensures
            k@ == self.key_seq()[i as int],
            *k == self.entry_seq()[i as int].0,
    {
        &self.keys[i]
    }

    /// The value of entry `i`.
    pub fn value_at(&self, i: usize) -> (v: &V)
        requires
            self.wf(),
            i < self.key_seq().len(),
        ensures
            *v == self.val_seq()[i as int],
            *v == self.entry_seq()[i as int].1,
    {
        &self.vals[i]
    }

    /// Stores `v` under `k`, replacing any earlier value.
    pub fn insert(&mut self, k: [u8; N], v: V)
        requires
            old(self).wf(),
        ensures
            final(self).wf(),
            final(self)@ == old(self)@.insert(k@, v),
            final(self).key_seq() == (if old(self)@.contains_key(k@) {
                old(self).key_seq()
            } else {
                old(self).key_seq().push(k@)
            }),
    {
        proof {
            self.lemma_entries();
        }
        match self.find(&k) {
            Some(i) => {
                self.vals[i] = v;
                proof {
                    self.lemma_entries();
                    assert forall|q: Seq<u8>| #[trigger]
                        self@.contains_key(q) implies self@[q] == old(self)@.insert(k@, v)[q] by {
                        let j = choose|j: int|
                            0 <= j < self.key_seq().len() && #[trigger] self.key_seq()[j] == q;
                        assert(old(self).key_seq()[j] == q);
                    }
                    assert(self@ =~= old(self)@.insert(k@, v));
                    assert(self.key_seq() =~= old(self).key_seq());
                }
            },
            None => {
                self.keys.push(k);
                self.vals.push(v);
                proof {
                    assert(self.wf());
                    self.lemma_entries();
                    let n = old(self).keys@.len() as int;
                    assert(self.key_seq()[n] == k@);
                    assert forall|q: Seq<u8>|
                        self@.contains_key(q) <==> old(self)@.insert(k@, v).contains_key(q) by {
                        if self@.contains_key(q) {
                            let j = choose|j: int|
                                0 <= j < self.key_seq().len() && #[trigger] self.key_seq()[j] == q;
                            if j < n {
                                assert(old(self).key_seq()[j] == q);
                            }
                        }
                        if old(self)@.contains_key(q) {
                            let j = choose|j: int|
                                0 <= j < old(self).key_seq().len() && #[trigger] old(
                                    self,
                                ).key_seq()[j] == q;
                            assert(self.key_seq()[j] == q);
                        }
                    }
                    assert forall|q: Seq<u8>| #[trigger]
                        self@.contains_key(q) implies self@[q] == old(self)@.insert(k@, v)[q] by {
                        let j = choose|j: int|
                            0 <= j < self.key_seq().len() && #[trigger] self.key_seq()[j] == q;
                        if j < n {
                            assert(old(self).key_seq()[j] == q);
                        }
                    }
                    assert(self@ =~= old(self)@.insert(k@, v));
                    assert(self.key_seq() =~= old(self).key_seq().push(k@));
                }
            },
        }
    }
}


/// `base` after the first `n` entries of `keys` and `vals` have been written to it.
pub open spec fn merge_prefix<V>(
    base: Map<Seq<u8>, V>,
    keys: Seq<Seq<u8>>,
    vals: Seq<V>,
    n: nat,
) -> Map<Seq<u8>, V>
    decreases n,
{
    if n == 0 {
        base
    } else {
        merge_prefix(base, keys, vals, (n - 1) as nat).insert(keys[n - 1], vals[n - 1])
    }
}

proof fn lemma_merge_prefix<V>(base: Map<Seq<u8>, V>, keys: Seq<Seq<u8>>, vals: Seq<V>, n: nat)
    requires
        n <= keys.len(),
        keys.len() == vals.len(),
        forall|i: int, j: int| 0 <= i < j < keys.len() ==> keys[i] != keys[j],
    ensures
        forall|k: Seq<u8>|
            #![trigger merge_prefix(base, keys, vals, n).contains_key(k)]
            merge_prefix(base, keys, vals, n).contains_key(k) <==> (base.contains_key(k)
                || exists|i: int| 0 <= i < n && keys[i] == k),
        forall|i: int| 0 <= i < n ==> merge_prefix(base, keys, vals, n)[#[trigger] keys[i]] == vals[i],
        forall|k: Seq<u8>|
            base.contains_key(k) && !(exists|i: int| 0 <= i < n && keys[i] == k) ==> merge_prefix(
                base,
                keys,
                vals,
                n,
            )[k] == base[k],
    decreases n,
{
    if n > 0 {
        lemma_merge_prefix(base, keys, vals, (n - 1) as nat);
        let prev = merge_prefix(base, keys, vals, (n - 1) as nat);
        let cur = merge_prefix(base, keys, vals, n);
        assert forall|k: Seq<u8>| #![trigger cur.contains_key(k)]
            cur.contains_key(k) <==> (base.contains_key(k) || exists|i: int|
                0 <= i < n && keys[i] == k) by {
            if exists|i: int| 0 <= i < n && keys[i] == k {
                let i = choose|i: int| 0 <= i < n && keys[i] == k;
                if i < n - 1 {
                    assert(0 <= i < n - 1 && keys[i] == k);
                    assert(prev.contains_key(k));
                }
            }
            if prev.contains_key(k) && !base.contains_key(k) {
                let i = choose|i: int| 0 <= i < n - 1 && keys[i] == k;
                assert(0 <= i < n && keys[i] == k);
            }
        }
        assert forall|k: Seq<u8>|
            base.contains_key(k) && !(exists|i: int| 0 <= i < n && keys[i] == k) implies cur[k]
            == base[k] by {
            assert(k != keys[n - 1]);
            assert(!(exists|i: int| 0 <= i < n - 1 && keys[i] == k)) by {
                if exists|i: int| 0 <= i < n - 1 && keys[i] == k {
                    let i = choose|i: int| 0 <= i < n - 1 && keys[i] == k;
                    assert(0 <= i < n && keys[i] == k);
                }
            }
        }
    }
}

impl<V: Copy, const N: usize> ByteMap<V, N> {
    /// Writes every entry of `other` into this table.
    pub fn absorb(&mut self, other: &ByteMap<V, N>)
        requires
            old(self).wf(),
            other.wf(),
        ensures
            final(self).wf(),
            final(self)@ == old(self)@.union_prefer_right(other@),
    {
        let n = other.len();
        let mut i: usize = 0;
        while i < n
            invariant
                self.wf(),
                other.wf(),
                i <= n,
                n == other.key_seq().len(),
                self@ == merge_prefix(old(self)@, other.key_seq(), other.val_seq(), i as nat),
            decreases n - i,
        {
            self.insert(*other.key_at(i), *other.value_at(i));
            i += 1;
        }
        proof {
            other.lemma_entries();
            lemma_merge_prefix(old(self)@, other.key_seq(), other.val_seq(), n as nat);
            assert(self@ =~= old(self)@.union_prefer_right(other@));
        }
    }
}

} // verus!
