//! An association container keyed by 128-bit identifiers.
//!
//! Prefab metadata is full of small id-keyed tables (entities of a
//! definition, references of a prefab, the identity map of a cooked result).
//! This container keeps its entries in insertion order with pairwise
//! distinct keys, which both the cook order and the canonical serialization
//! rely on.

use vstd::prelude::*;

verus! {

/// A table from 128-bit identifiers to values: distinct keys, kept in
/// insertion order.
pub struct UuidMap<V> {
    keys: Vec<u128>,
    vals: Vec<V>,
}

impl<V> UuidMap<V> {
    /// The keys, in insertion order.
    pub closed spec fn keys(self) -> Seq<u128> {
        self.keys@
    }

    /// The values, aligned with `keys`.
    pub closed spec fn vals(self) -> Seq<V> {
        self.vals@
    }

    /// One value per key, and keys pairwise distinct.
    pub open spec fn wf(self) -> bool {
        self.vals().len() == self.keys().len() && self.keys().no_duplicates()
    }

    /// Whether `k` has an entry.
    pub open spec fn contains_spec(self, k: u128) -> bool {
        self.keys().contains(k)
    }

    /// The position of `k` among the keys.
    pub open spec fn index_of(self, k: u128) -> int {
        choose|i: int| 0 <= i < self.keys().len() && self.keys()[i] == k
    }

    /// The value stored under `k`.
    pub open spec fn value_of(self, k: u128) -> V {
        self.vals()[self.index_of(k)]
    }

    /// The key at position `i` owns the value at position `i`.
    pub proof fn lemma_value_at(self, i: int)
        requires
            self.wf(),
            0 <= i < self.keys().len(),
        ensures
            self.contains_spec(self.keys()[i]),
            self.index_of(self.keys()[i]) == i,
            self.value_of(self.keys()[i]) == self.vals()[i],
    {
        let k = self.keys()[i];
        assert(self.keys().contains(k));
        let j = self.index_of(k);
        assert(0 <= j < self.keys().len() && self.keys()[j] == k);
    }

    /// An empty table.
    pub fn new() -> (r: Self)
        ensures
            r.wf(),
            r.keys() == Seq::<u128>::empty(),
            r.vals() == Seq::<V>::empty(),
    {
        UuidMap { keys: Vec::new(), vals: Vec::new() }
    }

    /// How many entries the table holds.
    pub fn len(&self) -> (r: usize)
        ensures
            r == self.keys().len(),
    {
        self.keys.len()
    }

    /// The position of `k`, or the length when `k` is absent.
    fn find_index(&self, k: u128) -> (r: usize)
        ensures
            r <= self.keys().len(),
            r < self.keys().len() ==> self.keys()[r as int] == k,
            r == self.keys().len() ==> !self.contains_spec(k),
    {
        let n = self.keys.len();
        let mut i: usize = 0;
        while i < n
            invariant
                i <= n,
                n == self.keys@.len(),
                forall|j: int| 0 <= j < i ==> self.keys@[j] != k,
            decreases n - i,
        {
            if self.keys[i] == k {
                return i;
            }
            i += 1;
        }
        i
    }

    /// Whether `k` has an entry.
    pub fn contains_key(&self, k: u128) -> (r: bool)
        ensures
            r == self.contains_spec(k),
    {
        let i = self.find_index(k);
        i < self.keys.len()
    }

    /// The value under `k`, when present.
    pub fn get(&self, k: u128) -> (r: Option<&V>)
        requires
            self.wf(),
        ensures
            match r {
                Some(v) => self.contains_spec(k) && *v == self.value_of(k),
                None => !self.contains_spec(k),
            },
    {
        let i = self.find_index(k);
        if i < self.keys.len() {
            proof {
                self.lemma_value_at(i as int);
            }
            Some(&self.vals[i])
        } else {
            None
        }
    }

    /// Stores `v` under `k`: a present key keeps its position, an absent one
    /// is appended.  Entries under other keys are untouched.
    pub fn insert(&mut self, k: u128, v: V)
        requires
            old(self).wf(),
        ensures
            final(self).wf(),
            final(self).contains_spec(k),
            final(self).value_of(k) == v,
            old(self).contains_spec(k) ==> final(self).keys() == old(self).keys()
                && final(self).vals() == old(self).vals().update(old(self).index_of(k), v),
            !old(self).contains_spec(k) ==> final(self).keys() == old(self).keys().push(k)
                && final(self).vals() == old(self).vals().push(v),
            forall|k2: u128| k2 != k ==>
                #[trigger] final(self).contains_spec(k2) == old(self).contains_spec(k2),
            forall|k2: u128| k2 != k && old(self).contains_spec(k2) ==>
                #[trigger] final(self).value_of(k2) == old(self).value_of(k2),
    {
        let ghost pre = *self;
        let i = self.find_index(k);
        if i < self.keys.len() {
            proof {
                pre.lemma_value_at(i as int);
            }
            self.vals.set(i, v);
            proof {
                pre.lemma_value_at(i as int);
                lemma_update_value_keeps_others(pre, *self, i as int, k, v);
            }
        } else {
            self.keys.push(k);
            self.vals.push(v);
            proof {
                lemma_push_entry_keeps_others(pre, *self, k, v);
            }
        }
    }

    /// The key at position `i`.
    pub fn key_at(&self, i: usize) -> (r: u128)
        requires
            i < self.keys().len(),
        ensures
            r == self.keys()[i as int],
    {
        self.keys[i]
    }

    /// The value at position `i`.
    pub fn val_at(&self, i: usize) -> (r: &V)
        requires
            self.wf(),
            i < self.keys().len(),
        ensures
            *r == self.vals()[i as int],
    {
        &self.vals[i]
    }
}

/// Replacing the value at the position of `k` leaves every other key bound
/// to its old value.
proof fn lemma_update_value_keeps_others<V>(pre: UuidMap<V>, post: UuidMap<V>, i: int, k: u128, v: V)
    requires
        pre.wf(),
        0 <= i < pre.keys().len(),
        pre.keys()[i] == k,
        post.keys() == pre.keys(),
        post.vals() == pre.vals().update(i, v),
    ensures
        post.wf(),
        post.contains_spec(k),
        post.value_of(k) == v,
        forall|k2: u128| k2 != k ==>
            #[trigger] post.contains_spec(k2) == pre.contains_spec(k2),
        forall|k2: u128| k2 != k && pre.contains_spec(k2) ==>
            #[trigger] post.value_of(k2) == pre.value_of(k2),
{
    pre.lemma_value_at(i);
    post.lemma_value_at(i);
    assert forall|k2: u128| k2 != k && pre.contains_spec(k2) implies
        #[trigger] post.value_of(k2) == pre.value_of(k2) by {
        let j = pre.index_of(k2);
        pre.lemma_value_at(j);
        post.lemma_value_at(j);
        assert(j != i);
    }
}

/// Appending a fresh key leaves every other key bound to its old value.
proof fn lemma_push_entry_keeps_others<V>(pre: UuidMap<V>, post: UuidMap<V>, k: u128, v: V)
    requires
        pre.wf(),
        !pre.contains_spec(k),
        post.keys() == pre.keys().push(k),
        post.vals() == pre.vals().push(v),
    ensures
        post.wf(),
        post.contains_spec(k),
        post.value_of(k) == v,
        forall|k2: u128| k2 != k ==>
            #[trigger] post.contains_spec(k2) == pre.contains_spec(k2),
        forall|k2: u128| k2 != k && pre.contains_spec(k2) ==>
            #[trigger] post.value_of(k2) == pre.value_of(k2),
{
    let n = pre.keys().len() as int;
    assert(post.keys()[n] == k);
    assert(forall|j: int| 0 <= j < n ==> post.keys()[j] == pre.keys()[j]);
    assert(post.keys().no_duplicates()) by {
        assert forall|a: int, b: int|
            0 <= a < post.keys().len() && 0 <= b < post.keys().len() && a != b implies
            post.keys()[a] != post.keys()[b] by {
            if a < n && b < n {
            } else if a == n {
                assert(!pre.keys().contains(post.keys()[b]) ==> true);
                assert(pre.keys().contains(pre.keys()[b]));
            } else if b == n {
                assert(pre.keys().contains(pre.keys()[a]));
            }
        }
    }
    post.lemma_value_at(n);
    assert forall|k2: u128| k2 != k implies
        #[trigger] post.contains_spec(k2) == pre.contains_spec(k2) by {
        if pre.contains_spec(k2) {
            let j = pre.index_of(k2);
            pre.lemma_value_at(j);
            assert(post.keys()[j] == k2);
        }
        if post.contains_spec(k2) {
            let j = choose|j: int| 0 <= j < post.keys().len() && post.keys()[j] == k2;
            assert(j != n);
            assert(pre.keys()[j] == k2);
        }
    }
    assert forall|k2: u128| k2 != k && pre.contains_spec(k2) implies
        #[trigger] post.value_of(k2) == pre.value_of(k2) by {
        let j = pre.index_of(k2);
        pre.lemma_value_at(j);
        post.lemma_value_at(j);
    }
}

} // verus!
