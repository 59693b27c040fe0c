//! A small association map from `u32` ids to values, backed by a vector.
//!
//! Ids in this engine (actor ids, table ids, fragment ids) are 32-bit
//! integers, and the maps kept per job or per operator are small, so a
//! vector of entries with distinct keys is enough. Iteration order is the
//! insertion order, which keeps every consumer of the map deterministic.

use vstd::prelude::*;

verus! {

/// Does some entry of `s` carry the key `k`?
pub open spec fn seq_has_key<V>(s: Seq<(u32, V)>, k: u32) -> bool {
    exists|i: int| 0 <= i < s.len() && (#[trigger] s[i]).0 == k
}

/// The index of the entry carrying `k` (meaningful only when `seq_has_key`).
pub open spec fn seq_key_index<V>(s: Seq<(u32, V)>, k: u32) -> int {
    choose|i: int| 0 <= i < s.len() && (#[trigger] s[i]).0 == k
}

/// The mathematical map described by an entry sequence with distinct keys.
pub open spec fn map_of<V>(s: Seq<(u32, V)>) -> Map<u32, V> {
    Map::new(|k: u32| seq_has_key(s, k), |k: u32| s[seq_key_index(s, k)].1)
}

/// All keys of `s` are distinct.
pub open spec fn distinct_keys<V>(s: Seq<(u32, V)>) -> bool {
    forall|i: int, j: int|
        0 <= i < j < s.len() ==> (#[trigger] s[i]).0 != (#[trigger] s[j]).0
}

/// With distinct keys, the entry at index `i` is exactly what `map_of`
/// associates with its key.
pub proof fn lemma_map_of_index<V>(s: Seq<(u32, V)>, i: int)
    requires
        distinct_keys(s),
        0 <= i < s.len(),
    ensures
        map_of(s).contains_key(s[i].0),
        map_of(s)[s[i].0] == s[i].1,
{
    assert(seq_has_key(s, s[i].0));
    let j = seq_key_index(s, s[i].0);
    if j != i {
        if j < i {
            assert(s[j].0 != s[i].0);
        } else {
            assert(s[i].0 != s[j].0);
        }
    }
}

pub struct VecMap<V> {
    entries: Vec<(u32, V)>,
}

impl<V> View for VecMap<V> {
    type V = Map<u32, V>;

    open spec fn view(&self) -> Map<u32, V> {
        map_of(self.entry_seq())
    }
}

impl<V> VecMap<V> {
    /// The underlying entries, in insertion order.
    pub closed spec fn entry_seq(&self) -> Seq<(u32, V)> {
        self.entries@
    }

    /// The keys, in insertion order.
    pub open spec fn key_seq(&self) -> Seq<u32> {
        self.entry_seq().map_values(|e: (u32, V)| e.0)
    }

    /// Validity of the map: the entry keys are distinct. Constructors
    /// establish it and every method preserves it.
    pub open spec fn inv(&self) -> bool {
        distinct_keys(self.entry_seq())
    }

    /// The keys of the map view are exactly the keys of the entry sequence,
    /// and each entry is what the view associates with its key.
    pub proof fn lemma_view(&self)
        requires
            self.inv(),
        ensures
            forall|k: u32| #[trigger] self@.contains_key(k) == seq_has_key(self.entry_seq(), k),
            forall|i: int|
                0 <= i < self.entry_seq().len() ==> self@.contains_key(
                    (#[trigger] self.entry_seq()[i]).0,
                ) && self@[self.entry_seq()[i].0] == self.entry_seq()[i].1,
    {
        assert forall|i: int| 0 <= i < self.entry_seq().len() implies self@.contains_key(
            (#[trigger] self.entry_seq()[i]).0,
        ) && self@[self.entry_seq()[i].0] == self.entry_seq()[i].1 by {
            lemma_map_of_index(self.entry_seq(), i);
        }
    }

    pub fn new() -> (r: Self)
        ensures
            r.inv(),
            r@ == Map::<u32, V>::empty(),
            r.entry_seq() == Seq::<(u32, V)>::empty(),
    {
        let r = VecMap { entries: Vec::new() };
        proof {
            assert(r@ =~= Map::<u32, V>::empty());
        }
        r
    }

    pub fn len(&self) -> (r: usize)
        ensures
            r == self.entry_seq().len(),
    {
        self.entries.len()
    }

    pub fn is_empty(&self) -> (r: bool)
        requires
            self.inv(),
        ensures
            r == (self.entry_seq().len() == 0),
            r == self@.dom().is_empty(),
    {
        proof {
            self.lemma_view();
            if self.entry_seq().len() == 0 {
                assert(self@.dom() =~= Set::<u32>::empty());
            } else {
                assert(self@.contains_key(self.entry_seq()[0].0));
            }
        }
        self.entries.len() == 0
    }

    /// The position of `k` among the entries, if present.
    fn index_of(&self, k: u32) -> (r: Option<usize>)
        requires
            self.inv(),
        ensures
            match r {
                Some(i) => i < self.entry_seq().len() && self.entry_seq()[i as int].0 == k
                    && self@.contains_key(k) && i == seq_key_index(self.entry_seq(), k),
                None => !self@.contains_key(k),
            },
    {
        let n = self.entries.len();
        let mut i: usize = 0;
        while i < n
            invariant
                self.inv(),
                n == self.entry_seq().len(),
                0 <= i <= n,
                forall|j: int| 0 <= j < i ==> (#[trigger] self.entry_seq()[j]).0 != k,
            decreases n - i,
        {
            if self.entries[i].0 == k {
                proof {
                    self.lemma_view();
                    let j = seq_key_index(self.entry_seq(), k);
                    lemma_map_of_index(self.entry_seq(), i as int);
                    if j != i {
                        lemma_map_of_index(self.entry_seq(), j);
                    }
                }
                return Some(i);
            }
            i = i + 1;
        }
        proof {
            if self@.contains_key(k) {
                self.lemma_view();
                let j = seq_key_index(self.entry_seq(), k);
            }
        }
        None
    }

    pub fn contains_key(&self, k: u32) -> (r: bool)
        requires
            self.inv(),
        ensures
            r == self@.contains_key(k),
    {
        self.index_of(k).is_some()
    }

    pub fn get(&self, k: u32) -> (r: Option<&V>)
        requires
            self.inv(),
        ensures
            match r {
                Some(v) => self@.contains_key(k) && *v == self@[k],
                None => !self@.contains_key(k),
            },
    {
        match self.index_of(k) {
            Some(i) => {
                proof {
                    lemma_map_of_index(self.entry_seq(), i as int);
                }
                Some(&self.entries[i].1)
            },
            None => None,
        }
    }

    pub fn insert(&mut self, k: u32, v: V)
        requires
            old(self).inv(),
        ensures
            final(self).inv(),
            final(self)@ == old(self)@.insert(k, v),
            old(self)@.contains_key(k) ==> final(self).entry_seq() == old(self).entry_seq()
                .update(seq_key_index(old(self).entry_seq(), k), (k, v)),
            !old(self)@.contains_key(k) ==> final(self).entry_seq() == old(self).entry_seq().push(
                (k, v),
            ),
    {
        let ghost s_old = self.entry_seq();
        match self.index_of(k) {
            Some(i) => {
                self.entries.set(i, (k, v));
                proof {
                    let s_new = self.entry_seq();
                    assert(distinct_keys(s_new)) by {
                        assert forall|p: int, q: int| 0 <= p < q < s_new.len() implies (
                        #[trigger] s_new[p]).0 != (#[trigger] s_new[q]).0 by {
                            assert(s_old[p].0 != s_old[q].0);
                        }
                    }
                    assert(final(self)@ =~= old(self)@.insert(k, v)) by {
                        assert forall|k2: u32| #[trigger]
                            map_of(s_new).contains_key(k2) == old(self)@.insert(k, v).contains_key(
                                k2,
                            ) && (map_of(s_new).contains_key(k2) ==> map_of(s_new)[k2] == old(self)@.insert(k, v)[k2]) by {
                            if k2 == k {
                                lemma_map_of_index(s_new, i as int);
                            } else {
                                if seq_has_key(s_new, k2) {
                                    let j = seq_key_index(s_new, k2);
                                    lemma_map_of_index(s_new, j);
                                    assert(s_old[j].0 == k2);
                                    lemma_map_of_index(s_old, j);
                                }
                                if seq_has_key(s_old, k2) {
                                    let j = seq_key_index(s_old, k2);
                                    lemma_map_of_index(s_old, j);
                                    assert(j != i);
                                    assert(s_new[j].0 == k2);
                                    lemma_map_of_index(s_new, j);
                                }
                            }
                        }
                    }
                }
            },
            None => {
                self.entries.push((k, v));
                proof {
                    let s_new = self.entry_seq();
                    assert(distinct_keys(s_new)) by {
                        assert forall|p: int, q: int| 0 <= p < q < s_new.len() implies (
                        #[trigger] s_new[p]).0 != (#[trigger] s_new[q]).0 by {
                            if q == s_old.len() {
                                if s_new[p].0 == k {
                                    assert(seq_has_key(s_old, k));
                                }
                            } else {
                                assert(s_old[p].0 != s_old[q].0);
                            }
                        }
                    }
                    assert(final(self)@ =~= old(self)@.insert(k, v)) by {
                        assert forall|k2: u32| #[trigger]
                            map_of(s_new).contains_key(k2) == old(self)@.insert(k, v).contains_key(
                                k2,
                            ) && (map_of(s_new).contains_key(k2) ==> map_of(s_new)[k2] == old(self)@.insert(k, v)[k2]) by {
                            if k2 == k {
                                lemma_map_of_index(s_new, s_old.len() as int);
                            } else {
                                if seq_has_key(s_new, k2) {
                                    let j = seq_key_index(s_new, k2);
                                    lemma_map_of_index(s_new, j);
                                    assert(s_old[j].0 == k2);
                                    lemma_map_of_index(s_old, j);
                                }
                                if seq_has_key(s_old, k2) {
                                    let j = seq_key_index(s_old, k2);
                                    lemma_map_of_index(s_old, j);
                                    assert(s_new[j].0 == k2);
                                    lemma_map_of_index(s_new, j);
                                }
                            }
                        }
                    }
                }
            },
        }
    }

    pub fn remove(&mut self, k: u32) -> (r: Option<V>)
        requires
            old(self).inv(),
        ensures
            final(self).inv(),
            final(self)@ == old(self)@.remove(k),
            match r {
                Some(v) => old(self)@.contains_key(k) && v == old(self)@[k] && final(self).entry_seq() == old(self).entry_seq().remove(
                    seq_key_index(old(self).entry_seq(), k),
                ),
                None => !old(self)@.contains_key(k) && final(self).entry_seq() == old(self).entry_seq(),
            },
    {
        let ghost s_old = self.entry_seq();
        match self.index_of(k) {
            Some(i) => {
                let e = self.entries.remove(i);
                proof {
                    lemma_map_of_index(s_old, i as int);
                    let s_new = self.entry_seq();
                    assert(distinct_keys(s_new)) by {
                        assert forall|p: int, q: int| 0 <= p < q < s_new.len() implies (
                        #[trigger] s_new[p]).0 != (#[trigger] s_new[q]).0 by {
                            let p0 = if p < i { p } else { p + 1 };
                            let q0 = if q < i { q } else { q + 1 };
                            assert(s_new[p] == s_old[p0]);
                            assert(s_new[q] == s_old[q0]);
                            assert(s_old[p0].0 != s_old[q0].0);
                        }
                    }
                    assert(final(self)@ =~= old(self)@.remove(k)) by {
                        assert forall|k2: u32| #[trigger]
                            map_of(s_new).contains_key(k2) == old(self)@.remove(k).contains_key(
                                k2,
                            ) && (map_of(s_new).contains_key(k2) ==> map_of(s_new)[k2] == old(self)@.remove(k)[k2]) by {
                            if seq_has_key(s_new, k2) {
                                let j = seq_key_index(s_new, k2);
                                lemma_map_of_index(s_new, j);
                                let j0 = if j < i { j } else { j + 1 };
                                assert(s_new[j] == s_old[j0]);
                                lemma_map_of_index(s_old, j0);
                                assert(k2 != k ==> old(self)@.remove(k)[k2] == map_of(s_new)[k2]);
                                if k2 == k {
                                    if j0 < i {
                                        assert(s_old[j0].0 != s_old[i as int].0);
                                    } else {
                                        assert(s_old[i as int].0 != s_old[j0].0);
                                    }
                                }
                            }
                            if k2 != k && seq_has_key(s_old, k2) {
                                let j = seq_key_index(s_old, k2);
                                lemma_map_of_index(s_old, j);
                                assert(j != i);
                                let j1 = if j < i { j } else { j - 1 };
                                assert(s_new[j1] == s_old[j]);
                                assert(seq_has_key(s_new, k2));
                            }
                        }
                    }
                }
                Some(e.1)
            },
            None => {
                proof {
                    assert(final(self)@ =~= old(self)@.remove(k)) by {
                        if self@.contains_key(k) {
                        }
                    }
                }
                None
            },
        }
    }

    /// The key at position `i` of the insertion order.
    pub fn key_at(&self, i: usize) -> (k: u32)
        requires
            self.inv(),
            i < self.entry_seq().len(),
        ensures
            k == self.entry_seq()[i as int].0,
            self@.contains_key(k),
            self@[k] == self.entry_seq()[i as int].1,
    {
        proof {
            lemma_map_of_index(self.entry_seq(), i as int);
        }
        self.entries[i].0
    }

    /// The value at position `i` of the insertion order.
    pub fn value_at(&self, i: usize) -> (v: &V)
        requires
            self.inv(),
            i < self.entry_seq().len(),
        ensures
            *v == self.entry_seq()[i as int].1,
            self@.contains_key(self.entry_seq()[i as int].0),
            self@[self.entry_seq()[i as int].0] == *v,
    {
        proof {
            lemma_map_of_index(self.entry_seq(), i as int);
        }
        &self.entries[i].1
    }

    /// All keys, in insertion order.
    pub fn keys(&self) -> (r: Vec<u32>)
        requires
            self.inv(),
        ensures
            r@ == self.key_seq(),
            forall|i: int| 0 <= i < r@.len() ==> self@.contains_key(#[trigger] r@[i]),
    {
        let n = self.entries.len();
        let mut r: Vec<u32> = Vec::new();
        let mut i: usize = 0;
        while i < n
            invariant
                self.inv(),
                n == self.entry_seq().len(),
                0 <= i <= n,
                r@ == self.key_seq().subrange(0, i as int),
            decreases n - i,
        {
            r.push(self.entries[i].0);
            proof {
                assert(r@ =~= self.key_seq().subrange(0, i + 1));
            }
            i = i + 1;
        }
        proof {
            assert(r@ =~= self.key_seq());
            assert forall|i2: int| 0 <= i2 < r@.len() implies self@.contains_key(
                #[trigger] r@[i2],
            ) by {
                lemma_map_of_index(self.entry_seq(), i2);
            }
        }
        r
    }

    /// Consume the map, handing back its entries in insertion order.
    pub fn into_entries(self) -> (r: Vec<(u32, V)>)
        ensures
            r@ == self.entry_seq(),
    {
        self.entries
    }

    pub fn clear(&mut self)
        ensures
            final(self).inv(),
            final(self)@ == Map::<u32, V>::empty(),
            final(self).entry_seq() == Seq::<(u32, V)>::empty(),
    {
        self.entries = Vec::new();
        proof {
            assert(final(self)@ =~= Map::<u32, V>::empty());
        }
    }
}

} // verus!
