//! The per-operator group cache: a bounded LRU keyed by serialized group
//! keys, with epoch tagging and a ghost ring for reuse-distance
//! instrumentation.
//!
//! Entries are kept in recency order, least recently used first, each tagged
//! with the epoch of its last access. On eviction the key (without its
//! value) enters the bounded ghost ring together with the eviction counter;
//! a later miss that finds the key there reports the number of evictions
//! since as its reuse distance. The operator runs as a single cooperative
//! task, so a lookup hands the value out by reference and a change is
//! written back with `update_value`; no guard is held across a suspension
//! point.

use vstd::prelude::*;

use crate::rows::keys_equal;

verus! {

/// One cached entry, as seen by specifications: key, value, access epoch.
pub type CacheEntryView<V> = (Seq<i64>, V, u64);

/// One ghost entry: evicted key and the eviction counter at its eviction.
pub type GhostEntryView = (Seq<i64>, u64);

pub open spec fn k_has<V>(s: Seq<CacheEntryView<V>>, k: Seq<i64>) -> bool {
    exists|i: int| 0 <= i < s.len() && (#[trigger] s[i]).0 == k
}

pub open spec fn k_index<V>(s: Seq<CacheEntryView<V>>, k: Seq<i64>) -> int {
    choose|i: int| 0 <= i < s.len() && (#[trigger] s[i]).0 == k
}

pub open spec fn k_distinct<V>(s: Seq<CacheEntryView<V>>) -> bool {
    forall|i: int, j: int| 0 <= i < j < s.len() ==> (#[trigger] s[i]).0 != (#[trigger] s[j]).0
}

pub open spec fn g_has(s: Seq<GhostEntryView>, k: Seq<i64>) -> bool {
    exists|i: int| 0 <= i < s.len() && (#[trigger] s[i]).0 == k
}

pub open spec fn g_index(s: Seq<GhostEntryView>, k: Seq<i64>) -> int {
    choose|i: int| 0 <= i < s.len() && (#[trigger] s[i]).0 == k
}

pub open spec fn g_distinct(s: Seq<GhostEntryView>) -> bool {
    forall|i: int, j: int| 0 <= i < j < s.len() ==> (#[trigger] s[i]).0 != (#[trigger] s[j]).0
}

/// The whole mutable state of the ring: cached entries, ghost entries, and
/// the eviction counter.
pub type CacheStateView<V> = (Seq<CacheEntryView<V>>, Seq<GhostEntryView>, u64);

/// One eviction: the least recently used entry leaves the cache, its key
/// enters the ghost ring (dropping the oldest ghost if the ring is full),
/// and the eviction counter advances (saturating).
pub open spec fn evict_one<V>(s: CacheStateView<V>, cap: int) -> CacheStateView<V> {
    let g1 = s.1.push((s.0[0].0, s.2));
    let g2 = if g1.len() > cap {
        g1.subrange(1, g1.len() as int)
    } else {
        g1
    };
    let c1: u64 = if s.2 == u64::MAX {
        u64::MAX
    } else {
        (s.2 + 1) as u64
    };
    (s.0.subrange(1, s.0.len() as int), g2, c1)
}

/// Evictions repeated until at most `limit` entries remain.
pub open spec fn spec_evict<V>(s: CacheStateView<V>, limit: int, cap: int) -> CacheStateView<V>
    decreases s.0.len(),
{
    if s.0.len() <= limit || s.0.len() == 0 {
        s
    } else {
        spec_evict(evict_one(s, cap), limit, cap)
    }
}

/// Evictions of entries from epochs before `epoch`, until at most `limit`
/// entries remain or the least recently used entry is from `epoch`.
pub open spec fn spec_evict_except<V>(
    s: CacheStateView<V>,
    limit: int,
    cap: int,
    epoch: u64,
) -> CacheStateView<V>
    decreases s.0.len(),
{
    if s.0.len() <= limit || s.0.len() == 0 || s.0[0].2 >= epoch {
        s
    } else {
        spec_evict_except(evict_one(s, cap), limit, cap, epoch)
    }
}

/// The group cache: an indexed LRU with epoch tags and a ghost ring.
pub struct IndexedLruCache<V> {
    entries: Vec<(Vec<i64>, V, u64)>,
    ghosts: Vec<(Vec<i64>, u64)>,
    size_limit: usize,
    ghost_cap: usize,
    cur_epoch: u64,
    evict_count: u64,
    bucket_number: usize,
}

impl<V> IndexedLruCache<V> {
    /// The cached entries in recency order, least recently used first.
    pub closed spec fn entries_view(&self) -> Seq<CacheEntryView<V>> {
        self.entries@.map_values(|e: (Vec<i64>, V, u64)| (e.0@, e.1, e.2))
    }

    /// The ghost ring in age order, oldest first.
    pub closed spec fn ghosts_view(&self) -> Seq<GhostEntryView> {
        self.ghosts@.map_values(|e: (Vec<i64>, u64)| (e.0@, e.1))
    }

    pub closed spec fn spec_size_limit(&self) -> usize {
        self.size_limit
    }

    pub closed spec fn spec_ghost_cap(&self) -> usize {
        self.ghost_cap
    }

    pub closed spec fn spec_cur_epoch(&self) -> u64 {
        self.cur_epoch
    }

    pub closed spec fn spec_evict_count(&self) -> u64 {
        self.evict_count
    }

    pub closed spec fn spec_bucket_number(&self) -> usize {
        self.bucket_number
    }

    pub open spec fn state_view(&self) -> CacheStateView<V> {
        (self.entries_view(), self.ghosts_view(), self.spec_evict_count())
    }

    /// Validity: keys are distinct on both sides and never on both; entries
    /// are tagged with nondecreasing epochs bounded by the current epoch;
    /// the ghost ring respects its capacity and records past evictions in
    /// order.
    pub open spec fn inv(&self) -> bool {
        &&& k_distinct(self.entries_view())
        &&& g_distinct(self.ghosts_view())
        &&& forall|i: int, j: int|
            0 <= i < j < self.entries_view().len() ==> (#[trigger] self.entries_view()[i]).2 <= (
            #[trigger] self.entries_view()[j]).2
        &&& forall|i: int|
            0 <= i < self.entries_view().len() ==> (#[trigger] self.entries_view()[i]).2
                <= self.spec_cur_epoch()
        &&& forall|i: int, j: int|
            0 <= i < self.entries_view().len() && 0 <= j < self.ghosts_view().len() ==> (
            #[trigger] self.entries_view()[i]).0 != (#[trigger] self.ghosts_view()[j]).0
        &&& self.ghosts_view().len() <= self.spec_ghost_cap()
        &&& forall|i: int|
            0 <= i < self.ghosts_view().len() ==> (#[trigger] self.ghosts_view()[i]).1
                <= self.spec_evict_count()
        &&& forall|i: int, j: int|
            0 <= i < j < self.ghosts_view().len() ==> (#[trigger] self.ghosts_view()[i]).1 <= (
            #[trigger] self.ghosts_view()[j]).1
    }

    pub fn new(size_limit: usize, ghost_cap: usize, bucket_number: usize) -> (r: Self)
        ensures
            r.inv(),
            r.entries_view() == Seq::<CacheEntryView<V>>::empty(),
            r.ghosts_view() == Seq::<GhostEntryView>::empty(),
            r.spec_size_limit() == size_limit,
            r.spec_ghost_cap() == ghost_cap,
            r.spec_cur_epoch() == 0,
            r.spec_evict_count() == 0,
            r.spec_bucket_number() == bucket_number,
    {
        let r = IndexedLruCache {
            entries: Vec::new(),
            ghosts: Vec::new(),
            size_limit,
            ghost_cap,
            cur_epoch: 0,
            evict_count: 0,
            bucket_number,
        };
        proof {
            assert(r.entries_view() =~= Seq::<CacheEntryView<V>>::empty());
            assert(r.ghosts_view() =~= Seq::<GhostEntryView>::empty());
        }
        r
    }

    pub fn len(&self) -> (r: usize)
        ensures
            r == self.entries_view().len(),
    {
        self.entries.len()
    }

    pub fn ghost_len(&self) -> (r: usize)
        ensures
            r == self.ghosts_view().len(),
    {
        self.ghosts.len()
    }

    pub fn ghost_cap(&self) -> (r: usize)
        ensures
            r == self.spec_ghost_cap(),
    {
        self.ghost_cap
    }

    pub fn size_limit(&self) -> (r: usize)
        ensures
            r == self.spec_size_limit(),
    {
        self.size_limit
    }

    /// The number of reuse-distance buckets this cache is instrumented for.
    pub fn bucket_count(&self) -> (r: usize)
        ensures
            r == self.spec_bucket_number(),
    {
        self.bucket_number
    }

    /// The number of ghost reuse-distance buckets (the same geometry).
    pub fn ghost_bucket_count(&self) -> (r: usize)
        ensures
            r == self.spec_bucket_number(),
    {
        self.bucket_number
    }

    /// Advance the cache's epoch; new and refreshed entries are tagged with
    /// it.
    pub fn update_epoch(&mut self, epoch: u64)
        requires
            old(self).inv(),
            epoch >= old(self).spec_cur_epoch(),
        ensures
            final(self).inv(),
            final(self).spec_cur_epoch() == epoch,
            final(self).entries_view() == old(self).entries_view(),
            final(self).ghosts_view() == old(self).ghosts_view(),
            final(self).spec_size_limit() == old(self).spec_size_limit(),
            final(self).spec_ghost_cap() == old(self).spec_ghost_cap(),
            final(self).spec_evict_count() == old(self).spec_evict_count(),
            final(self).spec_bucket_number() == old(self).spec_bucket_number(),
    {
        self.cur_epoch = epoch;
    }

    /// Resize the cache; the new limit takes effect at the next eviction.
    pub fn update_size_limit(&mut self, size_limit: usize)
        requires
            old(self).inv(),
        ensures
            final(self).inv(),
            final(self).spec_size_limit() == size_limit,
            final(self).entries_view() == old(self).entries_view(),
            final(self).ghosts_view() == old(self).ghosts_view(),
            final(self).spec_cur_epoch() == old(self).spec_cur_epoch(),
            final(self).spec_ghost_cap() == old(self).spec_ghost_cap(),
            final(self).spec_evict_count() == old(self).spec_evict_count(),
            final(self).spec_bucket_number() == old(self).spec_bucket_number(),
    {
        self.size_limit = size_limit;
    }

    /// Resize the ghost ring, dropping its oldest entries if it shrinks.
    pub fn set_ghost_cap(&mut self, cap: usize)
        requires
            old(self).inv(),
        ensures
            final(self).inv(),
            final(self).spec_ghost_cap() == cap,
            final(self).ghosts_view() == (if old(self).ghosts_view().len() > cap {
                old(self).ghosts_view().subrange(
                    old(self).ghosts_view().len() - cap,
                    old(self).ghosts_view().len() as int,
                )
            } else {
                old(self).ghosts_view()
            }),
            final(self).entries_view() == old(self).entries_view(),
            final(self).spec_size_limit() == old(self).spec_size_limit(),
            final(self).spec_cur_epoch() == old(self).spec_cur_epoch(),
            final(self).spec_evict_count() == old(self).spec_evict_count(),
            final(self).spec_bucket_number() == old(self).spec_bucket_number(),
    {
        let ghost orig = self.ghosts_view();
        while self.ghosts.len() > cap
            invariant
                self.entries_view() == old(self).entries_view(),
                self.spec_size_limit() == old(self).spec_size_limit(),
                self.spec_cur_epoch() == old(self).spec_cur_epoch(),
                self.spec_evict_count() == old(self).spec_evict_count(),
                self.spec_bucket_number() == old(self).spec_bucket_number(),
                self.spec_ghost_cap() == old(self).spec_ghost_cap(),
                self.inv(),
                self.ghosts_view() == (if orig.len() > self.ghosts_view().len() {
                    orig.subrange(orig.len() - self.ghosts_view().len(), orig.len() as int)
                } else {
                    orig
                }),
                self.ghosts_view().len() >= cap || self.ghosts_view() == orig,
            decreases self.ghosts.len(),
        {
            let ghost g_before = self.ghosts_view();
            let _ = self.ghosts.remove(0);
            proof {
                let g_new = self.ghosts_view();
                assert(g_new =~= g_before.subrange(1, g_before.len() as int));
                assert(g_distinct(g_new)) by {
                    assert forall|p: int, q: int| 0 <= p < q < g_new.len() implies (
                    #[trigger] g_new[p]).0 != (#[trigger] g_new[q]).0 by {
                        assert(g_before[p + 1].0 != g_before[q + 1].0);
                    }
                }
                assert forall|p: int, q: int|
                    0 <= p < self.entries_view().len() && 0 <= q < g_new.len() implies (
                #[trigger] self.entries_view()[p]).0 != (#[trigger] g_new[q]).0 by {
                    assert(self.entries_view()[p].0 != g_before[q + 1].0);
                }
                assert forall|p: int| 0 <= p < g_new.len() implies (#[trigger] g_new[p]).1
                    <= self.spec_evict_count() by {
                    assert(g_before[p + 1].1 <= self.spec_evict_count());
                }
                assert forall|p: int, q: int| 0 <= p < q < g_new.len() implies (
                #[trigger] g_new[p]).1 <= (#[trigger] g_new[q]).1 by {
                    assert(g_before[p + 1].1 <= g_before[q + 1].1);
                }
                assert(g_new =~= orig.subrange(orig.len() - g_new.len(), orig.len() as int));
            }
        }
        self.ghost_cap = cap;
        proof {
            if orig.len() > cap {
                assert(self.ghosts_view() =~= orig.subrange(orig.len() - cap, orig.len() as int));
            }
        }
    }

    /// The position of `k` among the cached entries.
    fn index_of_key(&self, k: &Vec<i64>) -> (r: Option<usize>)
        requires
            self.inv(),
        ensures
            match r {
                Some(i) => i < self.entries_view().len() && self.entries_view()[i as int].0 == k@
                    && k_has(self.entries_view(), k@) && i == k_index(self.entries_view(), k@),
                None => !k_has(self.entries_view(), k@),
            },
    {
        let n = self.entries.len();
        let mut i: usize = 0;
        while i < n
            invariant
                self.inv(),
                n == self.entries_view().len(),
                0 <= i <= n,
                forall|j: int| 0 <= j < i ==> (#[trigger] self.entries_view()[j]).0 != k@,
            decreases n - i,
        {
            if keys_equal(&self.entries[i].0, k) {
                proof {
                    assert(self.entries_view()[i as int].0 == k@);
                    assert(k_has(self.entries_view(), k@));
                    let j = k_index(self.entries_view(), k@);
                    if j != i {
                        if j < i {
                            assert(self.entries_view()[j].0 != self.entries_view()[i as int].0);
                        } else {
                            assert(self.entries_view()[i as int].0 != self.entries_view()[j].0);
                        }
                    }
                }
                return Some(i);
            }
            i = i + 1;
        }
        None
    }

    /// The position of `k` in the ghost ring.
    fn ghost_index_of(&self, k: &Vec<i64>) -> (r: Option<usize>)
        requires
            self.inv(),
        ensures
            match r {
                Some(i) => i < self.ghosts_view().len() && self.ghosts_view()[i as int].0 == k@
                    && g_has(self.ghosts_view(), k@) && i == g_index(self.ghosts_view(), k@),
                None => !g_has(self.ghosts_view(), k@),
            },
    {
        let n = self.ghosts.len();
        let mut i: usize = 0;
        while i < n
            invariant
                self.inv(),
                n == self.ghosts_view().len(),
                0 <= i <= n,
                forall|j: int| 0 <= j < i ==> (#[trigger] self.ghosts_view()[j]).0 != k@,
            decreases n - i,
        {
            if keys_equal(&self.ghosts[i].0, k) {
                proof {
                    assert(self.ghosts_view()[i as int].0 == k@);
                    assert(g_has(self.ghosts_view(), k@));
                    let j = g_index(self.ghosts_view(), k@);
                    if j != i {
                        if j < i {
                            assert(self.ghosts_view()[j].0 != self.ghosts_view()[i as int].0);
                        } else {
                            assert(self.ghosts_view()[i as int].0 != self.ghosts_view()[j].0);
                        }
                    }
                }
                return Some(i);
            }
            i = i + 1;
        }
        None
    }

    /// Probe the cache for `k`. A hit refreshes the entry (most recent,
    /// tagged with the current epoch) and, when this lookup is sampled,
    /// reports the entry's stack distance. A miss that finds `k` in the
    /// ghost ring reports the number of evictions since `k` was evicted,
    /// marked as a ghost distance.
    pub fn contains_sampled(&mut self, k: &Vec<i64>, sampled: bool) -> (r: (
        bool,
        Option<(u64, bool)>,
    ))
        requires
            old(self).inv(),
        ensures
            final(self).inv(),
            r.0 == k_has(old(self).entries_view(), k@),
            final(self).ghosts_view() == old(self).ghosts_view(),
            final(self).spec_size_limit() == old(self).spec_size_limit(),
            final(self).spec_ghost_cap() == old(self).spec_ghost_cap(),
            final(self).spec_cur_epoch() == old(self).spec_cur_epoch(),
            final(self).spec_evict_count() == old(self).spec_evict_count(),
            final(self).spec_bucket_number() == old(self).spec_bucket_number(),
            r.0 ==> {
                let i = k_index(old(self).entries_view(), k@);
                let e = old(self).entries_view()[i];
                &&& final(self).entries_view() == old(self).entries_view().remove(i).push(
                    (e.0, e.1, old(self).spec_cur_epoch()),
                )
                &&& r.1 == (if sampled {
                    Some(((old(self).entries_view().len() - 1 - i) as u64, false))
                } else {
                    None::<(u64, bool)>
                })
            },
            !r.0 ==> final(self).entries_view() == old(self).entries_view(),
            !r.0 ==> r.1 == (if g_has(old(self).ghosts_view(), k@) {
                Some(
                    (
                        (old(self).spec_evict_count() - old(self).ghosts_view()[g_index(
                            old(self).ghosts_view(),
                            k@,
                        )].1) as u64,
                        true,
                    ),
                )
            } else {
                None::<(u64, bool)>
            }),
    {
        match self.index_of_key(k) {
            Some(i) => {
                let d = self.entries.len() - 1 - i;
                let e = self.entries.remove(i);
                self.entries.push((e.0, e.1, self.cur_epoch));
                proof {
                    assert(self.entries_view() =~= old(self).entries_view().remove(i as int).push(
                        (
                            old(self).entries_view()[i as int].0,
                            old(self).entries_view()[i as int].1,
                            old(self).spec_cur_epoch(),
                        ),
                    ));
                    let s_new = self.entries_view();
                    let s_old = old(self).entries_view();
                    assert(k_distinct(s_new)) by {
                        assert forall|p: int, q: int| 0 <= p < q < s_new.len() implies (
                        #[trigger] s_new[p]).0 != (#[trigger] s_new[q]).0 by {
                            let p0 = if p < i {
                                p
                            } else {
                                p + 1
                            };
                            if q == s_new.len() - 1 {
                                if p0 < i {
                                    assert(s_old[p0].0 != s_old[i as int].0);
                                } else {
                                    assert(s_old[i as int].0 != s_old[p0].0);
                                }
                            } else {
                                let q0 = if q < i {
                                    q
                                } else {
                                    q + 1
                                };
                                assert(s_old[p0].0 != s_old[q0].0);
                            }
                        }
                    }
                }
                if sampled {
                    (true, Some((d as u64, false)))
                } else {
                    (true, None)
                }
            },
            None => {
                match self.ghost_index_of(k) {
                    Some(j) => {
                        let d = self.evict_count - self.ghosts[j].1;
                        (false, Some((d, true)))
                    },
                    None => (false, None),
                }
            },
        }
    }

    /// Look at the cached value of `k` without touching recency.
    pub fn get(&self, k: &Vec<i64>) -> (r: Option<&V>)
        requires
            self.inv(),
        ensures
            match r {
                Some(v) => k_has(self.entries_view(), k@) && *v == self.entries_view()[k_index(
                    self.entries_view(),
                    k@,
                )].1,
                None => !k_has(self.entries_view(), k@),
            },
    {
        match self.index_of_key(k) {
            Some(i) => Some(&self.entries[i].1),
            None => None,
        }
    }

    /// Insert `k` or refresh it: the entry becomes the most recent, tagged
    /// with the current epoch; a ghost entry for `k` is dropped.
    pub fn put(&mut self, k: Vec<i64>, v: V)
        requires
            old(self).inv(),
        ensures
            final(self).inv(),
            k_has(old(self).entries_view(), k@) ==> final(self).entries_view() == old(
                self,
            ).entries_view().remove(k_index(old(self).entries_view(), k@)).push(
                (k@, v, old(self).spec_cur_epoch()),
            ) && final(self).ghosts_view() == old(self).ghosts_view(),
            !k_has(old(self).entries_view(), k@) ==> final(self).entries_view() == old(
                self,
            ).entries_view().push((k@, v, old(self).spec_cur_epoch())) && final(self).ghosts_view()
                == (if g_has(old(self).ghosts_view(), k@) {
                old(self).ghosts_view().remove(g_index(old(self).ghosts_view(), k@))
            } else {
                old(self).ghosts_view()
            }),
            final(self).spec_size_limit() == old(self).spec_size_limit(),
            final(self).spec_ghost_cap() == old(self).spec_ghost_cap(),
            final(self).spec_cur_epoch() == old(self).spec_cur_epoch(),
            final(self).spec_evict_count() == old(self).spec_evict_count(),
            final(self).spec_bucket_number() == old(self).spec_bucket_number(),
    {
        match self.index_of_key(&k) {
            Some(i) => {
                let _ = self.entries.remove(i);
                self.entries.push((k, v, self.cur_epoch));
                proof {
                    let s_old = old(self).entries_view();
                    let s_new = self.entries_view();
                    assert(s_new =~= s_old.remove(i as int).push(
                        (s_old[i as int].0, v, old(self).spec_cur_epoch()),
                    ));
                    assert(k_distinct(s_new)) by {
                        assert forall|p: int, q: int| 0 <= p < q < s_new.len() implies (
                        #[trigger] s_new[p]).0 != (#[trigger] s_new[q]).0 by {
                            let p0 = if p < i {
                                p
                            } else {
                                p + 1
                            };
                            if q == s_new.len() - 1 {
                                if p0 < i {
                                    assert(s_old[p0].0 != s_old[i as int].0);
                                } else {
                                    assert(s_old[i as int].0 != s_old[p0].0);
                                }
                            } else {
                                let q0 = if q < i {
                                    q
                                } else {
                                    q + 1
                                };
                                assert(s_old[p0].0 != s_old[q0].0);
                            }
                        }
                    }
                }
            },
            None => {
                match self.ghost_index_of(&k) {
                    Some(j) => {
                        let _ = self.ghosts.remove(j);
                        proof {
                            let g_old = old(self).ghosts_view();
                            let g_new = self.ghosts_view();
                            assert(g_new =~= g_old.remove(j as int));
                            assert(g_distinct(g_new)) by {
                                assert forall|p: int, q: int| 0 <= p < q < g_new.len() implies (
                                #[trigger] g_new[p]).0 != (#[trigger] g_new[q]).0 by {
                                    let p0 = if p < j {
                                        p
                                    } else {
                                        p + 1
                                    };
                                    let q0 = if q < j {
                                        q
                                    } else {
                                        q + 1
                                    };
                                    assert(g_old[p0].0 != g_old[q0].0);
                                }
                            }
                        }
                    },
                    None => {},
                }
                self.entries.push((k, v, self.cur_epoch));
                proof {
                    let s_old = old(self).entries_view();
                    let s_new = self.entries_view();
                    assert(s_new =~= s_old.push((s_new[s_new.len() - 1].0, v, old(
                        self,
                    ).spec_cur_epoch())));
                    assert(k_distinct(s_new)) by {
                        assert forall|p: int, q: int| 0 <= p < q < s_new.len() implies (
                        #[trigger] s_new[p]).0 != (#[trigger] s_new[q]).0 by {
                            if q == s_new.len() - 1 {
                                if s_new[p].0 == s_new[q].0 {
                                    assert(k_has(s_old, s_new[q].0));
                                }
                            } else {
                                assert(s_old[p].0 != s_old[q].0);
                            }
                        }
                    }
                }
            },
        }
    }

    /// Take the cached entry of `k` out entirely (no ghost entry is made);
    /// the caller puts the reworked value back with `put`.
    pub fn take(&mut self, k: &Vec<i64>) -> (r: Option<V>)
        requires
            old(self).inv(),
        ensures
            final(self).inv(),
            match r {
                Some(v) => k_has(old(self).entries_view(), k@) && v == old(self).entries_view()[
                    k_index(old(self).entries_view(), k@)
                ].1 && final(self).entries_view() == old(self).entries_view().remove(
                    k_index(old(self).entries_view(), k@),
                ),
                None => !k_has(old(self).entries_view(), k@) && final(self).entries_view() == old(
                    self,
                ).entries_view(),
            },
            final(self).ghosts_view() == old(self).ghosts_view(),
            final(self).spec_size_limit() == old(self).spec_size_limit(),
            final(self).spec_ghost_cap() == old(self).spec_ghost_cap(),
            final(self).spec_cur_epoch() == old(self).spec_cur_epoch(),
            final(self).spec_evict_count() == old(self).spec_evict_count(),
            final(self).spec_bucket_number() == old(self).spec_bucket_number(),
    {
        match self.index_of_key(k) {
            Some(i) => {
                let e = self.entries.remove(i);
                proof {
                    let s_old = old(self).entries_view();
                    let s_new = self.entries_view();
                    assert(s_new =~= s_old.remove(i as int));
                    assert(k_distinct(s_new)) by {
                        assert forall|p: int, q: int| 0 <= p < q < s_new.len() implies (
                        #[trigger] s_new[p]).0 != (#[trigger] s_new[q]).0 by {
                            let p0 = if p < i {
                                p
                            } else {
                                p + 1
                            };
                            let q0 = if q < i {
                                q
                            } else {
                                q + 1
                            };
                            assert(s_old[p0].0 != s_old[q0].0);
                        }
                    }
                }
                Some(e.1)
            },
            None => None,
        }
    }

    /// Replace the cached value of `k` in place, leaving recency and epoch
    /// tags alone. Returns whether `k` was cached.
    pub fn update_value(&mut self, k: &Vec<i64>, v: V) -> (r: bool)
        requires
            old(self).inv(),
        ensures
            final(self).inv(),
            r == k_has(old(self).entries_view(), k@),
            r ==> final(self).entries_view() == old(self).entries_view().update(
                k_index(old(self).entries_view(), k@),
                (
                    old(self).entries_view()[k_index(old(self).entries_view(), k@)].0,
                    v,
                    old(self).entries_view()[k_index(old(self).entries_view(), k@)].2,
                ),
            ),
            !r ==> final(self).entries_view() == old(self).entries_view(),
            final(self).ghosts_view() == old(self).ghosts_view(),
            final(self).spec_size_limit() == old(self).spec_size_limit(),
            final(self).spec_ghost_cap() == old(self).spec_ghost_cap(),
            final(self).spec_cur_epoch() == old(self).spec_cur_epoch(),
            final(self).spec_evict_count() == old(self).spec_evict_count(),
            final(self).spec_bucket_number() == old(self).spec_bucket_number(),
    {
        match self.index_of_key(k) {
            Some(i) => {
                let e = self.entries.remove(i);
                self.entries.insert(i, (e.0, v, e.2));
                proof {
                    let s_old = old(self).entries_view();
                    let s_new = self.entries_view();
                    assert(s_new =~= s_old.update(
                        i as int,
                        (s_old[i as int].0, v, s_old[i as int].2),
                    ));
                    assert(k_distinct(s_new)) by {
                        assert forall|p: int, q: int| 0 <= p < q < s_new.len() implies (
                        #[trigger] s_new[p]).0 != (#[trigger] s_new[q]).0 by {
                            assert(s_old[p].0 != s_old[q].0);
                        }
                    }
                }
                true
            },
            None => false,
        }
    }

    /// Evict least recently used entries until the size limit is met. Every
    /// eviction moves the key into the ghost ring.
    pub fn evict(&mut self)
        requires
            old(self).inv(),
        ensures
            final(self).inv(),
            final(self).state_view() == spec_evict(
                old(self).state_view(),
                old(self).spec_size_limit() as int,
                old(self).spec_ghost_cap() as int,
            ),
            final(self).entries_view().len() <= final(self).spec_size_limit(),
            final(self).spec_size_limit() == old(self).spec_size_limit(),
            final(self).spec_ghost_cap() == old(self).spec_ghost_cap(),
            final(self).spec_cur_epoch() == old(self).spec_cur_epoch(),
            final(self).spec_bucket_number() == old(self).spec_bucket_number(),
    {
        while self.entries.len() > self.size_limit
            invariant
                self.inv(),
                self.spec_size_limit() == old(self).spec_size_limit(),
                self.spec_ghost_cap() == old(self).spec_ghost_cap(),
                self.spec_cur_epoch() == old(self).spec_cur_epoch(),
                self.spec_bucket_number() == old(self).spec_bucket_number(),
                spec_evict(
                    self.state_view(),
                    self.spec_size_limit() as int,
                    self.spec_ghost_cap() as int,
                ) == spec_evict(
                    old(self).state_view(),
                    old(self).spec_size_limit() as int,
                    old(self).spec_ghost_cap() as int,
                ),
            decreases self.entries.len(),
        {
            self.evict_lru_once();
        }
    }

    /// Evict least recently used entries from earlier epochs, until the
    /// size limit is met or only entries of the current epoch remain.
    pub fn evict_except_cur_epoch(&mut self)
        requires
            old(self).inv(),
        ensures
            final(self).inv(),
            final(self).state_view() == spec_evict_except(
                old(self).state_view(),
                old(self).spec_size_limit() as int,
                old(self).spec_ghost_cap() as int,
                old(self).spec_cur_epoch(),
            ),
            final(self).spec_size_limit() == old(self).spec_size_limit(),
            final(self).spec_ghost_cap() == old(self).spec_ghost_cap(),
            final(self).spec_cur_epoch() == old(self).spec_cur_epoch(),
            final(self).spec_bucket_number() == old(self).spec_bucket_number(),
    {
        while self.entries.len() > self.size_limit && self.entries[0].2 < self.cur_epoch
            invariant
                self.inv(),
                self.spec_size_limit() == old(self).spec_size_limit(),
                self.spec_ghost_cap() == old(self).spec_ghost_cap(),
                self.spec_cur_epoch() == old(self).spec_cur_epoch(),
                self.spec_bucket_number() == old(self).spec_bucket_number(),
                spec_evict_except(
                    self.state_view(),
                    self.spec_size_limit() as int,
                    self.spec_ghost_cap() as int,
                    self.spec_cur_epoch(),
                ) == spec_evict_except(
                    old(self).state_view(),
                    old(self).spec_size_limit() as int,
                    old(self).spec_ghost_cap() as int,
                    old(self).spec_cur_epoch(),
                ),
            decreases self.entries.len(),
        {
            self.evict_lru_once();
        }
    }

    /// One eviction step, exactly [`evict_one`].
    fn evict_lru_once(&mut self)
        requires
            old(self).inv(),
            old(self).entries_view().len() > 0,
        ensures
            final(self).inv(),
            final(self).state_view() == evict_one(
                old(self).state_view(),
                old(self).spec_ghost_cap() as int,
            ),
            final(self).spec_size_limit() == old(self).spec_size_limit(),
            final(self).spec_ghost_cap() == old(self).spec_ghost_cap(),
            final(self).spec_cur_epoch() == old(self).spec_cur_epoch(),
            final(self).spec_bucket_number() == old(self).spec_bucket_number(),
            final(self).entries_view().len() == old(self).entries_view().len() - 1,
    {
        let e = self.entries.remove(0);
        self.ghosts.push((e.0, self.evict_count));
        if self.ghosts.len() > self.ghost_cap {
            let _ = self.ghosts.remove(0);
        }
        self.evict_count = self.evict_count.saturating_add(1);
        proof {
            let s_old = old(self).state_view();
            let stepped = evict_one(s_old, old(self).spec_ghost_cap() as int);
            assert(self.entries_view() =~= stepped.0);
            assert(self.ghosts_view() =~= stepped.1);
            let s_new = self.entries_view();
            let g_new = self.ghosts_view();
            assert(k_distinct(s_new)) by {
                assert forall|p: int, q: int| 0 <= p < q < s_new.len() implies (
                #[trigger] s_new[p]).0 != (#[trigger] s_new[q]).0 by {
                    assert(s_old.0[p + 1].0 != s_old.0[q + 1].0);
                }
            }
            assert(g_distinct(g_new)) by {
                let g_mid = s_old.1.push((s_old.0[0].0, s_old.2));
                assert(g_distinct(g_mid)) by {
                    assert forall|p: int, q: int| 0 <= p < q < g_mid.len() implies (
                    #[trigger] g_mid[p]).0 != (#[trigger] g_mid[q]).0 by {
                        if q == g_mid.len() - 1 {
                            assert(s_old.0[0].0 != s_old.1[p].0);
                        } else {
                            assert(s_old.1[p].0 != s_old.1[q].0);
                        }
                    }
                }
                if g_mid.len() > old(self).spec_ghost_cap() {
                    assert forall|p: int, q: int| 0 <= p < q < g_new.len() implies (
                    #[trigger] g_new[p]).0 != (#[trigger] g_new[q]).0 by {
                        assert(g_mid[p + 1].0 != g_mid[q + 1].0);
                    }
                }
            }
        }
    }

    /// Drop every cached entry and every ghost entry, for instance after a
    /// vnode rebalance made the cache stale.
    pub fn clear(&mut self)
        requires
            old(self).inv(),
        ensures
            final(self).inv(),
            final(self).entries_view() == Seq::<CacheEntryView<V>>::empty(),
            final(self).ghosts_view() == Seq::<GhostEntryView>::empty(),
            final(self).spec_size_limit() == old(self).spec_size_limit(),
            final(self).spec_ghost_cap() == old(self).spec_ghost_cap(),
            final(self).spec_cur_epoch() == old(self).spec_cur_epoch(),
            final(self).spec_evict_count() == old(self).spec_evict_count(),
            final(self).spec_bucket_number() == old(self).spec_bucket_number(),
    {
        self.entries = Vec::new();
        self.ghosts = Vec::new();
        proof {
            assert(self.entries_view() =~= Seq::<CacheEntryView<V>>::empty());
            assert(self.ghosts_view() =~= Seq::<GhostEntryView>::empty());
        }
    }
}

/// After `evict`, the cache holds at most its size limit, and the ghost
/// ring at most its capacity: eviction enforces both bounds.
pub proof fn lemma_evict_bounds<V>(s: CacheStateView<V>, limit: int, cap: int)
    requires
        0 <= limit,
        0 <= cap,
        s.1.len() <= cap,
    ensures
        spec_evict(s, limit, cap).0.len() <= limit,
        spec_evict(s, limit, cap).1.len() <= cap,
    decreases s.0.len(),
{
    if s.0.len() <= limit {
    } else {
        lemma_evict_bounds(evict_one(s, cap), limit, cap);
    }
}

} // verus!
