//! The epoch-scoped state table: a logical ordered mapping from primary key
//! to row over the shared store. Writes between two barriers are buffered;
//! `commit` makes them durable at the previous epoch and advances to the
//! current one. Each table remembers the epochs it committed, which is what
//! the once-per-epoch commit discipline of the operator is stated over.

use vstd::prelude::*;

use crate::rows::{keys_equal, project, spec_project};

verus! {

/// The `(previous, current)` epochs a barrier travels with.
#[derive(Clone, Copy, Debug, PartialEq, Eq, Structural)]
pub struct EpochPair {
    pub prev: u64,
    pub curr: u64,
}

/// A change operation on a row.
#[derive(Clone, Copy, Debug, PartialEq, Eq, Structural)]
pub enum Op {
    Insert,
    Delete,
    UpdateDelete,
    UpdateInsert,
}

/// Whether the operation adds its row (as opposed to removing it).
pub open spec fn op_is_insert(op: Op) -> bool {
    op matches Op::Insert || op matches Op::UpdateInsert
}

pub open spec fn t_has(s: Seq<(Seq<i64>, Seq<i64>)>, k: Seq<i64>) -> bool {
    exists|i: int| 0 <= i < s.len() && (#[trigger] s[i]).0 == k
}

pub open spec fn t_index(s: Seq<(Seq<i64>, Seq<i64>)>, k: Seq<i64>) -> int {
    choose|i: int| 0 <= i < s.len() && (#[trigger] s[i]).0 == k
}

pub open spec fn t_distinct(s: Seq<(Seq<i64>, Seq<i64>)>) -> bool {
    forall|i: int, j: int| 0 <= i < j < s.len() ==> (#[trigger] s[i]).0 != (#[trigger] s[j]).0
}

/// One buffered write applied to the committed entries: an insert upserts
/// the row under its primary key, a delete removes that key.
pub open spec fn apply_op(
    c: Seq<(Seq<i64>, Seq<i64>)>,
    op: Op,
    row: Seq<i64>,
    pk_indices: Seq<usize>,
) -> Seq<(Seq<i64>, Seq<i64>)> {
    let pk = spec_project(row, pk_indices);
    if op_is_insert(op) {
        if t_has(c, pk) {
            c.update(t_index(c, pk), (pk, row))
        } else {
            c.push((pk, row))
        }
    } else {
        if t_has(c, pk) {
            c.remove(t_index(c, pk))
        } else {
            c
        }
    }
}

/// All buffered writes applied in order.
pub open spec fn apply_staged(
    c: Seq<(Seq<i64>, Seq<i64>)>,
    staged: Seq<(Op, Seq<i64>)>,
    pk_indices: Seq<usize>,
) -> Seq<(Seq<i64>, Seq<i64>)>
    decreases staged.len(),
{
    if staged.len() == 0 {
        c
    } else {
        apply_staged(
            apply_op(c, staged[0].0, staged[0].1, pk_indices),
            staged.subrange(1, staged.len() as int),
            pk_indices,
        )
    }
}

/// The writes a chunk stages: its visible `(op, row)` pairs, in order.
pub open spec fn chunk_writes(ops: Seq<Op>, rows: Seq<Seq<i64>>, vis: Seq<bool>) -> Seq<
    (Op, Seq<i64>),
>
    decreases ops.len(),
{
    if ops.len() == 0 {
        Seq::empty()
    } else {
        let rest = chunk_writes(
            ops.drop_last(),
            rows.drop_last(),
            vis.drop_last(),
        );
        if vis.last() {
            rest.push((ops.last(), rows.last()))
        } else {
            rest
        }
    }
}

/// Every primary-key index falls inside `row`.
pub open spec fn row_wf_for(row: Seq<i64>, pk_indices: Seq<usize>) -> bool {
    forall|j: int| 0 <= j < pk_indices.len() ==> (#[trigger] pk_indices[j]) < row.len()
}

/// Committed entries are keyed by the primary key of their row, with
/// distinct keys and well-formed rows.
pub open spec fn committed_entries_wf(c: Seq<(Seq<i64>, Seq<i64>)>, pk_indices: Seq<usize>) -> bool {
    &&& t_distinct(c)
    &&& forall|i: int|
        0 <= i < c.len() ==> (#[trigger] c[i]).0 == spec_project(c[i].1, pk_indices)
            && row_wf_for(c[i].1, pk_indices)
}

/// Every staged row is well formed.
pub open spec fn staged_wf(s: Seq<(Op, Seq<i64>)>, pk_indices: Seq<usize>) -> bool {
    forall|i: int| 0 <= i < s.len() ==> row_wf_for((#[trigger] s[i]).1, pk_indices)
}

/// The commit log is strictly increasing and stays below the current epoch.
pub open spec fn log_wf(log: Seq<u64>, epoch: Option<EpochPair>) -> bool {
    &&& forall|i: int, j: int|
        0 <= i < j < log.len() ==> (#[trigger] log[i]) < (#[trigger] log[j])
    &&& (epoch matches Some(e) ==> e.prev < e.curr && forall|i: int|
        0 <= i < log.len() ==> (#[trigger] log[i]) < e.curr)
    &&& (epoch is None ==> log.len() == 0)
}

pub proof fn lemma_staged_wf_push(s: Seq<(Op, Seq<i64>)>, pk_indices: Seq<usize>, op: Op, row: Seq<i64>)
    requires
        staged_wf(s, pk_indices),
        row_wf_for(row, pk_indices),
    ensures
        staged_wf(s.push((op, row)), pk_indices),
{
    assert forall|i: int| 0 <= i < s.push((op, row)).len() implies row_wf_for(
        (#[trigger] s.push((op, row))[i]).1,
        pk_indices,
    ) by {
        if i < s.len() {
            assert(s.push((op, row))[i] == s[i]);
        }
    }
}

pub struct StateTable {
    table_id: u32,
    pk_indices: Vec<usize>,
    committed: Vec<(Vec<i64>, Vec<i64>)>,
    staged: Vec<(Op, Vec<i64>)>,
    epoch: Option<EpochPair>,
    vnodes: Vec<bool>,
    watermark: Option<i64>,
    commit_log: Vec<u64>,
}

impl StateTable {
    /// The committed entries, primary key to row.
    pub closed spec fn committed_view(&self) -> Seq<(Seq<i64>, Seq<i64>)> {
        self.committed@.map_values(|e: (Vec<i64>, Vec<i64>)| (e.0@, e.1@))
    }

    /// The writes buffered since the last commit, in order.
    pub closed spec fn staged_view(&self) -> Seq<(Op, Seq<i64>)> {
        self.staged@.map_values(|e: (Op, Vec<i64>)| (e.0, e.1@))
    }

    pub closed spec fn spec_table_id(&self) -> u32 {
        self.table_id
    }

    pub closed spec fn spec_pk_indices(&self) -> Seq<usize> {
        self.pk_indices@
    }

    pub closed spec fn spec_epoch(&self) -> Option<EpochPair> {
        self.epoch
    }

    pub closed spec fn spec_vnodes(&self) -> Seq<bool> {
        self.vnodes@
    }

    pub closed spec fn spec_watermark(&self) -> Option<i64> {
        self.watermark
    }

    /// The previous-epochs of all commits, in commit order.
    pub closed spec fn commit_log_view(&self) -> Seq<u64> {
        self.commit_log@
    }

    /// A row is well formed here when every primary-key index falls inside
    /// it.
    pub open spec fn row_wf(&self, row: Seq<i64>) -> bool {
        row_wf_for(row, self.spec_pk_indices())
    }

    /// Validity: committed entries are keyed by the primary key of their
    /// row, with distinct keys; staged rows are well formed; the commit log
    /// is strictly increasing and stays below the current epoch.
    pub open spec fn inv(&self) -> bool {
        &&& committed_entries_wf(self.committed_view(), self.spec_pk_indices())
        &&& staged_wf(self.staged_view(), self.spec_pk_indices())
        &&& log_wf(self.commit_log_view(), self.spec_epoch())
        &&& (self.spec_epoch() is None ==> self.staged_view().len() == 0)
    }

    /// A fresh, uninitialized table owning the given vnodes.
    pub fn new(table_id: u32, pk_indices: Vec<usize>, vnodes: Vec<bool>) -> (r: Self)
        ensures
            r.inv(),
            r.spec_table_id() == table_id,
            r.spec_pk_indices() == pk_indices@,
            r.spec_vnodes() == vnodes@,
            r.committed_view() == Seq::<(Seq<i64>, Seq<i64>)>::empty(),
            r.staged_view() == Seq::<(Op, Seq<i64>)>::empty(),
            r.spec_epoch() is None,
            r.spec_watermark() is None,
            r.commit_log_view() == Seq::<u64>::empty(),
    {
        let r = StateTable {
            table_id,
            pk_indices,
            committed: Vec::new(),
            staged: Vec::new(),
            epoch: None,
            vnodes,
            watermark: None,
            commit_log: Vec::new(),
        };
        proof {
            assert(r.committed_view() =~= Seq::<(Seq<i64>, Seq<i64>)>::empty());
            assert(r.staged_view() =~= Seq::<(Op, Seq<i64>)>::empty());
        }
        r
    }

    pub fn table_id(&self) -> (r: u32)
        ensures
            r == self.spec_table_id(),
    {
        self.table_id
    }

    pub fn pk_indices(&self) -> (r: &Vec<usize>)
        ensures
            r@ == self.spec_pk_indices(),
    {
        &self.pk_indices
    }

    pub fn vnodes(&self) -> (r: &Vec<bool>)
        ensures
            r@ == self.spec_vnodes(),
    {
        &self.vnodes
    }

    pub fn staged_len(&self) -> (r: usize)
        ensures
            r == self.staged_view().len(),
    {
        self.staged.len()
    }

    /// How many epochs this table has committed.
    pub fn commit_count(&self) -> (r: usize)
        ensures
            r == self.commit_log_view().len(),
    {
        self.commit_log.len()
    }

    pub fn is_initialized(&self) -> (r: bool)
        ensures
            r == (self.spec_epoch() is Some),
    {
        self.epoch.is_some()
    }

    pub fn epoch(&self) -> (r: Option<EpochPair>)
        ensures
            r == self.spec_epoch(),
    {
        self.epoch
    }

    /// Start the table at the epoch of the first barrier.
    pub fn init_epoch(&mut self, epoch: EpochPair)
        requires
            old(self).inv(),
            old(self).spec_epoch() is None,
            epoch.prev < epoch.curr,
        ensures
            final(self).inv(),
            final(self).spec_epoch() == Some(epoch),
            final(self).committed_view() == old(self).committed_view(),
            final(self).staged_view() == old(self).staged_view(),
            final(self).commit_log_view() == old(self).commit_log_view(),
            final(self).spec_table_id() == old(self).spec_table_id(),
            final(self).spec_pk_indices() == old(self).spec_pk_indices(),
            final(self).spec_vnodes() == old(self).spec_vnodes(),
            final(self).spec_watermark() == old(self).spec_watermark(),
    {
        self.epoch = Some(epoch);
    }

    /// Buffer one write.
    pub fn write_record(&mut self, op: Op, row: Vec<i64>)
        requires
            old(self).inv(),
            old(self).spec_epoch() is Some,
            old(self).row_wf(row@),
        ensures
            final(self).inv(),
            final(self).staged_view() == old(self).staged_view().push((op, row@)),
            final(self).committed_view() == old(self).committed_view(),
            final(self).commit_log_view() == old(self).commit_log_view(),
            final(self).spec_epoch() == old(self).spec_epoch(),
            final(self).spec_table_id() == old(self).spec_table_id(),
            final(self).spec_pk_indices() == old(self).spec_pk_indices(),
            final(self).spec_vnodes() == old(self).spec_vnodes(),
            final(self).spec_watermark() == old(self).spec_watermark(),
    {
        let ghost row_v = row@;
        self.staged.push((op, row));
        proof {
            assert(self.staged_view() =~= old(self).staged_view().push((op, row_v)));
        }
    }

    /// Buffer every visible row of a chunk, in chunk order.
    pub fn write_chunk(&mut self, ops: &Vec<Op>, rows: &Vec<Vec<i64>>, vis: &Vec<bool>)
        requires
            old(self).inv(),
            old(self).spec_epoch() is Some,
            ops@.len() == rows@.len() == vis@.len(),
            forall|i: int| 0 <= i < rows@.len() ==> old(self).row_wf((#[trigger] rows@[i])@),
        ensures
            final(self).inv(),
            final(self).staged_view() == old(self).staged_view() + chunk_writes(
                ops@,
                rows@.map_values(|r: Vec<i64>| r@),
                vis@,
            ),
            final(self).committed_view() == old(self).committed_view(),
            final(self).commit_log_view() == old(self).commit_log_view(),
            final(self).spec_epoch() == old(self).spec_epoch(),
            final(self).spec_table_id() == old(self).spec_table_id(),
            final(self).spec_pk_indices() == old(self).spec_pk_indices(),
            final(self).spec_vnodes() == old(self).spec_vnodes(),
            final(self).spec_watermark() == old(self).spec_watermark(),
    {
        let ghost rows_v = rows@.map_values(|r: Vec<i64>| r@);
        let n = ops.len();
        let mut i: usize = 0;
        while i < n
            invariant
                self.inv(),
                n == ops@.len() == rows@.len() == vis@.len(),
                0 <= i <= n,
                rows_v == rows@.map_values(|r: Vec<i64>| r@),
                forall|j: int| 0 <= j < rows@.len() ==> self.row_wf((#[trigger] rows@[j])@),
                self.spec_epoch() == old(self).spec_epoch(),
                self.spec_epoch() is Some,
                self.staged_view() == old(self).staged_view() + chunk_writes(
                    ops@.subrange(0, i as int),
                    rows_v.subrange(0, i as int),
                    vis@.subrange(0, i as int),
                ),
                self.committed_view() == old(self).committed_view(),
                self.commit_log_view() == old(self).commit_log_view(),
                self.spec_table_id() == old(self).spec_table_id(),
                self.spec_pk_indices() == old(self).spec_pk_indices(),
                self.spec_vnodes() == old(self).spec_vnodes(),
                self.spec_watermark() == old(self).spec_watermark(),
            decreases n - i,
        {
            proof {
                lemma_chunk_writes_push(
                    ops@.subrange(0, i as int),
                    rows_v.subrange(0, i as int),
                    vis@.subrange(0, i as int),
                    ops@[i as int],
                    rows_v[i as int],
                    vis@[i as int],
                );
                assert(ops@.subrange(0, i + 1) =~= ops@.subrange(0, i as int).push(
                    ops@[i as int],
                ));
                assert(rows_v.subrange(0, i + 1) =~= rows_v.subrange(0, i as int).push(
                    rows_v[i as int],
                ));
                assert(vis@.subrange(0, i + 1) =~= vis@.subrange(0, i as int).push(
                    vis@[i as int],
                ));
            }
            if vis[i] {
                let row = crate::rows::copy_i64_vec(&rows[i]);
                proof {
                    assert(row@ == rows_v[i as int]);
                }
                let ghost st_before = self.staged_view();
                let op = ops[i];
                self.staged.push((op, row));
                proof {
                    assert(self.staged_view() =~= st_before.push(
                        (ops@[i as int], rows_v[i as int]),
                    ));
                    lemma_staged_wf_push(
                        st_before,
                        self.spec_pk_indices(),
                        ops@[i as int],
                        rows_v[i as int],
                    );
                    assert(self.staged_view() =~= old(self).staged_view() + chunk_writes(
                        ops@.subrange(0, i + 1),
                        rows_v.subrange(0, i + 1),
                        vis@.subrange(0, i + 1),
                    ));
                }
            }
            i = i + 1;
        }
        proof {
            assert(ops@.subrange(0, n as int) =~= ops@);
            assert(rows_v.subrange(0, n as int) =~= rows_v);
            assert(vis@.subrange(0, n as int) =~= vis@);
        }
    }

    /// Remember the watermark, for state cleaning below it.
    pub fn update_watermark(&mut self, watermark: i64, _strict: bool)
        requires
            old(self).inv(),
        ensures
            final(self).inv(),
            final(self).spec_watermark() == Some(watermark),
            final(self).committed_view() == old(self).committed_view(),
            final(self).staged_view() == old(self).staged_view(),
            final(self).commit_log_view() == old(self).commit_log_view(),
            final(self).spec_epoch() == old(self).spec_epoch(),
            final(self).spec_table_id() == old(self).spec_table_id(),
            final(self).spec_pk_indices() == old(self).spec_pk_indices(),
            final(self).spec_vnodes() == old(self).spec_vnodes(),
    {
        self.watermark = Some(watermark);
    }

    /// Install a new vnode bitmap, returning the previous one. The caller
    /// must check `cache_may_stale` on the pair and invalidate its caches.
    pub fn update_vnode_bitmap(&mut self, vnodes: Vec<bool>) -> (r: Vec<bool>)
        requires
            old(self).inv(),
        ensures
            final(self).inv(),
            r@ == old(self).spec_vnodes(),
            final(self).spec_vnodes() == vnodes@,
            final(self).committed_view() == old(self).committed_view(),
            final(self).staged_view() == old(self).staged_view(),
            final(self).commit_log_view() == old(self).commit_log_view(),
            final(self).spec_epoch() == old(self).spec_epoch(),
            final(self).spec_table_id() == old(self).spec_table_id(),
            final(self).spec_pk_indices() == old(self).spec_pk_indices(),
            final(self).spec_watermark() == old(self).spec_watermark(),
    {
        let mut vnodes = vnodes;
        std::mem::swap(&mut vnodes, &mut self.vnodes);
        vnodes
    }

    /// The committed row under a primary key.
    pub fn get_committed(&self, pk: &Vec<i64>) -> (r: Option<&Vec<i64>>)
        requires
            self.inv(),
        ensures
            match r {
                Some(row) => t_has(self.committed_view(), pk@) && row@ == self.committed_view()[
                    t_index(self.committed_view(), pk@)
                ].1,
                None => !t_has(self.committed_view(), pk@),
            },
    {
        let n = self.committed.len();
        let mut i: usize = 0;
        while i < n
            invariant
                self.inv(),
                n == self.committed_view().len(),
                0 <= i <= n,
                forall|j: int| 0 <= j < i ==> (#[trigger] self.committed_view()[j]).0 != pk@,
            decreases n - i,
        {
            if keys_equal(&self.committed[i].0, pk) {
                proof {
                    let j = t_index(self.committed_view(), pk@);
                    if j != i {
                        if j < i {
                            assert(self.committed_view()[j].0 != self.committed_view()[i as int].0);
                        } else {
                            assert(self.committed_view()[i as int].0 != self.committed_view()[j].0);
                        }
                    }
                }
                return Some(&self.committed[i].1);
            }
            i = i + 1;
        }
        None
    }

    /// Apply one buffered write to the committed entries.
    fn apply_one(&mut self, op: Op, row: Vec<i64>)
        requires
            old(self).inv(),
            old(self).row_wf(row@),
        ensures
            final(self).inv(),
            final(self).committed_view() == apply_op(
                old(self).committed_view(),
                op,
                row@,
                old(self).spec_pk_indices(),
            ),
            final(self).staged_view() == old(self).staged_view(),
            final(self).commit_log_view() == old(self).commit_log_view(),
            final(self).spec_epoch() == old(self).spec_epoch(),
            final(self).spec_table_id() == old(self).spec_table_id(),
            final(self).spec_pk_indices() == old(self).spec_pk_indices(),
            final(self).spec_vnodes() == old(self).spec_vnodes(),
            final(self).spec_watermark() == old(self).spec_watermark(),
    {
        let pk = project(&row, &self.pk_indices);
        let is_insert = match op {
            Op::Insert => true,
            Op::UpdateInsert => true,
            Op::Delete => false,
            Op::UpdateDelete => false,
        };
        let n = self.committed.len();
        let mut found: Option<usize> = None;
        let mut i: usize = 0;
        while i < n
            invariant
                self.inv(),
                self == old(self),
                n == self.committed_view().len(),
                0 <= i <= n,
                pk@ == spec_project(row@, self.spec_pk_indices()),
                match found {
                    Some(f) => f < n && self.committed_view()[f as int].0 == pk@ && f == t_index(
                        self.committed_view(),
                        pk@,
                    ),
                    None => forall|j: int|
                        0 <= j < i ==> (#[trigger] self.committed_view()[j]).0 != pk@,
                },
            decreases n - i,
        {
            if found.is_none() && keys_equal(&self.committed[i].0, &pk) {
                proof {
                    let j = t_index(self.committed_view(), pk@);
                    if j != i {
                        if j < i {
                            assert(self.committed_view()[j].0 != self.committed_view()[i as int].0);
                        } else {
                            assert(self.committed_view()[i as int].0 != self.committed_view()[j].0);
                        }
                    }
                }
                found = Some(i);
            }
            i = i + 1;
        }
        let ghost c_old = self.committed_view();
        match (is_insert, found) {
            (true, Some(f)) => {
                let _ = self.committed.remove(f);
                self.committed.insert(f, (pk, row));
                proof {
                    assert(self.committed_view() =~= c_old.update(f as int, (pk@, row@)));
                    assert(t_distinct(self.committed_view())) by {
                        assert forall|p: int, q: int|
                            0 <= p < q < self.committed_view().len() implies (
                        #[trigger] self.committed_view()[p]).0 != (
                        #[trigger] self.committed_view()[q]).0 by {
                            assert(c_old[p].0 != c_old[q].0);
                        }
                    }
                }
            },
            (true, None) => {
                self.committed.push((pk, row));
                proof {
                    assert(self.committed_view() =~= c_old.push((pk@, row@)));
                    assert(t_distinct(self.committed_view())) by {
                        assert forall|p: int, q: int|
                            0 <= p < q < self.committed_view().len() implies (
                        #[trigger] self.committed_view()[p]).0 != (
                        #[trigger] self.committed_view()[q]).0 by {
                            if q == self.committed_view().len() - 1 {
                                if self.committed_view()[p].0 == pk@ {
                                    assert(t_has(c_old, pk@));
                                }
                            } else {
                                assert(c_old[p].0 != c_old[q].0);
                            }
                        }
                    }
                }
            },
            (false, Some(f)) => {
                let _ = self.committed.remove(f);
                proof {
                    assert(self.committed_view() =~= c_old.remove(f as int));
                    assert(t_distinct(self.committed_view())) by {
                        assert forall|p: int, q: int|
                            0 <= p < q < self.committed_view().len() implies (
                        #[trigger] self.committed_view()[p]).0 != (
                        #[trigger] self.committed_view()[q]).0 by {
                            let p0 = if p < f {
                                p
                            } else {
                                p + 1
                            };
                            let q0 = if q < f {
                                q
                            } else {
                                q + 1
                            };
                            assert(c_old[p0].0 != c_old[q0].0);
                        }
                    }
                }
            },
            (false, None) => {},
        }
    }

    /// Make the buffered writes durable at `epoch.prev` and advance to
    /// `epoch.curr`. This is the only operation that extends the commit
    /// log, and it extends it by exactly one epoch.
    pub fn commit(&mut self, epoch: EpochPair)
        requires
            old(self).inv(),
            old(self).spec_epoch() matches Some(e) && epoch.prev >= e.curr,
            epoch.prev < epoch.curr,
        ensures
            final(self).inv(),
            final(self).committed_view() == apply_staged(
                old(self).committed_view(),
                old(self).staged_view(),
                old(self).spec_pk_indices(),
            ),
            final(self).staged_view() == Seq::<(Op, Seq<i64>)>::empty(),
            final(self).commit_log_view() == old(self).commit_log_view().push(epoch.prev),
            final(self).spec_epoch() == Some(epoch),
            final(self).spec_table_id() == old(self).spec_table_id(),
            final(self).spec_pk_indices() == old(self).spec_pk_indices(),
            final(self).spec_vnodes() == old(self).spec_vnodes(),
            final(self).spec_watermark() == old(self).spec_watermark(),
    {
        let mut staged: Vec<(Op, Vec<i64>)> = Vec::new();
        std::mem::swap(&mut staged, &mut self.staged);
        let ghost c0 = self.committed_view();
        let ghost s0 = old(self).staged_view();
        proof {
            assert(self.staged_view() =~= Seq::<(Op, Seq<i64>)>::empty());
            assert forall|i: int| 0 <= i < staged@.len() implies self.row_wf(
                (#[trigger] staged@[i]).1@,
            ) by {
                assert(s0[i] == (staged@[i].0, staged@[i].1@));
            }
        }
        while staged.len() > 0
            invariant
                self.inv(),
                self.staged_view() == Seq::<(Op, Seq<i64>)>::empty(),
                forall|i: int|
                    0 <= i < staged@.len() ==> self.row_wf((#[trigger] staged@[i]).1@),
                apply_staged(
                    self.committed_view(),
                    staged@.map_values(|e: (Op, Vec<i64>)| (e.0, e.1@)),
                    self.spec_pk_indices(),
                ) == apply_staged(c0, s0, self.spec_pk_indices()),
                self.commit_log_view() == old(self).commit_log_view(),
                self.spec_epoch() == old(self).spec_epoch(),
                self.spec_table_id() == old(self).spec_table_id(),
                self.spec_pk_indices() == old(self).spec_pk_indices(),
                self.spec_vnodes() == old(self).spec_vnodes(),
                self.spec_watermark() == old(self).spec_watermark(),
            decreases staged.len(),
        {
            let ghost staged_v = staged@.map_values(|e: (Op, Vec<i64>)| (e.0, e.1@));
            let e = staged.remove(0);
            proof {
                assert(staged@.map_values(|e2: (Op, Vec<i64>)| (e2.0, e2.1@)) =~= staged_v.subrange(
                    1,
                    staged_v.len() as int,
                ));
            }
            self.apply_one(e.0, e.1);
        }
        proof {
            assert(staged@.map_values(|e2: (Op, Vec<i64>)| (e2.0, e2.1@)) =~= Seq::<
                (Op, Seq<i64>),
            >::empty());
        }
        let ghost log_old = self.commit_log_view();
        self.commit_log.push(epoch.prev);
        self.epoch = Some(epoch);
        proof {
            let log_new = self.commit_log_view();
            assert(log_new =~= log_old.push(epoch.prev));
            assert forall|i: int, j: int| 0 <= i < j < log_new.len() implies (
            #[trigger] log_new[i]) < (#[trigger] log_new[j]) by {
                if j < log_old.len() {
                    assert(log_old[i] < log_old[j]);
                } else {
                    assert(log_old[i] < epoch.prev || log_old.len() == 0 || i < log_old.len());
                }
            }
            assert forall|i: int| 0 <= i < log_new.len() implies (#[trigger] log_new[i])
                < epoch.curr by {
                if i < log_old.len() {
                }
            }
        }
    }

    /// Advance the epoch without flushing; nothing may be buffered.
    pub fn commit_no_data_expected(&mut self, epoch: EpochPair)
        requires
            old(self).inv(),
            old(self).spec_epoch() matches Some(e) && epoch.prev >= e.curr,
            epoch.prev < epoch.curr,
            old(self).staged_view().len() == 0,
        ensures
            final(self).inv(),
            final(self).committed_view() == old(self).committed_view(),
            final(self).staged_view() == old(self).staged_view(),
            final(self).commit_log_view() == old(self).commit_log_view().push(epoch.prev),
            final(self).spec_epoch() == Some(epoch),
            final(self).spec_table_id() == old(self).spec_table_id(),
            final(self).spec_pk_indices() == old(self).spec_pk_indices(),
            final(self).spec_vnodes() == old(self).spec_vnodes(),
            final(self).spec_watermark() == old(self).spec_watermark(),
    {
        let ghost log_old = self.commit_log_view();
        self.commit_log.push(epoch.prev);
        self.epoch = Some(epoch);
        proof {
            let log_new = self.commit_log_view();
            assert(log_new =~= log_old.push(epoch.prev));
            assert forall|i: int, j: int| 0 <= i < j < log_new.len() implies (
            #[trigger] log_new[i]) < (#[trigger] log_new[j]) by {
                if j < log_old.len() {
                    assert(log_old[i] < log_old[j]);
                }
            }
            assert forall|i: int| 0 <= i < log_new.len() implies (#[trigger] log_new[i])
                < epoch.curr by {
                if i < log_old.len() {
                }
            }
        }
    }

    /// The committed rows whose leading columns equal `prefix`, in
    /// committed order.
    pub fn committed_rows_with_prefix(&self, prefix: &Vec<i64>) -> (r: Vec<Vec<i64>>)
        requires
            self.inv(),
        ensures
            r@.map_values(|row: Vec<i64>| row@) == rows_with_prefix(self.committed_view(), prefix@),
    {
        let ghost c = self.committed_view();
        let n = self.committed.len();
        let mut r: Vec<Vec<i64>> = Vec::new();
        let mut i: usize = 0;
        while i < n
            invariant
                self.inv(),
                c == self.committed_view(),
                n == c.len(),
                0 <= i <= n,
                r@.map_values(|row: Vec<i64>| row@) == rows_with_prefix(
                    c.subrange(0, i as int),
                    prefix@,
                ),
            decreases n - i,
        {
            proof {
                lemma_rows_with_prefix_push(c.subrange(0, i as int), c[i as int], prefix@);
                assert(c.subrange(0, i + 1) =~= c.subrange(0, i as int).push(c[i as int]));
            }
            let row = &self.committed[i].1;
            let matches_prefix = if prefix.len() <= row.len() {
                let mut ok = true;
                let m = prefix.len();
                let mut j: usize = 0;
                while j < m
                    invariant
                        0 <= i < n,
                        n == c.len(),
                        c == self.committed_view(),
                        m == prefix@.len(),
                        row == &self.committed[i as int].1,
                        m <= row@.len(),
                        0 <= j <= m,
                        ok == (forall|q: int| 0 <= q < j ==> row@[q] == prefix@[q]),
                    decreases m - j,
                {
                    if row[j] != prefix[j] {
                        ok = false;
                    }
                    j = j + 1;
                }
                ok
            } else {
                false
            };
            proof {
                if matches_prefix {
                    assert(c[i as int].1.subrange(0, prefix@.len() as int) =~= prefix@);
                } else {
                    if prefix@.len() <= c[i as int].1.len() && c[i as int].1.subrange(
                        0,
                        prefix@.len() as int,
                    ) == prefix@ {
                        assert forall|q: int| 0 <= q < prefix@.len() implies c[i as int].1[q]
                            == prefix@[q] by {
                            assert(c[i as int].1.subrange(0, prefix@.len() as int)[q]
                                == c[i as int].1[q]);
                        }
                    }
                }
            }
            if matches_prefix {
                let copy = crate::rows::copy_i64_vec(row);
                r.push(copy);
                proof {
                    assert(r@.map_values(|row2: Vec<i64>| row2@) =~= rows_with_prefix(
                        c.subrange(0, i + 1),
                        prefix@,
                    ));
                }
            }
            i = i + 1;
        }
        proof {
            assert(c.subrange(0, n as int) =~= c);
        }
        r
    }
}

/// Whether a row starts with `prefix`.
pub open spec fn row_has_prefix(row: Seq<i64>, prefix: Seq<i64>) -> bool {
    prefix.len() <= row.len() && row.subrange(0, prefix.len() as int) == prefix
}

/// The rows of the committed entries that start with `prefix`, in order.
pub open spec fn rows_with_prefix(c: Seq<(Seq<i64>, Seq<i64>)>, prefix: Seq<i64>) -> Seq<Seq<i64>>
    decreases c.len(),
{
    if c.len() == 0 {
        Seq::empty()
    } else {
        let rest = rows_with_prefix(c.drop_last(), prefix);
        if row_has_prefix(c.last().1, prefix) {
            rest.push(c.last().1)
        } else {
            rest
        }
    }
}

/// Every row of `rows_with_prefix` is the row of some committed entry.
pub proof fn lemma_rows_with_prefix_elem(c: Seq<(Seq<i64>, Seq<i64>)>, prefix: Seq<i64>, p: int)
    requires
        0 <= p < rows_with_prefix(c, prefix).len(),
    ensures
        exists|i: int|
            0 <= i < c.len() && rows_with_prefix(c, prefix)[p] == (#[trigger] c[i]).1,
    decreases c.len(),
{
    if c.len() > 0 {
        let rest = rows_with_prefix(c.drop_last(), prefix);
        if p < rest.len() {
            lemma_rows_with_prefix_elem(c.drop_last(), prefix, p);
            let i = choose|i: int|
                0 <= i < c.drop_last().len() && rows_with_prefix(c.drop_last(), prefix)[p] == (
                #[trigger] c.drop_last()[i]).1;
            assert(c.drop_last()[i] == c[i]);
            assert(rows_with_prefix(c, prefix)[p] == c[i].1);
        } else {
            assert(rows_with_prefix(c, prefix)[p] == c[c.len() - 1].1);
        }
    }
}

proof fn lemma_rows_with_prefix_push(
    c: Seq<(Seq<i64>, Seq<i64>)>,
    e: (Seq<i64>, Seq<i64>),
    prefix: Seq<i64>,
)
    ensures
        rows_with_prefix(c.push(e), prefix) == (if row_has_prefix(e.1, prefix) {
            rows_with_prefix(c, prefix).push(e.1)
        } else {
            rows_with_prefix(c, prefix)
        }),
{
    assert(c.push(e).drop_last() =~= c);
    assert(c.push(e).last() == e);
}

/// Applying buffered writes whose rows all have `len` columns to entries
/// whose rows all have `len` columns keeps every row at `len` columns.
pub proof fn lemma_apply_staged_row_len(
    c: Seq<(Seq<i64>, Seq<i64>)>,
    staged: Seq<(Op, Seq<i64>)>,
    pk_indices: Seq<usize>,
    len: int,
)
    requires
        forall|i: int| 0 <= i < c.len() ==> (#[trigger] c[i]).1.len() == len,
        forall|i: int| 0 <= i < staged.len() ==> (#[trigger] staged[i]).1.len() == len,
    ensures
        forall|i: int|
            0 <= i < apply_staged(c, staged, pk_indices).len() ==> (
            #[trigger] apply_staged(c, staged, pk_indices)[i]).1.len() == len,
    decreases staged.len(),
{
    if staged.len() > 0 {
        let c1 = apply_op(c, staged[0].0, staged[0].1, pk_indices);
        assert forall|i: int| 0 <= i < c1.len() implies (#[trigger] c1[i]).1.len() == len by {
            let pk = spec_project(staged[0].1, pk_indices);
            if op_is_insert(staged[0].0) {
                if t_has(c, pk) {
                    if i != t_index(c, pk) {
                        assert(c1[i] == c[i]);
                    }
                } else {
                    if i < c.len() {
                        assert(c1[i] == c[i]);
                    }
                }
            } else {
                if t_has(c, pk) {
                    let x = t_index(c, pk);
                    let i0 = if i < x {
                        i
                    } else {
                        i + 1
                    };
                    assert(c1[i] == c[i0]);
                }
            }
        }
        assert forall|i: int|
            0 <= i < staged.subrange(1, staged.len() as int).len() implies (
        #[trigger] staged.subrange(1, staged.len() as int)[i]).1.len() == len by {
            assert(staged.subrange(1, staged.len() as int)[i] == staged[i + 1]);
        }
        lemma_apply_staged_row_len(c1, staged.subrange(1, staged.len() as int), pk_indices, len);
        assert(apply_staged(c, staged, pk_indices) == apply_staged(
            c1,
            staged.subrange(1, staged.len() as int),
            pk_indices,
        ));
    }
}

/// Every staged write of a chunk carries one of the chunk's rows.
pub proof fn lemma_chunk_writes_elem(ops: Seq<Op>, rows: Seq<Seq<i64>>, vis: Seq<bool>, p: int)
    requires
        ops.len() == rows.len() == vis.len(),
        0 <= p < chunk_writes(ops, rows, vis).len(),
    ensures
        exists|q: int| 0 <= q < rows.len() && chunk_writes(ops, rows, vis)[p].1 == (
        #[trigger] rows[q]),
    decreases ops.len(),
{
    if ops.len() > 0 {
        let rest = chunk_writes(ops.drop_last(), rows.drop_last(), vis.drop_last());
        if p < rest.len() {
            lemma_chunk_writes_elem(ops.drop_last(), rows.drop_last(), vis.drop_last(), p);
            let q = choose|q: int|
                0 <= q < rows.drop_last().len() && rest[p].1 == (#[trigger] rows.drop_last()[q]);
            assert(chunk_writes(ops, rows, vis)[p].1 == rows[q]);
        } else {
            assert(chunk_writes(ops, rows, vis)[p].1 == rows[rows.len() - 1]);
        }
    }
}

proof fn lemma_chunk_writes_push(
    ops: Seq<Op>,
    rows: Seq<Seq<i64>>,
    vis: Seq<bool>,
    op: Op,
    row: Seq<i64>,
    v: bool,
)
    requires
        ops.len() == rows.len() == vis.len(),
    ensures
        chunk_writes(ops.push(op), rows.push(row), vis.push(v)) == (if v {
            chunk_writes(ops, rows, vis).push((op, row))
        } else {
            chunk_writes(ops, rows, vis)
        }),
{
    assert(ops.push(op).drop_last() =~= ops);
    assert(rows.push(row).drop_last() =~= rows);
    assert(vis.push(v).drop_last() =~= vis);
    assert(ops.push(op).last() == op);
    assert(rows.push(row).last() == row);
    assert(vis.push(v).last() == v);
}

/// Whether a vnode previously owned is no longer owned: then cached state
/// keyed by the old ownership may be stale.
pub fn cache_may_stale(previous: &Vec<bool>, current: &Vec<bool>) -> (r: bool)
    ensures
        r == exists|i: int|
            0 <= i < previous@.len() && #[trigger] previous@[i] && !(if i < current@.len() {
                current@[i]
            } else {
                false
            }),
{
    let n = previous.len();
    let mut i: usize = 0;
    while i < n
        invariant
            n == previous@.len(),
            0 <= i <= n,
            forall|j: int|
                0 <= j < i ==> !(#[trigger] previous@[j] && !(if j < current@.len() {
                    current@[j]
                } else {
                    false
                })),
        decreases n - i,
    {
        let owned_now = if i < current.len() {
            current[i]
        } else {
            false
        };
        if previous[i] && !owned_now {
            return true;
        }
        i = i + 1;
    }
    false
}

/// A valid state table never commits twice at the same epoch: its commit
/// log is strictly increasing, so no epoch appears in it twice.
pub proof fn lemma_at_most_one_commit_per_epoch(t: &StateTable)
    requires
        t.inv(),
    ensures
        forall|i: int, j: int|
            0 <= i < t.commit_log_view().len() && 0 <= j < t.commit_log_view().len() && i != j
                ==> (#[trigger] t.commit_log_view()[i]) != (#[trigger] t.commit_log_view()[j]),
{
    lemma_commit_log_unique(t.commit_log_view());
}

/// A strictly increasing commit log never holds an epoch twice: each
/// backing table commits at most once per epoch.
pub proof fn lemma_commit_log_unique(log: Seq<u64>)
    requires
        forall|i: int, j: int| 0 <= i < j < log.len() ==> (#[trigger] log[i]) < (#[trigger] log[j]),
    ensures
        forall|i: int, j: int|
            0 <= i < log.len() && 0 <= j < log.len() && i != j ==> (#[trigger] log[i]) != (
            #[trigger] log[j]),
{
}

} // verus!
