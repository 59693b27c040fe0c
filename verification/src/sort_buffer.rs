//! The emit-on-window-close replay buffer: rows ordered by their window
//! column, consumed up to a watermark.
//!
//! The buffer is a secondary index over the result table, keyed by the
//! designated window column inside the group key. Changes to the result
//! table are mirrored here; when the window watermark advances, the rows at
//! or below it leave both the buffer and the result table and are emitted
//! downstream as inserts.

use vstd::prelude::*;

use crate::rows::{copy_i64_vec, keys_equal};
use crate::state_table::{Op, StateTable};

verus! {

/// A change of one group's output row.
pub enum Change {
    Insert(Vec<i64>),
    Delete(Vec<i64>),
    Update(Vec<i64>, Vec<i64>),
}

/// The first position whose window value exceeds `w` (the length if none
/// does). In a buffer sorted by window value this splits "emit now" from
/// "hold back".
pub open spec fn first_gt(b: Seq<(i64, Seq<i64>)>, w: i64) -> int
    decreases b.len(),
{
    if b.len() == 0 {
        0
    } else if b[0].0 > w {
        0
    } else {
        1 + first_gt(b.subrange(1, b.len() as int), w)
    }
}

pub proof fn lemma_first_gt_bounds(b: Seq<(i64, Seq<i64>)>, w: i64)
    ensures
        0 <= first_gt(b, w) <= b.len(),
    decreases b.len(),
{
    if b.len() > 0 && !(b[0].0 > w) {
        lemma_first_gt_bounds(b.subrange(1, b.len() as int), w);
    }
}

/// In a sorted buffer, everything before the split is at most `w` and
/// everything from the split on is above `w`.
pub proof fn lemma_first_gt_split(b: Seq<(i64, Seq<i64>)>, w: i64)
    requires
        sorted_by_window(b),
    ensures
        forall|i: int| 0 <= i < first_gt(b, w) ==> (#[trigger] b[i]).0 <= w,
        forall|i: int| first_gt(b, w) <= i < b.len() ==> (#[trigger] b[i]).0 > w,
    decreases b.len(),
{
    lemma_first_gt_bounds(b, w);
    if b.len() > 0 && !(b[0].0 > w) {
        let rest = b.subrange(1, b.len() as int);
        assert(sorted_by_window(rest)) by {
            assert forall|i: int, j: int| 0 <= i < j < rest.len() implies (
            #[trigger] rest[i]).0 <= (#[trigger] rest[j]).0 by {
                assert(b[i + 1].0 <= b[j + 1].0);
            }
        }
        lemma_first_gt_split(rest, w);
        assert forall|i: int| 0 <= i < first_gt(b, w) implies (#[trigger] b[i]).0 <= w by {
            if i > 0 {
                assert(rest[i - 1].0 <= w);
            }
        }
        assert forall|i: int| first_gt(b, w) <= i < b.len() implies (#[trigger] b[i]).0 > w by {
            assert(rest[i - 1].0 > w);
        }
    }
}

/// Window values never decrease along the buffer.
pub open spec fn sorted_by_window(b: Seq<(i64, Seq<i64>)>) -> bool {
    forall|i: int, j: int| 0 <= i < j < b.len() ==> (#[trigger] b[i]).0 <= (#[trigger] b[j]).0
}

/// The watermark-ordered replay buffer for emit-on-window-close.
pub struct SortBuffer {
    /// Index of the window column inside a row.
    window_col: usize,
    /// `(window value, row)`, sorted by window value, insertion order among
    /// equal values.
    buffer: Vec<(i64, Vec<i64>)>,
}

impl SortBuffer {
    pub closed spec fn buffer_view(&self) -> Seq<(i64, Seq<i64>)> {
        self.buffer@.map_values(|e: (i64, Vec<i64>)| (e.0, e.1@))
    }

    pub closed spec fn spec_window_col(&self) -> usize {
        self.window_col
    }

    /// Validity: sorted by window value, and each entry's window value is
    /// the window column of its row.
    pub open spec fn inv(&self) -> bool {
        &&& sorted_by_window(self.buffer_view())
        &&& forall|i: int|
            0 <= i < self.buffer_view().len() ==> self.spec_window_col() < (
            #[trigger] self.buffer_view()[i]).1.len() && self.buffer_view()[i].0
                == self.buffer_view()[i].1[self.spec_window_col() as int]
    }

    /// An empty buffer over the window column of the result table.
    pub fn new(window_col: usize) -> (r: Self)
        ensures
            r.inv(),
            r.buffer_view() == Seq::<(i64, Seq<i64>)>::empty(),
            r.spec_window_col() == window_col,
    {
        let r = SortBuffer { window_col, buffer: Vec::new() };
        proof {
            assert(r.buffer_view() =~= Seq::<(i64, Seq<i64>)>::empty());
        }
        r
    }

    pub fn len(&self) -> (r: usize)
        ensures
            r == self.buffer_view().len(),
    {
        self.buffer.len()
    }

    /// Insert `row` into the buffer, after every row with a window value at
    /// most its own.
    fn insert_row(&mut self, row: Vec<i64>)
        requires
            old(self).inv(),
            old(self).spec_window_col() < row@.len(),
        ensures
            final(self).inv(),
            final(self).buffer_view() == old(self).buffer_view().insert(
                first_gt(old(self).buffer_view(), row@[old(self).spec_window_col() as int]),
                (row@[old(self).spec_window_col() as int], row@),
            ),
            final(self).spec_window_col() == old(self).spec_window_col(),
    {
        let w = row[self.window_col];
        let ghost b = self.buffer_view();
        let n = self.buffer.len();
        proof {
            assert(b.subrange(0, n as int) =~= b);
        }
        let mut i: usize = 0;
        while i < n && self.buffer[i].0 <= w
            invariant
                self.inv(),
                self == old(self),
                b == self.buffer_view(),
                n == b.len(),
                0 <= i <= n,
                forall|j: int| 0 <= j < i ==> (#[trigger] b[j]).0 <= w,
                i < n ==> first_gt(b.subrange(i as int, n as int), w) + i == first_gt(b, w),
                i == n ==> first_gt(b, w) == n,
            decreases n - i,
        {
            proof {
                let rest = b.subrange(i as int, n as int);
                assert(rest[0] == b[i as int]);
                assert(rest.subrange(1, rest.len() as int) =~= b.subrange(i + 1, n as int));
                lemma_first_gt_bounds(b.subrange(i + 1, n as int), w);
            }
            i = i + 1;
        }
        proof {
            if i < n {
                let rest = b.subrange(i as int, n as int);
                assert(rest[0] == b[i as int]);
                assert(b[i as int].0 > w);
            }
            lemma_first_gt_bounds(b, w);
            lemma_first_gt_split(b, w);
            assert(i == first_gt(b, w));
        }
        self.buffer.insert(i, (w, row));
        proof {
            let b_new = self.buffer_view();
            assert(b_new =~= b.insert(i as int, (w, b_new[i as int].1)));
            assert(sorted_by_window(b_new)) by {
                lemma_first_gt_split(b, w);
                assert forall|p: int, q: int| 0 <= p < q < b_new.len() implies (
                #[trigger] b_new[p]).0 <= (#[trigger] b_new[q]).0 by {
                    let p0 = if p < i {
                        p
                    } else {
                        p - 1
                    };
                    let q0 = if q < i {
                        q
                    } else {
                        q - 1
                    };
                    if p == i {
                        assert(b[q0].0 > w);
                    } else if q == i {
                        assert(b[p0].0 <= w);
                    } else {
                        assert(b[p0].0 <= b[q0].0);
                    }
                }
            }
        }
    }

    /// Remove the first buffered row equal to `row`, if any.
    fn remove_row(&mut self, row: &Vec<i64>)
        requires
            old(self).inv(),
        ensures
            final(self).inv(),
            final(self).spec_window_col() == old(self).spec_window_col(),
            (exists|i: int|
                0 <= i < old(self).buffer_view().len() && (#[trigger] old(self).buffer_view()[i]).1
                    == row@) ==> final(self).buffer_view() == old(self).buffer_view().remove(
                row_index(old(self).buffer_view(), row@),
            ),
            !(exists|i: int|
                0 <= i < old(self).buffer_view().len() && (#[trigger] old(self).buffer_view()[i]).1
                    == row@) ==> final(self).buffer_view() == old(self).buffer_view(),
    {
        let ghost b = self.buffer_view();
        let n = self.buffer.len();
        let mut i: usize = 0;
        while i < n
            invariant
                self.inv(),
                self == old(self),
                b == self.buffer_view(),
                n == b.len(),
                0 <= i <= n,
                forall|j: int| 0 <= j < i ==> (#[trigger] b[j]).1 != row@,
            decreases n - i,
        {
            if keys_equal(&self.buffer[i].1, row) {
                let ghost fi = row_index(b, row@);
                proof {
                    assert(b[i as int].1 == row@);
                    lemma_row_index(b, row@, i as int);
                    if fi < i {
                        assert(b[fi].1 != row@);
                    } else if fi > i {
                        assert(b[i as int].1 != row@);
                    }
                    assert(fi == i);
                }
                let _ = self.buffer.remove(i);
                proof {
                    assert(self.buffer_view() =~= b.remove(i as int));
                    let b_new = self.buffer_view();
                    assert(sorted_by_window(b_new)) by {
                        assert forall|p: int, q: int| 0 <= p < q < b_new.len() implies (
                        #[trigger] b_new[p]).0 <= (#[trigger] b_new[q]).0 by {
                            let p0 = if p < i {
                                p
                            } else {
                                p + 1
                            };
                            let q0 = if q < i {
                                q
                            } else {
                                q + 1
                            };
                            assert(b[p0].0 <= b[q0].0);
                        }
                    }
                }
                return ;
            }
            i = i + 1;
        }
    }

    /// Mirror one result-table change into the buffer and stage it on the
    /// result table.
    pub fn apply_change(&mut self, change: Change, table: &mut StateTable)
        requires
            old(self).inv(),
            old(table).inv(),
            old(table).spec_epoch() is Some,
            change matches Change::Insert(r) ==> old(self).spec_window_col() < r@.len() && old(
                table,
            ).row_wf(r@),
            change matches Change::Delete(r) ==> old(table).row_wf(r@),
            change matches Change::Update(o, n) ==> old(self).spec_window_col() < n@.len() && old(
                table,
            ).row_wf(o@) && old(table).row_wf(n@),
        ensures
            final(self).inv(),
            final(table).inv(),
            final(self).spec_window_col() == old(self).spec_window_col(),
            final(table).spec_epoch() == old(table).spec_epoch(),
            final(table).committed_view() == old(table).committed_view(),
            final(table).commit_log_view() == old(table).commit_log_view(),
            final(table).spec_pk_indices() == old(table).spec_pk_indices(),
            final(table).spec_table_id() == old(table).spec_table_id(),
            final(table).spec_vnodes() == old(table).spec_vnodes(),
            final(table).spec_watermark() == old(table).spec_watermark(),
            match change {
                Change::Insert(r) => final(self).buffer_view() == old(self).buffer_view().insert(
                    first_gt(old(self).buffer_view(), r@[old(self).spec_window_col() as int]),
                    (r@[old(self).spec_window_col() as int], r@),
                ) && final(table).staged_view() == old(table).staged_view().push(
                    (Op::Insert, r@),
                ),
                Change::Delete(r) => final(table).staged_view() == old(table).staged_view().push(
                    (Op::Delete, r@),
                ) && ((exists|i: int|
                    0 <= i < old(self).buffer_view().len() && (
                    #[trigger] old(self).buffer_view()[i]).1 == r@) ==> final(self).buffer_view()
                    == old(self).buffer_view().remove(row_index(old(self).buffer_view(), r@)))
                    && (!(exists|i: int|
                    0 <= i < old(self).buffer_view().len() && (
                    #[trigger] old(self).buffer_view()[i]).1 == r@) ==> final(self).buffer_view()
                    == old(self).buffer_view()),
                Change::Update(o, n) => final(table).staged_view() == old(
                    table,
                ).staged_view().push((Op::UpdateDelete, o@)).push((Op::UpdateInsert, n@)) && {
                    let mid = if exists|i: int|
                        0 <= i < old(self).buffer_view().len() && (
                        #[trigger] old(self).buffer_view()[i]).1 == o@ {
                        old(self).buffer_view().remove(row_index(old(self).buffer_view(), o@))
                    } else {
                        old(self).buffer_view()
                    };
                    final(self).buffer_view() == mid.insert(
                        first_gt(mid, n@[old(self).spec_window_col() as int]),
                        (n@[old(self).spec_window_col() as int], n@),
                    )
                },
            },
    {
        match change {
            Change::Insert(r) => {
                let copy = copy_i64_vec(&r);
                self.insert_row(copy);
                table.write_record(Op::Insert, r);
            },
            Change::Delete(r) => {
                self.remove_row(&r);
                table.write_record(Op::Delete, r);
            },
            Change::Update(o, n) => {
                self.remove_row(&o);
                table.write_record(Op::UpdateDelete, o);
                let copy = copy_i64_vec(&n);
                self.insert_row(copy);
                table.write_record(Op::UpdateInsert, n);
            },
        }
    }

    /// Emit every buffered row whose window value is at or below the
    /// watermark, in ascending window order, removing each from the buffer
    /// and from the result table.
    pub fn consume(&mut self, watermark: i64, table: &mut StateTable) -> (r: Vec<Vec<i64>>)
        requires
            old(self).inv(),
            old(table).inv(),
            old(table).spec_epoch() is Some,
            forall|i: int|
                0 <= i < old(self).buffer_view().len() ==> old(table).row_wf(
                    (#[trigger] old(self).buffer_view()[i]).1,
                ),
        ensures
            final(self).inv(),
            final(table).inv(),
            final(self).spec_window_col() == old(self).spec_window_col(),
            r@.map_values(|row: Vec<i64>| row@) == old(self).buffer_view().subrange(
                0,
                first_gt(old(self).buffer_view(), watermark),
            ).map_values(|e: (i64, Seq<i64>)| e.1),
            final(self).buffer_view() == old(self).buffer_view().subrange(
                first_gt(old(self).buffer_view(), watermark),
                old(self).buffer_view().len() as int,
            ),
            final(table).staged_view() == old(table).staged_view() + old(
                self,
            ).buffer_view().subrange(0, first_gt(old(self).buffer_view(), watermark)).map_values(
                |e: (i64, Seq<i64>)| (Op::Delete, e.1),
            ),
            final(table).spec_epoch() == old(table).spec_epoch(),
            final(table).committed_view() == old(table).committed_view(),
            final(table).commit_log_view() == old(table).commit_log_view(),
            final(table).spec_pk_indices() == old(table).spec_pk_indices(),
            final(table).spec_table_id() == old(table).spec_table_id(),
            final(table).spec_vnodes() == old(table).spec_vnodes(),
            final(table).spec_watermark() == old(table).spec_watermark(),
    {
        let ghost b = old(self).buffer_view();
        let ghost cut = first_gt(b, watermark);
        proof {
            lemma_first_gt_bounds(b, watermark);
            lemma_first_gt_split(b, watermark);
        }
        let mut r: Vec<Vec<i64>> = Vec::new();
        let ghost mut taken: int = 0;
        while self.buffer.len() > 0 && self.buffer[0].0 <= watermark
            invariant
                self.inv(),
                table.inv(),
                table.spec_epoch() is Some,
                self.spec_window_col() == old(self).spec_window_col(),
                0 <= taken <= cut <= b.len(),
                self.buffer_view() == b.subrange(taken, b.len() as int),
                forall|i: int| 0 <= i < cut ==> (#[trigger] b[i]).0 <= watermark,
                forall|i: int| cut <= i < b.len() ==> (#[trigger] b[i]).0 > watermark,
                forall|i: int| 0 <= i < b.len() ==> old(table).row_wf((#[trigger] b[i]).1),
                r@.map_values(|row: Vec<i64>| row@) == b.subrange(0, taken).map_values(
                    |e: (i64, Seq<i64>)| e.1,
                ),
                table.staged_view() == old(table).staged_view() + b.subrange(0, taken).map_values(
                    |e: (i64, Seq<i64>)| (Op::Delete, e.1),
                ),
                table.committed_view() == old(table).committed_view(),
                table.commit_log_view() == old(table).commit_log_view(),
                table.spec_pk_indices() == old(table).spec_pk_indices(),
                table.spec_table_id() == old(table).spec_table_id(),
                table.spec_vnodes() == old(table).spec_vnodes(),
                table.spec_watermark() == old(table).spec_watermark(),
                table.spec_epoch() == old(table).spec_epoch(),
            decreases self.buffer.len(),
        {
            proof {
                assert(self.buffer_view()[0] == b[taken]);
                assert(b[taken].0 <= watermark);
                if taken >= cut {
                    assert(b[taken].0 > watermark);
                }
            }
            let ghost bv = self.buffer_view();
            let ghost rv = r@.map_values(|row: Vec<i64>| row@);
            let e = self.buffer.remove(0);
            let ghost ev = e.1@;
            let row_for_table = copy_i64_vec(&e.1);
            r.push(e.1);
            table.write_record(Op::Delete, row_for_table);
            proof {
                assert((e.0, ev) == bv[0]);
                assert(bv[0] == b[taken]);
                assert(self.buffer_view() =~= bv.subrange(1, bv.len() as int));
                taken = taken + 1;
                assert(self.buffer_view() =~= b.subrange(taken, b.len() as int));
                assert(r@.map_values(|row: Vec<i64>| row@) =~= rv.push(ev));
                assert(rv.push(ev) =~= b.subrange(0, taken).map_values(
                    |e2: (i64, Seq<i64>)| e2.1,
                ));
                assert(table.staged_view() =~= old(table).staged_view() + b.subrange(
                    0,
                    taken,
                ).map_values(|e2: (i64, Seq<i64>)| (Op::Delete, e2.1)));
            }
        }
        proof {
            if taken < cut {
                assert(self.buffer_view()[0] == b[taken]);
                assert(b[taken].0 <= watermark);
            }
            assert(taken == cut);
        }
        r
    }
}

/// Inserting a row with a window value at or below the watermark, then
/// consuming up to that watermark, emits the row exactly once and leaves
/// it neither in the buffer's remainder nor (after the staged insert and
/// delete are applied) in the result table.
pub proof fn lemma_eowc_round_trip(b: Seq<(i64, Seq<i64>)>, row: Seq<i64>, wcol: int, wm: i64)
    requires
        sorted_by_window(b),
        0 <= wcol < row.len(),
        forall|i: int| 0 <= i < b.len() ==> (#[trigger] b[i]).1 != row,
        row[wcol] <= wm,
    ensures
        ({
            let w = row[wcol];
            let b1 = b.insert(first_gt(b, w), (w, row));
            let cut = first_gt(b1, wm);
            &&& 0 <= cut <= b1.len()
            &&& exists|i: int| 0 <= i < cut && (#[trigger] b1[i]).1 == row
            &&& forall|i: int, j: int|
                0 <= i < b1.len() && 0 <= j < b1.len() && (#[trigger] b1[i]).1 == row && (
                #[trigger] b1[j]).1 == row ==> i == j
            &&& forall|i: int| cut <= i < b1.len() ==> (#[trigger] b1[i]).1 != row
        }),
{
    let w = row[wcol];
    let p0 = first_gt(b, w);
    lemma_first_gt_bounds(b, w);
    lemma_first_gt_split(b, w);
    let b1 = b.insert(p0, (w, row));
    assert(sorted_by_window(b1)) by {
        assert forall|p: int, q: int| 0 <= p < q < b1.len() implies (#[trigger] b1[p]).0 <= (
        #[trigger] b1[q]).0 by {
            let pb = if p < p0 {
                p
            } else {
                p - 1
            };
            let qb = if q < p0 {
                q
            } else {
                q - 1
            };
            if p == p0 {
                assert(b[qb].0 > w);
            } else if q == p0 {
                assert(b[pb].0 <= w);
            } else {
                assert(b[pb].0 <= b[qb].0);
            }
        }
    }
    let cut = first_gt(b1, wm);
    lemma_first_gt_bounds(b1, wm);
    lemma_first_gt_split(b1, wm);
    assert(b1[p0] == (w, row));
    if cut <= p0 {
        assert(b1[p0].0 > wm);
    }
    assert(exists|i: int| 0 <= i < cut && (#[trigger] b1[i]).1 == row) by {
        assert(0 <= p0 < cut && b1[p0].1 == row);
    }
    assert forall|i: int, j: int|
        0 <= i < b1.len() && 0 <= j < b1.len() && (#[trigger] b1[i]).1 == row && (
    #[trigger] b1[j]).1 == row implies i == j by {
        if i != p0 {
            let ib = if i < p0 {
                i
            } else {
                i - 1
            };
            assert(b1[i] == b[ib]);
        }
        if j != p0 {
            let jb = if j < p0 {
                j
            } else {
                j - 1
            };
            assert(b1[j] == b[jb]);
        }
    }
    assert forall|i: int| cut <= i < b1.len() implies (#[trigger] b1[i]).1 != row by {
        if b1[i].1 == row {
            assert(i == p0);
            assert(b1[i].0 > wm);
        }
    }
}

/// The second half of the round trip: the staged insert of a row followed
/// by its staged delete leaves the result table without that row's key.
pub proof fn lemma_insert_then_delete_removes(
    c: Seq<(Seq<i64>, Seq<i64>)>,
    row: Seq<i64>,
    pk_indices: Seq<usize>,
)
    requires
        crate::state_table::t_distinct(c),
    ensures
        !crate::state_table::t_has(
            crate::state_table::apply_staged(
                c,
                seq![(Op::Insert, row), (Op::Delete, row)],
                pk_indices,
            ),
            crate::rows::spec_project(row, pk_indices),
        ),
{
    let pk = crate::rows::spec_project(row, pk_indices);
    let recs: Seq<(Op, Seq<i64>)> = seq![(Op::Insert, row), (Op::Delete, row)];
    let c1 = crate::state_table::apply_op(c, Op::Insert, row, pk_indices);
    assert(recs[0] == (Op::Insert, row));
    assert(recs[1] == (Op::Delete, row));
    let tail = recs.subrange(1, 2);
    assert(tail[0] == recs[1]);
    assert(tail.subrange(1, 1).len() == 0);
    let c2 = crate::state_table::apply_op(c1, Op::Delete, row, pk_indices);
    assert(crate::state_table::apply_staged(c2, tail.subrange(1, 1), pk_indices) == c2);
    assert(crate::state_table::apply_staged(c1, tail, pk_indices) == crate::state_table::apply_staged(
        crate::state_table::apply_op(c1, tail[0].0, tail[0].1, pk_indices),
        tail.subrange(1, 1),
        pk_indices,
    ));
    assert(crate::state_table::apply_op(c1, tail[0].0, tail[0].1, pk_indices) == c2);
    assert(crate::state_table::apply_staged(c1, tail, pk_indices) == c2);
    assert(crate::state_table::apply_staged(c, recs, pk_indices) == c2);
    assert(crate::state_table::t_has(c1, pk)) by {
        if crate::state_table::t_has(c, pk) {
            let i = crate::state_table::t_index(c, pk);
            assert(c1[i].0 == pk);
        } else {
            assert(c1[c1.len() - 1].0 == pk);
        }
    }
    let d = crate::state_table::t_index(c1, pk);
    assert(c1[d].0 == pk);
    assert(crate::state_table::t_distinct(c1)) by {
        if crate::state_table::t_has(c, pk) {
            let i = crate::state_table::t_index(c, pk);
            assert forall|p: int, q: int| 0 <= p < q < c1.len() implies (#[trigger] c1[p]).0 != (
            #[trigger] c1[q]).0 by {
                assert(c[p].0 != c[q].0);
            }
        } else {
            assert forall|p: int, q: int| 0 <= p < q < c1.len() implies (#[trigger] c1[p]).0 != (
            #[trigger] c1[q]).0 by {
                if q == c1.len() - 1 {
                    if c1[p].0 == pk {
                        assert(crate::state_table::t_has(c, pk));
                    }
                } else {
                    assert(c[p].0 != c[q].0);
                }
            }
        }
    }
    assert(c2 == c1.remove(d));
    if crate::state_table::t_has(c2, pk) {
        let e = crate::state_table::t_index(c2, pk);
        let e0 = if e < d {
            e
        } else {
            e + 1
        };
        assert(c2[e] == c1[e0]);
        assert(c1[e0].0 == pk);
        if e0 < d {
            assert(c1[e0].0 != c1[d].0);
        } else {
            assert(c1[d].0 != c1[e0].0);
        }
    }
}

/// The first position carrying exactly `row`.
pub open spec fn row_index(b: Seq<(i64, Seq<i64>)>, row: Seq<i64>) -> int {
    choose|i: int|
        0 <= i < b.len() && (#[trigger] b[i]).1 == row && forall|j: int|
            0 <= j < i ==> (#[trigger] b[j]).1 != row
}

/// If some entry carries `row`, then `row_index` is the first one.
pub proof fn lemma_row_index(b: Seq<(i64, Seq<i64>)>, row: Seq<i64>, witness: int)
    requires
        0 <= witness < b.len(),
        b[witness].1 == row,
    ensures
        0 <= row_index(b, row) < b.len(),
        b[row_index(b, row)].1 == row,
        forall|j: int| 0 <= j < row_index(b, row) ==> (#[trigger] b[j]).1 != row,
    decreases witness,
{
    if exists|j: int| 0 <= j < witness && (#[trigger] b[j]).1 == row {
        let w2 = choose|j: int| 0 <= j < witness && (#[trigger] b[j]).1 == row;
        lemma_row_index(b, row, w2);
    } else {
        assert(0 <= witness < b.len() && b[witness].1 == row && forall|j: int|
            0 <= j < witness ==> (#[trigger] b[j]).1 != row);
    }
}

} // verus!
