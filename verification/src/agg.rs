//! Per-group aggregate state: one accumulator per aggregate call, built
//! lazily from the persisted result row, mutated by chunk application, and
//! turned into an output change on each barrier.
//!
//! Count and sum keep a running scalar (saturating in 128 bits). Min and
//! max cannot be retracted from a scalar, so they materialize their input:
//! the state keeps the multiset of `(argument, input primary key)` pairs,
//! mirrored durably in a dedicated state table ordered so that its top row
//! yields the extremum deterministically; the output is the extremum of the
//! arguments. The operator stages the materialized rows on their tables as
//! each chunk is applied, so the barrier-time flush finds nothing left to
//! move and only commits.

use vstd::prelude::*;

use crate::rows::{copy_i64_vec, keys_equal, project, spec_project};
use crate::sort_buffer::Change;
use crate::state_table::{op_is_insert, rows_with_prefix, Op, StateTable};

verus! {

#[derive(Clone, Copy, Debug, PartialEq, Eq, Structural)]
pub enum AggKind {
    Count,
    Sum,
    Min,
    Max,
}

/// One aggregate call: its kind, the input column of its argument, and an
/// optional filter column (a row participates when that column is nonzero).
#[derive(Clone, Copy, Debug, PartialEq, Eq, Structural)]
pub struct AggCall {
    pub kind: AggKind,
    pub arg_col: usize,
    pub filter_col: Option<usize>,
}

/// Whether a call keeps a scalar accumulator (count, sum) rather than
/// materialized input (min, max).
pub open spec fn call_is_value(call: AggCall) -> bool {
    call.kind matches AggKind::Count || call.kind matches AggKind::Sum
}

/// Storage of one call's state: scalar states live in the result row only;
/// min/max keep a dedicated state table.
pub enum AggStateStorage {
    ResultValue,
    MaterializedInput(StateTable),
}

/// Every committed row of a materialized-input storage has at least
/// `min_len` columns (its group key, the argument, and the input pk).
pub open spec fn mat_rows_long_enough(st: &AggStateStorage, min_len: int) -> bool {
    match st {
        AggStateStorage::MaterializedInput(t) => forall|i: int|
            0 <= i < t.committed_view().len() ==> (#[trigger] t.committed_view()[i]).1.len()
                >= min_len,
        AggStateStorage::ResultValue => true,
    }
}

/// The state of one aggregate call inside a group: the scalar accumulator
/// (for count and sum) and the materialized `(argument, input pk)` entries
/// (for min and max). The unused half stays at its empty value.
pub struct AggCallState {
    value: i128,
    entries: Vec<(i64, Vec<i64>)>,
}

/// The specification view of one call state.
pub type AggCallStateView = (int, Seq<(i64, Seq<i64>)>);

impl AggCallState {
    pub closed spec fn view_of(&self) -> AggCallStateView {
        (self.value as int, self.entries@.map_values(|e: (i64, Vec<i64>)| (e.0, e.1@)))
    }
}

/// Saturating addition within the 128-bit signed range.
pub open spec fn sat_add(a: int, b: int) -> int {
    if a + b > i128::MAX {
        i128::MAX as int
    } else if a + b < i128::MIN {
        i128::MIN as int
    } else {
        a + b
    }
}

/// The first position of `(arg, pk)` among materialized entries.
pub open spec fn entry_index(s: Seq<(i64, Seq<i64>)>, arg: i64, pk: Seq<i64>) -> int {
    choose|i: int|
        0 <= i < s.len() && (#[trigger] s[i]) == (arg, pk) && forall|j: int|
            0 <= j < i ==> (#[trigger] s[j]) != (arg, pk)
}

pub proof fn lemma_entry_index(s: Seq<(i64, Seq<i64>)>, arg: i64, pk: Seq<i64>, witness: int)
    requires
        0 <= witness < s.len(),
        s[witness] == (arg, pk),
    ensures
        0 <= entry_index(s, arg, pk) < s.len(),
        s[entry_index(s, arg, pk)] == (arg, pk),
        forall|j: int| 0 <= j < entry_index(s, arg, pk) ==> (#[trigger] s[j]) != (arg, pk),
    decreases witness,
{
    if exists|j: int| 0 <= j < witness && (#[trigger] s[j]) == (arg, pk) {
        let w2 = choose|j: int| 0 <= j < witness && (#[trigger] s[j]) == (arg, pk);
        lemma_entry_index(s, arg, pk, w2);
    } else {
        assert(0 <= witness < s.len() && s[witness] == (arg, pk) && forall|j: int|
            0 <= j < witness ==> (#[trigger] s[j]) != (arg, pk));
    }
}

/// One visible row applied to one call state.
pub open spec fn step_call(
    st: AggCallStateView,
    call: AggCall,
    pk_indices: Seq<usize>,
    op: Op,
    row: Seq<i64>,
) -> AggCallStateView {
    match call.kind {
        AggKind::Count => (
            sat_add(st.0, if op_is_insert(op) {
                1int
            } else {
                -1int
            }),
            st.1,
        ),
        AggKind::Sum => (
            sat_add(st.0, if op_is_insert(op) {
                row[call.arg_col as int] as int
            } else {
                -(row[call.arg_col as int] as int)
            }),
            st.1,
        ),
        AggKind::Min | AggKind::Max => {
            let arg = row[call.arg_col as int];
            let pk = spec_project(row, pk_indices);
            if op_is_insert(op) {
                (st.0, st.1.push((arg, pk)))
            } else {
                if exists|i: int| 0 <= i < st.1.len() && (#[trigger] st.1[i]) == (arg, pk) {
                    (st.0, st.1.remove(entry_index(st.1, arg, pk)))
                } else {
                    st
                }
            }
        },
    }
}

/// One visible row applied to every call state of a group; `vis` marks, per
/// call, whether the row participates.
pub open spec fn step_row(
    states: Seq<AggCallStateView>,
    calls: Seq<AggCall>,
    pk_indices: Seq<usize>,
    op: Op,
    row: Seq<i64>,
    vis: Seq<bool>,
) -> Seq<AggCallStateView> {
    Seq::new(
        states.len(),
        |c: int|
            if vis[c] {
                step_call(states[c], calls[c], pk_indices, op, row)
            } else {
                states[c]
            },
    )
}

/// The first `r` rows of a chunk applied to a group's states.
/// `vis[c][i]` tells whether row `i` is visible to call `c`.
pub open spec fn apply_rows_up_to(
    states: Seq<AggCallStateView>,
    calls: Seq<AggCall>,
    pk_indices: Seq<usize>,
    ops: Seq<Op>,
    rows: Seq<Seq<i64>>,
    vis: Seq<Seq<bool>>,
    r: int,
) -> Seq<AggCallStateView>
    decreases r,
{
    if r <= 0 {
        states
    } else {
        step_row(
            apply_rows_up_to(states, calls, pk_indices, ops, rows, vis, r - 1),
            calls,
            pk_indices,
            ops[r - 1],
            rows[r - 1],
            Seq::new(calls.len(), |c: int| vis[c][r - 1]),
        )
    }
}

/// Chunk application preserves the number of call states.
pub proof fn lemma_apply_rows_len(
    states: Seq<AggCallStateView>,
    calls: Seq<AggCall>,
    pk_indices: Seq<usize>,
    ops: Seq<Op>,
    rows: Seq<Seq<i64>>,
    vis: Seq<Seq<bool>>,
    r: int,
)
    ensures
        apply_rows_up_to(states, calls, pk_indices, ops, rows, vis, r).len() == states.len(),
    decreases r,
{
    if r > 0 {
        lemma_apply_rows_len(states, calls, pk_indices, ops, rows, vis, r - 1);
    }
}

/// The output of one call: the (clamped) scalar for count and sum, the
/// extremum of the materialized arguments for min and max, 0 for an empty
/// extremum state (such a group emits no row anyway).
pub open spec fn output_of(st: AggCallStateView, call: AggCall) -> i64 {
    match call.kind {
        AggKind::Count | AggKind::Sum => clamp_i64(st.0),
        AggKind::Min => if st.1.len() == 0 {
            0
        } else {
            min_arg(st.1)
        },
        AggKind::Max => if st.1.len() == 0 {
            0
        } else {
            max_arg(st.1)
        },
    }
}

pub open spec fn clamp_i64(v: int) -> i64 {
    if v > i64::MAX {
        i64::MAX
    } else if v < i64::MIN {
        i64::MIN
    } else {
        v as i64
    }
}

pub open spec fn min_arg(s: Seq<(i64, Seq<i64>)>) -> i64
    decreases s.len(),
{
    if s.len() <= 1 {
        s[0].0
    } else if s.last().0 < min_arg(s.drop_last()) {
        s.last().0
    } else {
        min_arg(s.drop_last())
    }
}

pub open spec fn max_arg(s: Seq<(i64, Seq<i64>)>) -> i64
    decreases s.len(),
{
    if s.len() <= 1 {
        s[0].0
    } else if s.last().0 > max_arg(s.drop_last()) {
        s.last().0
    } else {
        max_arg(s.drop_last())
    }
}

/// The outputs of all calls, in call order.
pub open spec fn outputs_of(states: Seq<AggCallStateView>, calls: Seq<AggCall>) -> Seq<i64> {
    Seq::new(states.len(), |c: int| output_of(states[c], calls[c]))
}

/// The state a call starts from when a previous output row exists: scalar
/// calls resume from their output column, materialized calls rebuild their
/// entries from their state table (rows there are `group key ++ argument ++
/// input pk`).
pub open spec fn hydrated_state(
    call: AggCall,
    c: int,
    group_len: int,
    prev: Option<Seq<i64>>,
    mat_rows: Seq<Seq<i64>>,
) -> AggCallStateView {
    if call_is_value(call) {
        (
            match prev {
                Some(row) => row[group_len + c] as int,
                None => 0,
            },
            Seq::empty(),
        )
    } else {
        (
            0,
            mat_rows.map_values(
                |row: Seq<i64>| (row[group_len], row.subrange(group_len + 1, row.len() as int)),
            ),
        )
    }
}

/// The aggregate state of one group.
pub struct AggGroup {
    group_key: Vec<i64>,
    states: Vec<AggCallState>,
    prev_output: Option<Vec<i64>>,
    row_count_index: usize,
    uninitialized: bool,
}

impl AggGroup {
    pub closed spec fn spec_group_key(&self) -> Seq<i64> {
        self.group_key@
    }

    pub closed spec fn states_view(&self) -> Seq<AggCallStateView> {
        self.states@.map_values(|s: AggCallState| s.view_of())
    }

    /// The previous full output row (group key followed by the outputs), as
    /// it stands in the result table.
    pub closed spec fn spec_prev_output(&self) -> Option<Seq<i64>> {
        match self.prev_output {
            Some(row) => Some(row@),
            None => None,
        }
    }

    pub closed spec fn spec_row_count_index(&self) -> usize {
        self.row_count_index
    }

    /// True exactly when no previous output row existed at creation.
    pub closed spec fn spec_uninitialized(&self) -> bool {
        self.uninitialized
    }

    pub open spec fn inv(&self) -> bool {
        self.spec_row_count_index() < self.states_view().len()
    }

    pub fn group_key(&self) -> (r: &Vec<i64>)
        ensures
            r@ == self.spec_group_key(),
    {
        &self.group_key
    }

    /// True exactly when the group had no previous output row when it was
    /// created, so it has never emitted anything.
    pub fn is_uninitialized(&self) -> (r: bool)
        ensures
            r == self.spec_uninitialized(),
    {
        self.uninitialized
    }

    /// The current row count of the group (clamped to 64 bits).
    pub fn row_count(&self) -> (r: i64)
        requires
            self.inv(),
        ensures
            r == clamp_i64(self.states_view()[self.spec_row_count_index() as int].0),
    {
        let v = self.states[self.row_count_index].value;
        if v > i64::MAX as i128 {
            i64::MAX
        } else if v < i64::MIN as i128 {
            i64::MIN
        } else {
            v as i64
        }
    }

    /// Create the state of one group, reading its previous output row from
    /// the result table and materializing min/max entries from their state
    /// tables. The result table holds `group key ++ outputs`, keyed by the
    /// group key projected through the table's key columns.
    pub fn create(
        group_key: Vec<i64>,
        agg_calls: &Vec<AggCall>,
        storages: &Vec<AggStateStorage>,
        result_table: &StateTable,
        row_count_index: usize,
    ) -> (r: Self)
        requires
            result_table.inv(),
            agg_calls@.len() == storages@.len(),
            row_count_index < agg_calls@.len(),
            forall|c: int|
                0 <= c < storages@.len() ==> ((#[trigger] storages@[c])
                    matches AggStateStorage::MaterializedInput(t) ==> t.inv()),
            forall|c: int|
                0 <= c < agg_calls@.len() ==> (call_is_value(#[trigger] agg_calls@[c])
                    <==> storages@[c] matches AggStateStorage::ResultValue),
            forall|c: int|
                0 <= c < storages@.len() ==> mat_rows_long_enough(
                    &(#[trigger] storages@[c]),
                    group_key@.len() + 1int,
                ),
            forall|j: int|
                0 <= j < result_table.spec_pk_indices().len() ==> (
                #[trigger] result_table.spec_pk_indices()[j]) < group_key@.len(),
            crate::state_table::t_has(
                result_table.committed_view(),
                result_key_of(group_key@, *result_table),
            ) ==> {
                let row = result_table.committed_view()[crate::state_table::t_index(
                    result_table.committed_view(),
                    result_key_of(group_key@, *result_table),
                )].1;
                row.len() >= group_key@.len() + agg_calls@.len()
            },
        ensures
            r.inv(),
            r.spec_group_key() == group_key@,
            r.spec_row_count_index() == row_count_index,
            r.states_view().len() == agg_calls@.len(),
            r.spec_uninitialized() == !crate::state_table::t_has(
                result_table.committed_view(),
                result_key_of(group_key@, *result_table),
            ),
            r.spec_prev_output() == (if crate::state_table::t_has(
                result_table.committed_view(),
                result_key_of(group_key@, *result_table),
            ) {
                Some(
                    result_table.committed_view()[crate::state_table::t_index(
                        result_table.committed_view(),
                        result_key_of(group_key@, *result_table),
                    )].1,
                )
            } else {
                None::<Seq<i64>>
            }),
            forall|c: int|
                0 <= c < agg_calls@.len() ==> #[trigger] r.states_view()[c] == hydrated_state(
                    agg_calls@[c],
                    c,
                    group_key@.len() as int,
                    r.spec_prev_output(),
                    (match storages@[c] {
                        AggStateStorage::MaterializedInput(t) => rows_with_prefix(
                            t.committed_view(),
                            group_key@,
                        ),
                        AggStateStorage::ResultValue => Seq::empty(),
                    }),
                ),
            is_hydrated_group(
                &r,
                group_key@,
                agg_calls@,
                storages@,
                *result_table,
                row_count_index,
            ),
    {
        let table_key = project(&group_key, result_table.pk_indices());
        let prev_output: Option<Vec<i64>> = match result_table.get_committed(&table_key) {
            Some(row) => Some(copy_i64_vec(row)),
            None => None,
        };
        let uninitialized = prev_output.is_none();
        let group_len = group_key.len();
        let n_calls = agg_calls.len();
        let mut states: Vec<AggCallState> = Vec::new();
        let mut c: usize = 0;
        while c < n_calls
            invariant
                result_table.inv(),
                n_calls == agg_calls@.len(),
                group_len == group_key@.len(),
                0 <= c <= n_calls,
                agg_calls@.len() == storages@.len(),
                forall|c2: int|
                    0 <= c2 < storages@.len() ==> ((#[trigger] storages@[c2])
                        matches AggStateStorage::MaterializedInput(t) ==> t.inv()),
                forall|c2: int|
                    0 <= c2 < agg_calls@.len() ==> (call_is_value(#[trigger] agg_calls@[c2])
                        <==> storages@[c2] matches AggStateStorage::ResultValue),
                forall|c2: int|
                    0 <= c2 < storages@.len() ==> mat_rows_long_enough(
                        &(#[trigger] storages@[c2]),
                        group_len + 1,
                    ),
                match prev_output {
                    Some(row) => row@.len() >= group_len + n_calls,
                    None => true,
                },
                states@.len() == c,
                forall|c2: int|
                    0 <= c2 < c ==> (#[trigger] states@[c2]).view_of() == hydrated_state(
                        agg_calls@[c2],
                        c2,
                        group_len as int,
                        (match prev_output {
                            Some(row) => Some(row@),
                            None => None::<Seq<i64>>,
                        }),
                        (match storages@[c2] {
                            AggStateStorage::MaterializedInput(t) => rows_with_prefix(
                                t.committed_view(),
                                group_key@,
                            ),
                            AggStateStorage::ResultValue => Seq::empty(),
                        }),
                    ),
            decreases n_calls - c,
        {
            let st = match &storages[c] {
                AggStateStorage::ResultValue => {
                    let v: i128 = match &prev_output {
                        Some(row) => {
                            let rl = row.len();
                            row[group_len + c] as i128
                        },
                        None => 0,
                    };
                    AggCallState { value: v, entries: Vec::new() }
                },
                AggStateStorage::MaterializedInput(t) => {
                    let rows = t.committed_rows_with_prefix(&group_key);
                    let ghost rows_v = rows_with_prefix(t.committed_view(), group_key@);
                    proof {
                        assert forall|p: int| 0 <= p < rows_v.len() implies (
                        #[trigger] rows_v[p]).len() >= group_len + 1 by {
                            crate::state_table::lemma_rows_with_prefix_elem(t.committed_view(), group_key@, p);
                            let i = choose|i: int|
                                0 <= i < t.committed_view().len() && rows_v[p] == (
                                #[trigger] t.committed_view()[i]).1;
                        }
                    }
                    let m = rows.len();
                    let mut entries: Vec<(i64, Vec<i64>)> = Vec::new();
                    let mut j: usize = 0;
                    while j < m
                        invariant
                            m == rows@.len(),
                            0 <= j <= m,
                            rows@.map_values(|row: Vec<i64>| row@) == rows_v,
                            group_len == group_key@.len(),
                            forall|p: int|
                                0 <= p < rows_v.len() ==> (#[trigger] rows_v[p]).len()
                                    >= group_len + 1,
                            entries@.map_values(|e: (i64, Vec<i64>)| (e.0, e.1@))
                                == rows_v.subrange(0, j as int).map_values(
                                (|row: Seq<i64>| (row[group_len as int], row.subrange(
                                    group_len + 1,
                                    row.len() as int,
                                ))),
                            ),
                        decreases m - j,
                    {
                        proof {
                            assert(rows@[j as int]@ == rows_v[j as int]);
                        }
                        let row_ref = &rows[j];
                        let arg = row_ref[group_len];
                        let mut pk: Vec<i64> = Vec::new();
                        let rl = row_ref.len();
                        let mut q: usize = group_len + 1;
                        while q < rl
                            invariant
                                rl == row_ref@.len(),
                                group_len + 1 <= q <= rl,
                                pk@ == row_ref@.subrange(group_len + 1, q as int),
                            decreases rl - q,
                        {
                            pk.push(row_ref[q]);
                            proof {
                                assert(pk@ =~= row_ref@.subrange(group_len + 1, q + 1));
                            }
                            q = q + 1;
                        }
                        let ghost pk_v = pk@;
                        let ghost ent_before = entries@.map_values(
                            |e: (i64, Vec<i64>)| (e.0, e.1@),
                        );
                        entries.push((arg, pk));
                        proof {
                            assert(pk_v =~= rows_v[j as int].subrange(
                                group_len + 1,
                                rows_v[j as int].len() as int,
                            ));
                            assert(entries@.map_values(|e: (i64, Vec<i64>)| (e.0, e.1@))
                                =~= ent_before.push((arg, pk_v)));
                            assert(ent_before.push((arg, pk_v)) =~= rows_v.subrange(
                                0,
                                j + 1,
                            ).map_values(
                                (|row: Seq<i64>| (row[group_len as int], row.subrange(
                                    group_len + 1,
                                    row.len() as int,
                                ))),
                            ));
                        }
                        j = j + 1;
                    }
                    proof {
                        assert(rows_v.subrange(0, m as int) =~= rows_v);
                    }
                    AggCallState { value: 0, entries }
                },
            };
            states.push(st);
            proof {
                assert(states@.map_values(|s: AggCallState| s.view_of())[c as int]
                    == states@[c as int].view_of());
            }
            c = c + 1;
        }
        AggGroup { group_key, states, prev_output, row_count_index, uninitialized }
    }

    /// Apply the visible rows of one chunk to every call state, in row
    /// order. `visibilities[c][i]` tells whether row `i` participates in
    /// call `c` (the call's filter intersected with the group's rows).
    pub fn apply_chunk(
        &mut self,
        agg_calls: &Vec<AggCall>,
        input_pk_indices: &Vec<usize>,
        ops: &Vec<Op>,
        rows: &Vec<Vec<i64>>,
        visibilities: &Vec<Vec<bool>>,
    )
        requires
            old(self).inv(),
            agg_calls@.len() == old(self).states_view().len(),
            visibilities@.len() == agg_calls@.len(),
            ops@.len() == rows@.len(),
            forall|c: int|
                0 <= c < visibilities@.len() ==> (#[trigger] visibilities@[c])@.len()
                    == ops@.len(),
            forall|i: int, c: int|
                0 <= i < rows@.len() && 0 <= c < agg_calls@.len() ==> (
                #[trigger] agg_calls@[c]).arg_col < (#[trigger] rows@[i])@.len(),
            forall|i: int, j: int|
                0 <= i < rows@.len() && 0 <= j < input_pk_indices@.len() ==> (
                #[trigger] input_pk_indices@[j]) < (#[trigger] rows@[i])@.len(),
        ensures
            final(self).inv(),
            final(self).states_view() == apply_rows_up_to(
                old(self).states_view(),
                agg_calls@,
                input_pk_indices@,
                ops@,
                rows@.map_values(|r: Vec<i64>| r@),
                visibilities@.map_values(|v: Vec<bool>| v@),
                rows@.len() as int,
            ),
            final(self).spec_group_key() == old(self).spec_group_key(),
            final(self).spec_prev_output() == old(self).spec_prev_output(),
            final(self).spec_row_count_index() == old(self).spec_row_count_index(),
            final(self).spec_uninitialized() == old(self).spec_uninitialized(),
    {
        let ghost calls_v = agg_calls@;
        let ghost pk_v = input_pk_indices@;
        let ghost rows_v = rows@.map_values(|r: Vec<i64>| r@);
        let ghost vis_v = visibilities@.map_values(|v: Vec<bool>| v@);
        let ghost states0 = self.states_view();
        let n = ops.len();
        let n_calls = agg_calls.len();
        let mut i: usize = 0;
        while i < n
            invariant
                self.inv(),
                n == ops@.len() == rows@.len(),
                n_calls == calls_v.len(),
                0 <= i <= n,
                calls_v == agg_calls@,
                pk_v == input_pk_indices@,
                rows_v == rows@.map_values(|r: Vec<i64>| r@),
                vis_v == visibilities@.map_values(|v: Vec<bool>| v@),
                visibilities@.len() == n_calls,
                self.states_view().len() == n_calls,
                forall|c: int|
                    0 <= c < visibilities@.len() ==> (#[trigger] visibilities@[c])@.len() == n,
                forall|p: int, c: int|
                    0 <= p < rows@.len() && 0 <= c < calls_v.len() ==> (
                    #[trigger] calls_v[c]).arg_col < (#[trigger] rows@[p])@.len(),
                forall|p: int, j: int|
                    0 <= p < rows@.len() && 0 <= j < pk_v.len() ==> (#[trigger] pk_v[j]) < (
                    #[trigger] rows@[p])@.len(),
                self.states_view() == apply_rows_up_to(
                    states0,
                    calls_v,
                    pk_v,
                    ops@,
                    rows_v,
                    vis_v,
                    i as int,
                ),
                self.spec_group_key() == old(self).spec_group_key(),
                self.spec_prev_output() == old(self).spec_prev_output(),
                self.spec_row_count_index() == old(self).spec_row_count_index(),
                self.spec_uninitialized() == old(self).spec_uninitialized(),
            decreases n - i,
        {
            let ghost before_row = self.states_view();
            let ghost vis_row = Seq::new(calls_v.len(), |c: int| vis_v[c][i as int]);
            let op = ops[i];
            let mut c: usize = 0;
            while c < n_calls
                invariant
                    self.inv(),
                    0 <= i < n,
                    n == ops@.len() == rows@.len(),
                    op == ops@[i as int],
                    n_calls == calls_v.len(),
                    0 <= c <= n_calls,
                    calls_v == agg_calls@,
                    pk_v == input_pk_indices@,
                    rows_v == rows@.map_values(|r: Vec<i64>| r@),
                    vis_v == visibilities@.map_values(|v: Vec<bool>| v@),
                    visibilities@.len() == n_calls,
                    self.states_view().len() == n_calls,
                    forall|c2: int|
                        0 <= c2 < visibilities@.len() ==> (#[trigger] visibilities@[c2])@.len()
                            == n,
                    forall|p: int, c2: int|
                        0 <= p < rows@.len() && 0 <= c2 < calls_v.len() ==> (
                        #[trigger] calls_v[c2]).arg_col < (#[trigger] rows@[p])@.len(),
                    forall|p: int, j: int|
                        0 <= p < rows@.len() && 0 <= j < pk_v.len() ==> (#[trigger] pk_v[j]) < (
                        #[trigger] rows@[p])@.len(),
                    vis_row == Seq::new(calls_v.len(), |c2: int| vis_v[c2][i as int]),
                    forall|c2: int|
                        0 <= c2 < c ==> #[trigger] self.states_view()[c2] == (if vis_row[c2] {
                            step_call(before_row[c2], calls_v[c2], pk_v, ops@[i as int],
                            rows_v[i as int])
                        } else {
                            before_row[c2]
                        }),
                    forall|c2: int|
                        c <= c2 < n_calls ==> #[trigger] self.states_view()[c2]
                            == before_row[c2],
                    self.spec_group_key() == old(self).spec_group_key(),
                    self.spec_prev_output() == old(self).spec_prev_output(),
                    self.spec_row_count_index() == old(self).spec_row_count_index(),
                    self.spec_uninitialized() == old(self).spec_uninitialized(),
                decreases n_calls - c,
            {
                if visibilities[c][i] {
                    let ghost sv = self.states_view();
                    proof {
                        assert(sv[c as int] == before_row[c as int]);
                        assert(self.states@[c as int].view_of() == sv[c as int]);
                        assert(rows@[i as int]@ == rows_v[i as int]);
                    }
                    let st = self.states.remove(c);
                    let st2 = step_call_exec(st, &agg_calls[c], input_pk_indices, op, &rows[i]);
                    self.states.insert(c, st2);
                    proof {
                        assert(st2.view_of() == step_call(before_row[c as int],
                        calls_v[c as int], pk_v, ops@[i as int], rows_v[i as int]));
                        assert(self.states_view() =~= sv.update(c as int, st2.view_of()));
                    }
                }
                c = c + 1;
            }
            proof {
                assert(self.states_view() =~= step_row(
                    before_row,
                    calls_v,
                    pk_v,
                    ops@[i as int],
                    rows_v[i as int],
                    vis_row,
                ));
            }
            i = i + 1;
        }
    }

    /// The current output row of the group: its key followed by each call's
    /// output.
    pub fn get_outputs(&self, agg_calls: &Vec<AggCall>) -> (r: Vec<i64>)
        requires
            self.inv(),
            agg_calls@.len() == self.states_view().len(),
        ensures
            r@ == self.spec_group_key() + outputs_of(self.states_view(), agg_calls@),
    {
        let mut r = copy_i64_vec(&self.group_key);
        let n_calls = agg_calls.len();
        let mut c: usize = 0;
        while c < n_calls
            invariant
                self.inv(),
                n_calls == agg_calls@.len() == self.states_view().len(),
                0 <= c <= n_calls,
                r@ == self.spec_group_key() + outputs_of(
                    self.states_view(),
                    agg_calls@,
                ).subrange(0, c as int),
            decreases n_calls - c,
        {
            let out = output_of_exec(&self.states[c], &agg_calls[c]);
            r.push(out);
            proof {
                assert(self.states@.map_values(|s: AggCallState| s.view_of())[c as int]
                    == self.states@[c as int].view_of());
                assert(r@ =~= self.spec_group_key() + outputs_of(
                    self.states_view(),
                    agg_calls@,
                ).subrange(0, c + 1));
            }
            c = c + 1;
        }
        proof {
            assert(outputs_of(self.states_view(), agg_calls@).subrange(0, n_calls as int)
                =~= outputs_of(self.states_view(), agg_calls@));
        }
        r
    }

    /// Compare the current output row against the previous one and produce
    /// the change to emit, updating the remembered previous output. A group
    /// whose row count dropped to zero retracts its row; an unchanged row
    /// produces nothing.
    pub fn build_change(&mut self, curr_outputs: Vec<i64>) -> (r: Option<Change>)
        requires
            old(self).inv(),
        ensures
            final(self).inv(),
            final(self).spec_group_key() == old(self).spec_group_key(),
            final(self).spec_row_count_index() == old(self).spec_row_count_index(),
            final(self).states_view() == old(self).states_view(),
            final(self).spec_uninitialized() == old(self).spec_uninitialized(),
            ({
                let rc = clamp_i64(
                    old(self).states_view()[old(self).spec_row_count_index() as int].0,
                );
                if rc <= 0 {
                    match old(self).spec_prev_output() {
                        Some(prev) => (r matches Some(ch) && ch matches Change::Delete(d)
                            && d@ == prev) && final(self).spec_prev_output() is None,
                        None => r is None && final(self).spec_prev_output() is None,
                    }
                } else {
                    match old(self).spec_prev_output() {
                        None => (r matches Some(ch) && ch matches Change::Insert(n)
                            && n@ == curr_outputs@) && final(self).spec_prev_output() == Some(
                            curr_outputs@,
                        ),
                        Some(prev) => if prev == curr_outputs@ {
                            r is None && final(self).spec_prev_output() == Some(prev)
                        } else {
                            (r matches Some(ch) && ch matches Change::Update(o, n) && o@ == prev
                                && n@ == curr_outputs@) && final(self).spec_prev_output() == Some(
                                curr_outputs@,
                            )
                        },
                    }
                }
            }),
    {
        let rc = self.row_count();
        if rc <= 0 {
            let mut prev: Option<Vec<i64>> = None;
            std::mem::swap(&mut prev, &mut self.prev_output);
            match prev {
                Some(p) => Some(Change::Delete(p)),
                None => None,
            }
        } else {
            let mut prev: Option<Vec<i64>> = None;
            std::mem::swap(&mut prev, &mut self.prev_output);
            match prev {
                None => {
                    self.prev_output = Some(copy_i64_vec(&curr_outputs));
                    Some(Change::Insert(curr_outputs))
                },
                Some(p) => {
                    if keys_equal(&p, &curr_outputs) {
                        self.prev_output = Some(p);
                        None
                    } else {
                        self.prev_output = Some(copy_i64_vec(&curr_outputs));
                        Some(Change::Update(p, curr_outputs))
                    }
                },
            }
        }
    }
}

/// One visible row applied to one call state, exactly [`step_call`].
fn step_call_exec(
    st: AggCallState,
    call: &AggCall,
    input_pk_indices: &Vec<usize>,
    op: Op,
    row: &Vec<i64>,
) -> (r: AggCallState)
    requires
        call.arg_col < row@.len(),
        forall|j: int| 0 <= j < input_pk_indices@.len() ==> (#[trigger] input_pk_indices@[j])
            < row@.len(),
    ensures
        r.view_of() == step_call(st.view_of(), *call, input_pk_indices@, op, row@),
{
    let is_insert = match op {
        Op::Insert | Op::UpdateInsert => true,
        Op::Delete | Op::UpdateDelete => false,
    };
    match call.kind {
        AggKind::Count => {
            let delta: i128 = if is_insert {
                1
            } else {
                -1
            };
            AggCallState { value: sat_add_exec(st.value, delta), entries: st.entries }
        },
        AggKind::Sum => {
            let v = row[call.arg_col] as i128;
            let delta: i128 = if is_insert {
                v
            } else {
                -v
            };
            AggCallState { value: sat_add_exec(st.value, delta), entries: st.entries }
        },
        AggKind::Min | AggKind::Max => {
            let arg = row[call.arg_col];
            let pk = project(row, input_pk_indices);
            let mut entries = st.entries;
            let ghost e0 = entries@.map_values(|e: (i64, Vec<i64>)| (e.0, e.1@));
            if is_insert {
                entries.push((arg, pk));
                proof {
                    assert(entries@.map_values(|e: (i64, Vec<i64>)| (e.0, e.1@)) =~= e0.push(
                        (arg, pk@),
                    ));
                }
            } else {
                let n = entries.len();
                let mut found: Option<usize> = None;
                let mut i: usize = 0;
                while i < n
                    invariant
                        n == entries@.len(),
                        0 <= i <= n,
                        e0 == entries@.map_values(|e: (i64, Vec<i64>)| (e.0, e.1@)),
                        match found {
                            Some(f) => f < n && e0[f as int] == (arg, pk@) && forall|j: int|
                                0 <= j < f ==> (#[trigger] e0[j]) != (arg, pk@),
                            None => forall|j: int|
                                0 <= j < i ==> (#[trigger] e0[j]) != (arg, pk@),
                        },
                    decreases n - i,
                {
                    if found.is_none() && entries[i].0 == arg && keys_equal(&entries[i].1, &pk) {
                        proof {
                            assert(e0[i as int] == (arg, pk@));
                        }
                        found = Some(i);
                    }
                    i = i + 1;
                }
                match found {
                    Some(f) => {
                        proof {
                            assert(e0[f as int] == (arg, pk@));
                            lemma_entry_index(e0, arg, pk@, f as int);
                            let fi = entry_index(e0, arg, pk@);
                            if fi < f {
                                assert(e0[fi] != (arg, pk@));
                            } else if fi > f {
                                assert(e0[f as int] != (arg, pk@));
                            }
                            assert(fi == f);
                        }
                        let _ = entries.remove(f);
                        proof {
                            assert(entries@.map_values(|e: (i64, Vec<i64>)| (e.0, e.1@))
                                =~= e0.remove(f as int));
                        }
                    },
                    None => {
                        proof {
                            if exists|j: int|
                                0 <= j < e0.len() && (#[trigger] e0[j]) == (arg, pk@) {
                                let j = choose|j: int|
                                    0 <= j < e0.len() && (#[trigger] e0[j]) == (arg, pk@);
                            }
                        }
                    },
                }
            }
            AggCallState { value: st.value, entries }
        },
    }
}

/// Saturating 128-bit addition, exactly [`sat_add`].
fn sat_add_exec(a: i128, b: i128) -> (r: i128)
    ensures
        r as int == sat_add(a as int, b as int),
{
    match a.checked_add(b) {
        Some(v) => v,
        None => {
            if b > 0 {
                i128::MAX
            } else {
                i128::MIN
            }
        },
    }
}

/// The output of one call state, exactly [`output_of`].
fn output_of_exec(st: &AggCallState, call: &AggCall) -> (r: i64)
    ensures
        r == output_of(st.view_of(), *call),
{
    match call.kind {
        AggKind::Count | AggKind::Sum => {
            let v = st.value;
            if v > i64::MAX as i128 {
                i64::MAX
            } else if v < i64::MIN as i128 {
                i64::MIN
            } else {
                v as i64
            }
        },
        AggKind::Min => {
            let ghost e = st.entries@.map_values(|e: (i64, Vec<i64>)| (e.0, e.1@));
            let n = st.entries.len();
            if n == 0 {
                0
            } else {
                let mut acc = st.entries[0].0;
                let mut i: usize = 1;
                while i < n
                    invariant
                        n == st.entries@.len(),
                        e == st.entries@.map_values(|e2: (i64, Vec<i64>)| (e2.0, e2.1@)),
                        1 <= i <= n,
                        acc == min_arg(e.subrange(0, i as int)),
                    decreases n - i,
                {
                    proof {
                        assert(e.subrange(0, i + 1).drop_last() =~= e.subrange(0, i as int));
                        assert(e.subrange(0, i + 1).last() == e[i as int]);
                    }
                    let v = st.entries[i].0;
                    if v < acc {
                        acc = v;
                    }
                    i = i + 1;
                }
                proof {
                    assert(e.subrange(0, n as int) =~= e);
                }
                acc
            }
        },
        AggKind::Max => {
            let ghost e = st.entries@.map_values(|e: (i64, Vec<i64>)| (e.0, e.1@));
            let n = st.entries.len();
            if n == 0 {
                0
            } else {
                let mut acc = st.entries[0].0;
                let mut i: usize = 1;
                while i < n
                    invariant
                        n == st.entries@.len(),
                        e == st.entries@.map_values(|e2: (i64, Vec<i64>)| (e2.0, e2.1@)),
                        1 <= i <= n,
                        acc == max_arg(e.subrange(0, i as int)),
                    decreases n - i,
                {
                    proof {
                        assert(e.subrange(0, i + 1).drop_last() =~= e.subrange(0, i as int));
                        assert(e.subrange(0, i + 1).last() == e[i as int]);
                    }
                    let v = st.entries[i].0;
                    if v > acc {
                        acc = v;
                    }
                    i = i + 1;
                }
                proof {
                    assert(e.subrange(0, n as int) =~= e);
                }
                acc
            }
        },
    }
}

/// The primary key a group's result row carries in the result table: the
/// group key projected through the table's key columns. With an identity
/// key prefix this is the group key itself; with a permuted prefix it is
/// the group key in the table's key order.
pub open spec fn result_key_of(group_key: Seq<i64>, result_table: StateTable) -> Seq<i64> {
    spec_project(group_key, result_table.spec_pk_indices())
}

/// The group state [`AggGroup::create`] builds for `group_key` from the
/// committed result table and the committed materialized-input tables.
pub open spec fn is_hydrated_group(
    g: &AggGroup,
    group_key: Seq<i64>,
    agg_calls: Seq<AggCall>,
    storages: Seq<AggStateStorage>,
    result_table: StateTable,
    row_count_index: usize,
) -> bool {
    let rc = result_table.committed_view();
    let rk = result_key_of(group_key, result_table);
    &&& g.inv()
    &&& g.spec_group_key() == group_key
    &&& g.spec_row_count_index() == row_count_index
    &&& g.states_view().len() == agg_calls.len()
    &&& g.spec_uninitialized() == !crate::state_table::t_has(rc, rk)
    &&& g.spec_prev_output() == (if crate::state_table::t_has(rc, rk) {
        Some(rc[crate::state_table::t_index(rc, rk)].1)
    } else {
        None::<Seq<i64>>
    })
    &&& forall|c: int|
        0 <= c < agg_calls.len() ==> #[trigger] g.states_view()[c] == hydrated_state(
            agg_calls[c],
            c,
            group_key.len() as int,
            g.spec_prev_output(),
            (match storages[c] {
                AggStateStorage::MaterializedInput(t) => rows_with_prefix(
                    t.committed_view(),
                    group_key,
                ),
                AggStateStorage::ResultValue => Seq::empty(),
            }),
        )
}

} // verus!
