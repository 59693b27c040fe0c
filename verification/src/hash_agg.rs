//! The hash-aggregation operator: consumes chunks, barriers and watermarks,
//! fans rows out by group key, applies incremental aggregates through the
//! group cache, and on each barrier emits the changed results and commits
//! every backing table exactly once for that epoch.
//!
//! The operator is a state machine driven by `handle_message`; the
//! surrounding task that awaits upstream messages and forwards the returned
//! messages downstream performs no logic of its own.

use vstd::prelude::*;

use crate::agg::{
    call_is_value, clamp_i64, outputs_of, AggCall, AggGroup, AggKind, AggStateStorage,
};
use crate::cache::{k_has, k_index, IndexedLruCache};
use crate::rows::{copy_i64_vec, keys_equal, project, spec_project};
use crate::sort_buffer::{Change, SortBuffer};
use crate::state_table::{EpochPair, Op, StateTable};
use crate::tracker::BarrierKind;
use crate::vec_map::VecMap;

verus! {

/// Number of reuse-distance buckets of the cache instrumentation; one
/// overflow bucket follows them.
pub const BUCKET_NUMBER: usize = 10;

/// Lookups sampled into the reuse-distance histogram, per ten thousand.
pub const SAMPLE_NUM_IN_TEN_K: u64 = 50;

/// Ghost-ring capacity before the first adaptive resize.
pub const INIT_GHOST_CAP: usize = 1000;

/// Upper bound on the ghost-capacity multiple derived from value sizes.
pub const DEFAULT_GHOST_CAP_MULTIPLE: usize = 8;

/// A chunk of rows with their change operations; `visibility` masks rows
/// out when present.
pub struct Chunk {
    pub ops: Vec<Op>,
    pub rows: Vec<Vec<i64>>,
    pub visibility: Option<Vec<bool>>,
}

/// A watermark on one input column: no future row carries a smaller value
/// in that column.
pub struct Watermark {
    pub col_idx: usize,
    pub val: i64,
}

/// A command travelling with a barrier.
pub enum Mutation {
    Stop,
    UpdateVnodeBitmap(Vec<bool>),
    /// New cache sizes per result-table id.
    Cache(VecMap<u64>),
}

pub struct Barrier {
    pub epoch: EpochPair,
    pub kind: BarrierKind,
    pub mutation: Option<Mutation>,
}

pub enum Message {
    Chunk(Chunk),
    Barrier(Barrier),
    Watermark(Watermark),
}

/// Cache instrumentation of one operator: lookup counters and the sampled
/// reuse-distance histograms, with the current bucket geometry.
pub struct ExecutionStats {
    pub lookup_miss_count: u64,
    pub lookup_real_miss_count: u64,
    pub total_lookup_count: u64,
    pub chunk_lookup_miss_count: u64,
    pub chunk_total_lookup_count: u64,
    pub bucket_size: usize,
    pub ghost_bucket_size: usize,
    pub ghost_start: usize,
    pub bucket_ids: Vec<String>,
    pub bucket_counts: Vec<u64>,
    pub ghost_bucket_counts: Vec<u64>,
}

impl ExecutionStats {
    /// Fresh counters: zeroed histograms with one overflow bucket, unit
    /// bucket sizes.
    pub fn new() -> (r: ExecutionStats)
        ensures
            r.bucket_counts@.len() == BUCKET_NUMBER + 1,
            r.ghost_bucket_counts@.len() == BUCKET_NUMBER + 1,
            r.bucket_ids@.len() == BUCKET_NUMBER + 1,
            forall|i: int| 0 <= i < r.bucket_counts@.len() ==> (#[trigger] r.bucket_counts@[i]) == 0,
            forall|i: int|
                0 <= i < r.ghost_bucket_counts@.len() ==> (#[trigger] r.ghost_bucket_counts@[i])
                    == 0,
            r.lookup_miss_count == 0,
            r.lookup_real_miss_count == 0,
            r.total_lookup_count == 0,
            r.chunk_lookup_miss_count == 0,
            r.chunk_total_lookup_count == 0,
            r.bucket_size == 1,
            r.ghost_bucket_size == 1,
            r.ghost_start == 0,
    {
        let mut bucket_ids: Vec<String> = Vec::new();
        let mut bucket_counts: Vec<u64> = Vec::new();
        let mut ghost_bucket_counts: Vec<u64> = Vec::new();
        let mut i: usize = 0;
        while i <= BUCKET_NUMBER
            invariant
                0 <= i <= BUCKET_NUMBER + 1,
                bucket_ids@.len() == i,
                bucket_counts@.len() == i,
                ghost_bucket_counts@.len() == i,
                forall|j: int| 0 <= j < i ==> (#[trigger] bucket_counts@[j]) == 0,
                forall|j: int| 0 <= j < i ==> (#[trigger] ghost_bucket_counts@[j]) == 0,
            decreases BUCKET_NUMBER + 1 - i,
        {
            bucket_ids.push(crate::text::u64_to_string(i as u64));
            bucket_counts.push(0);
            ghost_bucket_counts.push(0);
            i = i + 1;
        }
        ExecutionStats {
            lookup_miss_count: 0,
            lookup_real_miss_count: 0,
            total_lookup_count: 0,
            chunk_lookup_miss_count: 0,
            chunk_total_lookup_count: 0,
            bucket_size: 1,
            ghost_bucket_size: 1,
            ghost_start: 0,
            bucket_ids,
            bucket_counts,
            ghost_bucket_counts,
        }
    }
}

/// A deterministic mixing hash of a group key, used only to decide which
/// lookups are sampled into the histogram.
pub open spec fn spec_stable_hash(key: Seq<i64>) -> u64
    decreases key.len(),
{
    if key.len() == 0 {
        14695981039346656037u64
    } else {
        (spec_stable_hash(key.drop_last()) ^ (key.last() as u64)).wrapping_mul(1099511628211u64)
    }
}

fn stable_hash(key: &Vec<i64>) -> (r: u64)
    ensures
        r == spec_stable_hash(key@),
{
    let n = key.len();
    let mut h: u64 = 14695981039346656037u64;
    let mut i: usize = 0;
    while i < n
        invariant
            n == key@.len(),
            0 <= i <= n,
            h == spec_stable_hash(key@.subrange(0, i as int)),
        decreases n - i,
    {
        proof {
            assert(key@.subrange(0, i + 1).drop_last() =~= key@.subrange(0, i as int));
            assert(key@.subrange(0, i + 1).last() == key@[i as int]);
        }
        h = (h ^ (key[i] as u64)).wrapping_mul(1099511628211u64);
        i = i + 1;
    }
    proof {
        assert(key@.subrange(0, n as int) =~= key@);
    }
    h
}

/// An error of the stream executor, surfaced to the embedding task.
#[derive(Debug)]
pub struct StreamExecutorError {
    pub message: String,
}

/// The distinct group keys of the visible rows, in first-occurrence order.
pub open spec fn spec_group_keys(keys: Seq<Seq<i64>>, vis: Seq<bool>) -> Seq<Seq<i64>>
    decreases keys.len(),
{
    if keys.len() == 0 {
        Seq::empty()
    } else {
        let rest = spec_group_keys(keys.drop_last(), vis.drop_last());
        if vis.last() && !rest.contains(keys.last()) {
            rest.push(keys.last())
        } else {
            rest
        }
    }
}

/// A visible row's key is among the group keys of the chunk.
pub proof fn lemma_spec_group_keys_contains(keys: Seq<Seq<i64>>, vis: Seq<bool>, p: int)
    requires
        keys.len() == vis.len(),
        0 <= p < keys.len(),
        vis[p],
    ensures
        spec_group_keys(keys, vis).contains(keys[p]),
    decreases keys.len(),
{
    if p == keys.len() - 1 {
        let rest = spec_group_keys(keys.drop_last(), vis.drop_last());
        if !rest.contains(keys.last()) {
            assert(spec_group_keys(keys, vis).last() == keys[p]);
        } else {
            let q = choose|q: int| 0 <= q < rest.len() && rest[q] == keys.last();
            assert(spec_group_keys(keys, vis)[q] == keys[p]);
        }
    } else {
        lemma_spec_group_keys_contains(keys.drop_last(), vis.drop_last(), p);
        let rest = spec_group_keys(keys.drop_last(), vis.drop_last());
        let q = choose|q: int| 0 <= q < rest.len() && rest[q] == keys.drop_last()[p];
        assert(spec_group_keys(keys, vis)[q] == keys[p]);
    }
}

/// The visibility bitmap of one group: row `i` is set exactly when it is
/// visible and keyed by `k`.
pub open spec fn spec_group_bitmap(keys: Seq<Seq<i64>>, vis: Seq<bool>, k: Seq<i64>) -> Seq<bool> {
    Seq::new(keys.len(), |i: int| vis[i] && keys[i] == k)
}

/// The per-call visibility of a chunk: the base visibility, restricted by
/// the call's filter column when it has one.
pub open spec fn spec_call_filter(call: AggCall, rows: Seq<Seq<i64>>, vis: Seq<bool>) -> Seq<bool> {
    Seq::new(
        rows.len(),
        |i: int| vis[i] && (match call.filter_col {
            Some(f) => rows[i][f as int] != 0,
            None => true,
        }),
    )
}

/// The per-call visibility of one group's rows: the call filter intersected
/// with the group bitmap.
pub open spec fn spec_group_call_vis(
    calls: Seq<AggCall>,
    keys: Seq<Seq<i64>>,
    rows: Seq<Seq<i64>>,
    vis: Seq<bool>,
    k: Seq<i64>,
) -> Seq<Seq<bool>> {
    Seq::new(
        calls.len(),
        |c: int|
            Seq::new(
                rows.len(),
                |i: int| spec_call_filter(calls[c], rows, vis)[i] && spec_group_bitmap(
                    keys,
                    vis,
                    k,
                )[i],
            ),
    )
}

/// The visibility a chunk has before masking: all rows when none is given.
pub open spec fn spec_base_vis(c: &Chunk) -> Seq<bool> {
    match c.visibility {
        Some(v) => v@,
        None => Seq::new(c.ops@.len(), |i: int| true),
    }
}

} // verus!

verus! {

/// The result table's primary key is a permutation of the group-key
/// positions `0 .. group_len`: every result row is keyed by its group key,
/// in the table's key order.
pub open spec fn is_pk_permutation(pk: Seq<usize>, group_len: int) -> bool {
    &&& pk.len() == group_len
    &&& forall|j: int| 0 <= j < pk.len() ==> (#[trigger] pk[j]) < group_len
    &&& forall|j1: int, j2: int|
        0 <= j1 < j2 < pk.len() ==> (#[trigger] pk[j1]) != (#[trigger] pk[j2])
}

/// One cached group is well formed for an operator with `n_calls`
/// aggregate calls over group keys of `group_len` columns.
pub open spec fn one_group_wf(
    k: Seq<i64>,
    g: AggGroup,
    n_calls: int,
    group_len: int,
    rc_idx: usize,
) -> bool {
    &&& g.inv()
    &&& g.states_view().len() == n_calls
    &&& g.spec_group_key() == k
    &&& k.len() == group_len
    &&& g.spec_row_count_index() == rc_idx
    &&& (g.spec_prev_output() matches Some(p) ==> p.len() == group_len + n_calls)
}

/// Every cached group is well formed.
pub open spec fn groups_wf(
    entries: Seq<crate::cache::CacheEntryView<AggGroup>>,
    n_calls: int,
    group_len: int,
    rc_idx: usize,
) -> bool {
    forall|i: int|
        0 <= i < entries.len() ==> one_group_wf(
            (#[trigger] entries[i]).0,
            entries[i].1,
            n_calls,
            group_len,
            rc_idx,
        )
}

/// Scalar calls store their state in the result row; min and max keep a
/// materialized-input table.
pub open spec fn calls_match_storages(calls: Seq<AggCall>, storages: Seq<AggStateStorage>) -> bool {
    forall|c: int|
        0 <= c < calls.len() ==> (call_is_value(#[trigger] calls[c]) <==> storages[c]
            matches AggStateStorage::ResultValue)
}

/// Every committed and staged row of the result table has `len` columns.
pub open spec fn result_rows_ok(t: StateTable, len: int) -> bool {
    &&& forall|i: int|
        0 <= i < t.committed_view().len() ==> (#[trigger] t.committed_view()[i]).1.len() == len
    &&& forall|i: int|
        0 <= i < t.staged_view().len() ==> (#[trigger] t.staged_view()[i]).1.len() == len
}

/// Every materialized-input table is valid, at the same epoch as the
/// result table, with rows and primary-key indices of the right width.
pub open spec fn storages_ok(
    storages: Seq<AggStateStorage>,
    epoch: Option<EpochPair>,
    row_len: int,
) -> bool {
    forall|c: int|
        0 <= c < storages.len() ==> ((#[trigger] storages[c])
            matches AggStateStorage::MaterializedInput(t) ==> t.inv() && t.spec_epoch() == epoch
            && (forall|i: int|
            0 <= i < t.committed_view().len() ==> (#[trigger] t.committed_view()[i]).1.len()
                == row_len) && (forall|i: int|
            0 <= i < t.staged_view().len() ==> (#[trigger] t.staged_view()[i]).1.len() == row_len)
            && (forall|j: int|
            0 <= j < t.spec_pk_indices().len() ==> (#[trigger] t.spec_pk_indices()[j]) < row_len))
}

/// Every buffered row has `len` columns.
pub open spec fn buffer_rows_ok(b: Seq<(i64, Seq<i64>)>, len: int) -> bool {
    forall|i: int| 0 <= i < b.len() ==> (#[trigger] b[i]).1.len() == len
}

/// The change set holds distinct keys, each of which is cached.
pub open spec fn change_set_ok(
    csv: Seq<Seq<i64>>,
    entries: Seq<crate::cache::CacheEntryView<AggGroup>>,
) -> bool {
    &&& forall|p: int, q: int|
        0 <= p < q < csv.len() ==> (#[trigger] csv[p]) != (#[trigger] csv[q])
    &&& forall|p: int| 0 <= p < csv.len() ==> k_has(entries, #[trigger] csv[p])
}

/// The hash-aggregation operator.
pub struct HashAggExecutor {
    input_pk_indices: Vec<usize>,
    group_key_indices: Vec<usize>,
    agg_calls: Vec<AggCall>,
    row_count_index: usize,
    storages: Vec<AggStateStorage>,
    result_table: StateTable,
    chunk_size: usize,
    emit_on_window_close: bool,
    window_col_idx_in_group_key: usize,
    window_col_idx: usize,
    cache: IndexedLruCache<AggGroup>,
    change_set: Vec<Vec<i64>>,
    buffered_watermarks: Vec<Option<Watermark>>,
    window_watermark: Option<i64>,
    buffer: SortBuffer,
    stats: ExecutionStats,
}

impl HashAggExecutor {
    pub closed spec fn spec_input_pk_indices(&self) -> Seq<usize> {
        self.input_pk_indices@
    }

    pub closed spec fn spec_group_key_indices(&self) -> Seq<usize> {
        self.group_key_indices@
    }

    pub closed spec fn spec_agg_calls(&self) -> Seq<AggCall> {
        self.agg_calls@
    }

    pub closed spec fn spec_row_count_index(&self) -> usize {
        self.row_count_index
    }

    pub closed spec fn spec_storages(&self) -> Seq<AggStateStorage> {
        self.storages@
    }

    pub closed spec fn spec_result_table(&self) -> StateTable {
        self.result_table
    }

    pub closed spec fn spec_chunk_size(&self) -> usize {
        self.chunk_size
    }

    pub closed spec fn spec_emit_on_window_close(&self) -> bool {
        self.emit_on_window_close
    }

    pub closed spec fn spec_window_col_in_group_key(&self) -> usize {
        self.window_col_idx_in_group_key
    }

    pub closed spec fn spec_window_col_idx(&self) -> usize {
        self.window_col_idx
    }

    pub closed spec fn spec_cache(&self) -> IndexedLruCache<AggGroup> {
        self.cache
    }

    pub open spec fn cache_entries(&self) -> Seq<crate::cache::CacheEntryView<AggGroup>> {
        self.spec_cache().entries_view()
    }

    pub closed spec fn change_set_view(&self) -> Seq<Seq<i64>> {
        self.change_set@.map_values(|k: Vec<i64>| k@)
    }

    pub closed spec fn spec_window_watermark(&self) -> Option<i64> {
        self.window_watermark
    }

    pub closed spec fn spec_buffer(&self) -> SortBuffer {
        self.buffer
    }

    pub closed spec fn spec_stats(&self) -> ExecutionStats {
        self.stats
    }

    pub closed spec fn spec_buffered_watermarks(&self) -> Seq<Option<Watermark>> {
        self.buffered_watermarks@
    }

    pub open spec fn group_len(&self) -> int {
        self.spec_group_key_indices().len() as int
    }

    pub open spec fn n_calls(&self) -> int {
        self.spec_agg_calls().len() as int
    }

    /// One cached group is well formed for this operator.
    pub open spec fn group_wf(&self, k: Seq<i64>, g: AggGroup) -> bool {
        one_group_wf(k, g, self.n_calls(), self.group_len(), self.spec_row_count_index())
    }

    /// Validity of the whole operator.
    pub open spec fn inv(&self) -> bool {
        // aggregate calls and their storages
        &&& self.spec_agg_calls().len() == self.spec_storages().len()
        &&& self.spec_row_count_index() < self.n_calls()
        &&& self.spec_agg_calls()[self.spec_row_count_index() as int].kind matches AggKind::Count
        &&& calls_match_storages(self.spec_agg_calls(), self.spec_storages())
        // the result table: keyed by the group key, rows are key ++ outputs
        &&& self.spec_result_table().inv()
        &&& is_pk_permutation(self.spec_result_table().spec_pk_indices(), self.group_len())
        &&& self.group_len() > 0
        &&& result_rows_ok(self.spec_result_table(), self.group_len() + self.n_calls())
        // materialized-input tables: rows are key ++ argument ++ input pk
        &&& storages_ok(
            self.spec_storages(),
            self.spec_result_table().spec_epoch(),
            self.group_len() + 1 + self.spec_input_pk_indices().len(),
        )
        // the window column sits inside the group key
        &&& self.spec_window_col_in_group_key() < self.group_len()
        &&& self.spec_window_col_idx() == self.spec_group_key_indices()[
            self.spec_window_col_in_group_key() as int
        ]
        // the cache and the groups it holds
        &&& self.spec_cache().inv()
        &&& groups_wf(
            self.cache_entries(),
            self.n_calls(),
            self.group_len(),
            self.spec_row_count_index(),
        )
        // the emit-on-window-close buffer
        &&& self.spec_buffer().inv()
        &&& self.spec_buffer().spec_window_col() == self.spec_window_col_in_group_key()
        &&& buffer_rows_ok(self.spec_buffer().buffer_view(), self.group_len() + self.n_calls())
        // the change set: distinct keys, all cached
        &&& change_set_ok(self.change_set_view(), self.cache_entries())
        // one buffered watermark slot per group-key column
        &&& self.spec_buffered_watermarks().len() == self.group_len()
        // instrumentation histograms keep their geometry
        &&& self.spec_stats().bucket_counts@.len() == BUCKET_NUMBER + 1
        &&& self.spec_stats().ghost_bucket_counts@.len() == BUCKET_NUMBER + 1
        &&& self.spec_stats().bucket_size >= 1
        &&& self.spec_stats().ghost_bucket_size >= 1
    }

    /// Build the operator. The result table's primary key must be exactly
    /// the group-key columns, in some order: each result row is then keyed
    /// by its (possibly permuted) group key, and the first key column names
    /// the window column inside the group key. A key that is not such a
    /// permutation is refused.
    pub fn new(
        input_pk_indices: Vec<usize>,
        group_key_indices: Vec<usize>,
        agg_calls: Vec<AggCall>,
        row_count_index: usize,
        storages: Vec<AggStateStorage>,
        result_table: StateTable,
        chunk_size: usize,
        emit_on_window_close: bool,
        cache_size_limit: usize,
    ) -> (r: Result<HashAggExecutor, StreamExecutorError>)
        requires
            group_key_indices@.len() > 0,
            agg_calls@.len() == storages@.len(),
            row_count_index < agg_calls@.len(),
            agg_calls@[row_count_index as int].kind matches AggKind::Count,
            forall|c: int|
                0 <= c < agg_calls@.len() ==> (call_is_value(#[trigger] agg_calls@[c])
                    <==> storages@[c] matches AggStateStorage::ResultValue),
            result_table.inv(),
            result_table.staged_view().len() == 0,
            forall|i: int|
                0 <= i < result_table.committed_view().len() ==> (
                #[trigger] result_table.committed_view()[i]).1.len() == group_key_indices@.len()
                    + agg_calls@.len(),
            forall|c: int|
                0 <= c < storages@.len() ==> ((#[trigger] storages@[c])
                    matches AggStateStorage::MaterializedInput(t) ==> t.inv() && t.spec_epoch()
                    == result_table.spec_epoch() && t.staged_view().len() == 0 && (forall|i: int|
                    0 <= i < t.committed_view().len() ==> (
                    #[trigger] t.committed_view()[i]).1.len() == group_key_indices@.len() + 1
                        + input_pk_indices@.len()) && (forall|j: int|
                    0 <= j < t.spec_pk_indices().len() ==> (#[trigger] t.spec_pk_indices()[j])
                        < group_key_indices@.len() + 1 + input_pk_indices@.len())),
        ensures
            r is Ok <==> is_pk_permutation(
                result_table.spec_pk_indices(),
                group_key_indices@.len() as int,
            ),
            r matches Ok(op) ==> {
                &&& op.inv()
                &&& op.spec_agg_calls() == agg_calls@
                &&& op.spec_storages() == storages@
                &&& op.spec_group_key_indices() == group_key_indices@
                &&& op.spec_input_pk_indices() == input_pk_indices@
                &&& op.spec_row_count_index() == row_count_index
                &&& op.spec_result_table() == result_table
                &&& op.spec_chunk_size() == chunk_size
                &&& op.spec_emit_on_window_close() == emit_on_window_close
                &&& op.spec_window_col_in_group_key() == result_table.spec_pk_indices()[0]
                &&& op.spec_window_col_idx() == group_key_indices@[
                    result_table.spec_pk_indices()[0] as int
                ]
                &&& op.cache_entries() == Seq::<crate::cache::CacheEntryView<AggGroup>>::empty()
                &&& op.spec_cache().spec_size_limit() == cache_size_limit
                &&& op.change_set_view() == Seq::<Seq<i64>>::empty()
                &&& op.spec_buffer().buffer_view() == Seq::<(i64, Seq<i64>)>::empty()
                &&& op.spec_window_watermark() is None
            },
    {
        let group_len = group_key_indices.len();
        let pk = result_table.pk_indices();
        if pk.len() != group_len {
            return Err(
                StreamExecutorError {
                    message: crate::text::u64_to_string(pk.len() as u64),
                },
            );
        }
        // every group-key position must appear in the key exactly once
        let mut seen: Vec<bool> = Vec::new();
        let mut z: usize = 0;
        while z < group_len
            invariant
                0 <= z <= group_len,
                seen@.len() == z,
                forall|q: int| 0 <= q < z ==> !(#[trigger] seen@[q]),
            decreases group_len - z,
        {
            seen.push(false);
            z = z + 1;
        }
        let mut perm_ok = true;
        let mut i: usize = 0;
        while i < group_len
            invariant
                group_len == pk@.len() == group_key_indices@.len(),
                pk@ == result_table.spec_pk_indices(),
                seen@.len() == group_len,
                0 <= i <= group_len,
                perm_ok ==> forall|j: int| 0 <= j < i ==> (#[trigger] pk@[j]) < group_len,
                perm_ok ==> forall|j1: int, j2: int|
                    0 <= j1 < j2 < i ==> (#[trigger] pk@[j1]) != (#[trigger] pk@[j2]),
                perm_ok ==> forall|q: int|
                    0 <= q < group_len ==> ((#[trigger] seen@[q]) <==> exists|j: int|
                        0 <= j < i && (#[trigger] pk@[j]) == q),
                !perm_ok ==> !is_pk_permutation(pk@, group_len as int),
            decreases group_len - i,
        {
            let p = pk[i];
            if p >= group_len {
                proof {
                    if is_pk_permutation(pk@, group_len as int) {
                        assert(pk@[i as int] < group_len);
                    }
                }
                perm_ok = false;
            } else if seen[p] {
                proof {
                    if perm_ok {
                        let j = choose|j: int| 0 <= j < i && (#[trigger] pk@[j]) == p as int;
                        if is_pk_permutation(pk@, group_len as int) {
                            assert(pk@[j] != pk@[i as int]);
                        }
                    }
                }
                perm_ok = false;
            } else {
                let ghost seen_before = seen@;
                seen.set(p, true);
                proof {
                    if perm_ok {
                        assert forall|q: int|
                            0 <= q < group_len implies ((#[trigger] seen@[q]) <==> exists|j: int|
                                0 <= j < i + 1 && (#[trigger] pk@[j]) == q) by {
                            if q == p as int {
                                assert(pk@[i as int] == q);
                            } else {
                                assert(seen@[q] == seen_before[q]);
                                if exists|j: int| 0 <= j < i + 1 && (#[trigger] pk@[j]) == q {
                                    let j = choose|j: int|
                                        0 <= j < i + 1 && (#[trigger] pk@[j]) == q;
                                    assert(j < i);
                                }
                            }
                        }
                    }
                }
            }
            i = i + 1;
        }
        if !perm_ok {
            return Err(
                StreamExecutorError { message: crate::text::u64_to_string(group_len as u64) },
            );
        }
        proof {
            assert(is_pk_permutation(pk@, group_len as int));
        }
        let window_col_idx_in_group_key: usize = pk[0];
        let window_col_idx = group_key_indices[window_col_idx_in_group_key];
        let n_group_cols = group_key_indices.len();
        let mut buffered_watermarks: Vec<Option<Watermark>> = Vec::new();
        let mut w: usize = 0;
        while w < n_group_cols
            invariant
                0 <= w <= n_group_cols,
                buffered_watermarks@.len() == w,
            decreases n_group_cols - w,
        {
            buffered_watermarks.push(None);
            w = w + 1;
        }
        let cache: IndexedLruCache<AggGroup> = IndexedLruCache::new(
            cache_size_limit,
            INIT_GHOST_CAP,
            BUCKET_NUMBER,
        );
        let buffer = SortBuffer::new(window_col_idx_in_group_key);
        let op = HashAggExecutor {
            input_pk_indices,
            group_key_indices,
            agg_calls,
            row_count_index,
            storages,
            result_table,
            chunk_size,
            emit_on_window_close,
            window_col_idx_in_group_key,
            window_col_idx,
            cache,
            change_set: Vec::new(),
            buffered_watermarks,
            window_watermark: None,
            buffer,
            stats: ExecutionStats::new(),
        };
        proof {
            assert(op.change_set_view() =~= Seq::<Seq<i64>>::empty());
        }
        Ok(op)
    }

    /// The visibilities that mask the rows of one chunk per group: one
    /// `(key, bitmap)` pair per distinct visible group key, keys in
    /// first-occurrence order, each bitmap marking exactly the visible rows
    /// of that group.
    pub fn get_group_visibilities(keys: &Vec<Vec<i64>>, base_vis: &Vec<bool>) -> (r: Vec<
        (Vec<i64>, Vec<bool>),
    >)
        requires
            keys@.len() == base_vis@.len(),
        ensures
            r@.map_values(|e: (Vec<i64>, Vec<bool>)| e.0@) == spec_group_keys(
                keys@.map_values(|k: Vec<i64>| k@),
                base_vis@,
            ),
            forall|g: int|
                0 <= g < r@.len() ==> (#[trigger] r@[g]).1@ == spec_group_bitmap(
                    keys@.map_values(|k: Vec<i64>| k@),
                    base_vis@,
                    r@[g].0@,
                ),
    {
        let ghost keys_v = keys@.map_values(|k: Vec<i64>| k@);
        let n = keys.len();
        let mut r: Vec<(Vec<i64>, Vec<bool>)> = Vec::new();
        let mut i: usize = 0;
        while i < n
            invariant
                n == keys_v.len() == base_vis@.len(),
                keys_v == keys@.map_values(|k: Vec<i64>| k@),
                0 <= i <= n,
                r@.map_values(|e: (Vec<i64>, Vec<bool>)| e.0@) == spec_group_keys(
                    keys_v.subrange(0, i as int),
                    base_vis@.subrange(0, i as int),
                ),
                forall|g: int| 0 <= g < r@.len() ==> (#[trigger] r@[g]).1@.len() == n,
                forall|g: int, p: int|
                    0 <= g < r@.len() && 0 <= p < n ==> ((#[trigger] r@[g].1@[p]) <==> (p < i
                        && base_vis@[p] && keys_v[p] == r@[g].0@)),
                forall|p: int, q: int|
                    0 <= p < q < r@.len() ==> (#[trigger] r@[p]).0@ != (#[trigger] r@[q]).0@,
            decreases n - i,
        {
            let ghost gk_before = spec_group_keys(
                keys_v.subrange(0, i as int),
                base_vis@.subrange(0, i as int),
            );
            proof {
                assert(keys_v.subrange(0, i + 1).drop_last() =~= keys_v.subrange(0, i as int));
                assert(base_vis@.subrange(0, i + 1).drop_last() =~= base_vis@.subrange(
                    0,
                    i as int,
                ));
                assert(keys_v.subrange(0, i + 1).last() == keys_v[i as int]);
                assert(base_vis@.subrange(0, i + 1).last() == base_vis@[i as int]);
            }
            if base_vis[i] {
                // find this key among the groups seen so far
                let m = r.len();
                let mut found: Option<usize> = None;
                let mut g: usize = 0;
                while g < m
                    invariant
                        m == r@.len(),
                        0 <= g <= m,
                        0 <= i < n,
                        keys_v == keys@.map_values(|k: Vec<i64>| k@),
                        n == keys_v.len(),
                        match found {
                            Some(f) => f < m && r@[f as int].0@ == keys_v[i as int],
                            None => forall|p: int|
                                0 <= p < g ==> (#[trigger] r@[p]).0@ != keys_v[i as int],
                        },
                    decreases m - g,
                {
                    if found.is_none() && keys_equal(&r[g].0, &keys[i]) {
                        found = Some(g);
                    }
                    g = g + 1;
                }
                let ghost r_keys = r@.map_values(|e: (Vec<i64>, Vec<bool>)| e.0@);
                match found {
                    Some(f) => {
                        proof {
                            assert(r_keys[f as int] == keys_v[i as int]);
                            assert(gk_before.contains(keys_v[i as int]));
                        }
                        let ghost r_before = r@;
                        let mut entry = r.remove(f);
                        entry.1.set(i, true);
                        r.insert(f, entry);
                        proof {
                            assert(r@ =~= r_before.update(
                                f as int,
                                (r_before[f as int].0, r@[f as int].1),
                            ));
                            assert(r@[f as int].1@ =~= r_before[f as int].1@.update(
                                i as int,
                                true,
                            ));
                            assert(r@.map_values(|e: (Vec<i64>, Vec<bool>)| e.0@) =~= r_keys);
                            assert(r@.map_values(|e: (Vec<i64>, Vec<bool>)| e.0@)
                                =~= spec_group_keys(
                                keys_v.subrange(0, i + 1),
                                base_vis@.subrange(0, i + 1),
                            ));
                            assert forall|g2: int, p: int|
                                0 <= g2 < r@.len() && 0 <= p < n implies ((
                            #[trigger] r@[g2].1@[p]) <==> (p < i + 1 && base_vis@[p] && keys_v[p]
                                == r@[g2].0@)) by {
                                if g2 == f {
                                    if p != i {
                                        assert(r@[g2].1@[p] == r_before[g2].1@[p]);
                                    }
                                } else {
                                    assert(r@[g2] == r_before[g2]);
                                    if p == i {
                                        if g2 < f {
                                            assert(r_before[g2].0@ != r_before[f as int].0@);
                                        } else {
                                            assert(r_before[f as int].0@ != r_before[g2].0@);
                                        }
                                    }
                                }
                            }
                        }
                    },
                    None => {
                        proof {
                            if gk_before.contains(keys_v[i as int]) {
                                let p = choose|p: int|
                                    0 <= p < gk_before.len() && gk_before[p] == keys_v[i as int];
                                assert(r_keys[p] == keys_v[i as int]);
                                assert(r@[p].0@ == r_keys[p]);
                                assert(false);
                            }
                            assert(!gk_before.contains(keys_v[i as int]));
                        }
                        let key_copy = copy_i64_vec(&keys[i]);
                        let mut bitmap: Vec<bool> = Vec::new();
                        let mut b: usize = 0;
                        while b < n
                            invariant
                                0 <= b <= n,
                                bitmap@.len() == b,
                                forall|p: int| 0 <= p < b ==> !(#[trigger] bitmap@[p]),
                            decreases n - b,
                        {
                            bitmap.push(false);
                            b = b + 1;
                        }
                        let ghost r_before = r@;
                        bitmap.set(i, true);
                        let ghost bm = bitmap@;
                        r.push((key_copy, bitmap));
                        proof {
                            assert(keys@[i as int]@ == keys_v[i as int]);
                            assert(forall|p: int| 0 <= p < n ==> (#[trigger] bm[p]) == (p == i));
                            assert(r@.map_values(|e: (Vec<i64>, Vec<bool>)| e.0@)
                                =~= r_keys.push(keys_v[i as int]));
                            assert(r@.map_values(|e: (Vec<i64>, Vec<bool>)| e.0@)
                                =~= spec_group_keys(
                                keys_v.subrange(0, i + 1),
                                base_vis@.subrange(0, i + 1),
                            ));
                            assert forall|g2: int, p: int|
                                0 <= g2 < r@.len() && 0 <= p < n implies ((
                            #[trigger] r@[g2].1@[p]) <==> (p < i + 1 && base_vis@[p] && keys_v[p]
                                == r@[g2].0@)) by {
                                if g2 < r_before.len() {
                                    assert(r@[g2] == r_before[g2]);
                                    assert((r_before[g2].1@[p]) <==> (p < i && base_vis@[p]
                                        && keys_v[p] == r_before[g2].0@));
                                    if p == i {
                                        assert((r_before[g2]).0@ != keys_v[i as int]);
                                    }
                                } else {
                                    assert(r@[g2].1@ == bm);
                                    assert(r@[g2].1@[p] == (p == i));
                                    assert(r@[g2].0@ == keys_v[i as int]);
                                    if p < i && base_vis@[p] && keys_v[p] == keys_v[i as int] {
                                        lemma_spec_group_keys_contains(
                                            keys_v.subrange(0, i as int),
                                            base_vis@.subrange(0, i as int),
                                            p,
                                        );
                                        assert(gk_before.contains(keys_v[i as int]));
                                        assert(false);
                                    }
                                }
                            }
                            assert forall|p: int, q: int|
                                0 <= p < q < r@.len() implies (#[trigger] r@[p]).0@ != (
                            #[trigger] r@[q]).0@ by {
                                if q == r@.len() - 1 {
                                    assert(r_before[p].0@ != keys_v[i as int]);
                                }
                            }
                        }
                    },
                }
            } else {
                proof {
                    assert(r@.map_values(|e: (Vec<i64>, Vec<bool>)| e.0@) =~= spec_group_keys(
                        keys_v.subrange(0, i + 1),
                        base_vis@.subrange(0, i + 1),
                    ));
                }
            }
            i = i + 1;
        }
        proof {
            assert(keys_v.subrange(0, n as int) =~= keys_v);
            assert(base_vis@.subrange(0, n as int) =~= base_vis@);
            assert forall|g: int| 0 <= g < r@.len() implies (#[trigger] r@[g]).1@
                == spec_group_bitmap(keys_v, base_vis@, r@[g].0@) by {
                assert(r@[g].1@ =~= spec_group_bitmap(keys_v, base_vis@, r@[g].0@));
            }
        }
        r
    }
}

} // verus!

verus! {

/// The cached group of key `k` (meaningful when `k_has`).
pub open spec fn cache_val(s: Seq<crate::cache::CacheEntryView<AggGroup>>, k: Seq<i64>) -> AggGroup {
    s[k_index(s, k)].1
}

/// The epoch tag of key `k`'s entry (meaningful when `k_has`).
pub open spec fn cache_tag(s: Seq<crate::cache::CacheEntryView<AggGroup>>, k: Seq<i64>) -> u64 {
    s[k_index(s, k)].2
}

/// Unsigned addition saturating at the machine word, as the lookup
/// counters use.
pub open spec fn sat_add_u64(a: u64, b: int) -> u64 {
    if a + b > u64::MAX {
        u64::MAX
    } else {
        (a + b) as u64
    }
}

/// How many of the keys have no cache entry.
pub open spec fn count_missing(
    keys: Seq<Seq<i64>>,
    entries: Seq<crate::cache::CacheEntryView<AggGroup>>,
) -> int
    decreases keys.len(),
{
    if keys.len() == 0 {
        0
    } else {
        count_missing(keys.drop_last(), entries) + (if k_has(entries, keys.last()) {
            0int
        } else {
            1int
        })
    }
}

proof fn lemma_count_missing_push(
    keys: Seq<Seq<i64>>,
    entries: Seq<crate::cache::CacheEntryView<AggGroup>>,
    k: Seq<i64>,
)
    ensures
        count_missing(keys.push(k), entries) == count_missing(keys, entries) + (if k_has(
            entries,
            k,
        ) {
            0int
        } else {
            1int
        }),
        count_missing(keys, entries) >= 0,
    decreases keys.len(),
{
    assert(keys.push(k).drop_last() =~= keys);
    assert(keys.push(k).last() == k);
    if keys.len() > 0 {
        lemma_count_missing_push(keys.drop_last(), entries, keys.last());
    }
}

impl HashAggExecutor {
    /// Record one sampled reuse distance in a histogram with the current
    /// geometry: bucket `distance / size`, saturated into the overflow
    /// bucket, offset by `start` for ghost distances.
    fn record_distance(counts: &mut Vec<u64>, distance: u64, start: usize, size: usize)
        requires
            old(counts)@.len() == BUCKET_NUMBER + 1,
            size >= 1,
        ensures
            final(counts)@.len() == old(counts)@.len(),
    {
        let idx: usize = if (distance as u128) < (start as u128) {
            0
        } else if (distance as u128) > (start as u128) + (size as u128) * (BUCKET_NUMBER as u128) {
            BUCKET_NUMBER
        } else {
            let off = distance - (start as u64);
            let q = off / (size as u64);
            proof {
                assert(q <= BUCKET_NUMBER) by (nonlinear_arith)
                    requires
                        q == (distance - start) as u64 / (size as u64),
                        (distance - start) as u64 <= (size as u64) * (BUCKET_NUMBER as u64),
                        size >= 1,
                ;
            }
            q as usize
        };
        let cur = counts[idx];
        counts.set(idx, cur.saturating_add(1));
    }

    /// Make sure every given group key has its state in the cache,
    /// hydrating missing groups from the result table and the
    /// materialized-input tables. Lookups feed the reuse-distance
    /// histograms; roughly one in two hundred lookups (by a stable hash of
    /// the key) is sampled for the non-ghost histogram.
    pub fn ensure_keys_in_cache(&mut self, keys: &Vec<Vec<i64>>)
        requires
            old(self).inv(),
            forall|p: int, q: int|
                0 <= p < q < keys@.len() ==> (#[trigger] keys@[p])@ != (#[trigger] keys@[q])@,
            forall|p: int| 0 <= p < keys@.len() ==> (#[trigger] keys@[p])@.len() == old(self).group_len(),
        ensures
            final(self).inv(),
            final(self).spec_result_table() == old(self).spec_result_table(),
            final(self).spec_storages() == old(self).spec_storages(),
            final(self).spec_agg_calls() == old(self).spec_agg_calls(),
            final(self).spec_group_key_indices() == old(self).spec_group_key_indices(),
            final(self).spec_input_pk_indices() == old(self).spec_input_pk_indices(),
            final(self).spec_row_count_index() == old(self).spec_row_count_index(),
            final(self).spec_chunk_size() == old(self).spec_chunk_size(),
            final(self).spec_emit_on_window_close() == old(self).spec_emit_on_window_close(),
            final(self).spec_window_col_in_group_key() == old(self).spec_window_col_in_group_key(),
            final(self).spec_window_col_idx() == old(self).spec_window_col_idx(),
            final(self).spec_buffer() == old(self).spec_buffer(),
            final(self).change_set_view() == old(self).change_set_view(),
            final(self).spec_buffered_watermarks() == old(self).spec_buffered_watermarks(),
            final(self).spec_window_watermark() == old(self).spec_window_watermark(),
            final(self).spec_cache().spec_cur_epoch() == old(self).spec_cache().spec_cur_epoch(),
            final(self).spec_cache().spec_size_limit() == old(self).spec_cache().spec_size_limit(),
            forall|j: int|
                0 <= j < keys@.len() ==> k_has(final(self).cache_entries(), (
                #[trigger] keys@[j])@),
            forall|j: int|
                0 <= j < keys@.len() && k_has(old(self).cache_entries(), (#[trigger] keys@[j])@)
                    ==> cache_val(final(self).cache_entries(), keys@[j]@) == cache_val(
                    old(self).cache_entries(),
                    keys@[j]@,
                ),
            forall|j: int|
                0 <= j < keys@.len() && !k_has(old(self).cache_entries(), (#[trigger] keys@[j])@)
                    ==> crate::agg::is_hydrated_group(
                    &cache_val(final(self).cache_entries(), keys@[j]@),
                    keys@[j]@,
                    old(self).spec_agg_calls(),
                    old(self).spec_storages(),
                    old(self).spec_result_table(),
                    old(self).spec_row_count_index(),
                ),
            forall|k: Seq<i64>| #[trigger]
                k_has(old(self).cache_entries(), k) ==> k_has(final(self).cache_entries(), k)
                    && cache_val(final(self).cache_entries(), k) == cache_val(
                    old(self).cache_entries(),
                    k,
                ) && (cache_tag(final(self).cache_entries(), k) == cache_tag(
                    old(self).cache_entries(),
                    k,
                ) || cache_tag(final(self).cache_entries(), k) == old(self).spec_cache().spec_cur_epoch()),
            // the lookup counters: one lookup per key, one chunk-level
            // lookup, and a (chunk-level) miss exactly when a key was
            // absent
            final(self).spec_stats().total_lookup_count == sat_add_u64(
                old(self).spec_stats().total_lookup_count,
                keys@.len() as int,
            ),
            final(self).spec_stats().lookup_miss_count == sat_add_u64(
                old(self).spec_stats().lookup_miss_count,
                count_missing(keys@.map_values(|k: Vec<i64>| k@), old(self).cache_entries()),
            ),
            final(self).spec_stats().chunk_total_lookup_count == sat_add_u64(
                old(self).spec_stats().chunk_total_lookup_count,
                1,
            ),
            final(self).spec_stats().chunk_lookup_miss_count == (if count_missing(
                keys@.map_values(|k: Vec<i64>| k@),
                old(self).cache_entries(),
            ) > 0 {
                sat_add_u64(old(self).spec_stats().chunk_lookup_miss_count, 1)
            } else {
                old(self).spec_stats().chunk_lookup_miss_count
            }),
    {
        let n = keys.len();
        let mut any_miss = false;
        let mut i: usize = 0;
        while i < n
            invariant
                self.inv(),
                n == keys@.len(),
                0 <= i <= n,
                forall|p: int, q: int|
                    0 <= p < q < keys@.len() ==> (#[trigger] keys@[p])@ != (#[trigger] keys@[q])@,
                forall|p: int| 0 <= p < keys@.len() ==> (#[trigger] keys@[p])@.len() == old(self).group_len(),
                self.spec_result_table() == old(self).spec_result_table(),
                self.spec_storages() == old(self).spec_storages(),
                self.spec_agg_calls() == old(self).spec_agg_calls(),
                self.spec_group_key_indices() == old(self).spec_group_key_indices(),
                self.spec_input_pk_indices() == old(self).spec_input_pk_indices(),
                self.spec_row_count_index() == old(self).spec_row_count_index(),
                self.spec_chunk_size() == old(self).spec_chunk_size(),
                self.spec_emit_on_window_close() == old(self).spec_emit_on_window_close(),
                self.spec_window_col_in_group_key() == old(self).spec_window_col_in_group_key(),
                self.spec_window_col_idx() == old(self).spec_window_col_idx(),
                self.spec_buffer() == old(self).spec_buffer(),
                self.change_set_view() == old(self).change_set_view(),
                self.spec_buffered_watermarks() == old(self).spec_buffered_watermarks(),
                self.spec_window_watermark() == old(self).spec_window_watermark(),
                self.spec_cache().spec_cur_epoch() == old(self).spec_cache().spec_cur_epoch(),
                self.spec_cache().spec_size_limit() == old(self).spec_cache().spec_size_limit(),
                forall|j: int|
                    0 <= j < i ==> k_has(self.cache_entries(), (#[trigger] keys@[j])@),
                forall|j: int|
                    0 <= j < i && k_has(old(self).cache_entries(), (#[trigger] keys@[j])@)
                        ==> cache_val(self.cache_entries(), keys@[j]@) == cache_val(
                        old(self).cache_entries(),
                        keys@[j]@,
                    ),
                forall|j: int|
                    0 <= j < i && !k_has(old(self).cache_entries(), (#[trigger] keys@[j])@)
                        ==> crate::agg::is_hydrated_group(
                        &cache_val(self.cache_entries(), keys@[j]@),
                        keys@[j]@,
                        old(self).spec_agg_calls(),
                        old(self).spec_storages(),
                        old(self).spec_result_table(),
                        old(self).spec_row_count_index(),
                    ),
                forall|k: Seq<i64>| #[trigger]
                    k_has(old(self).cache_entries(), k) ==> k_has(self.cache_entries(), k)
                        && cache_val(self.cache_entries(), k) == cache_val(
                        old(self).cache_entries(),
                        k,
                    ) && (cache_tag(self.cache_entries(), k) == cache_tag(
                        old(self).cache_entries(),
                        k,
                    ) || cache_tag(self.cache_entries(), k) == old(self).spec_cache().spec_cur_epoch()),
                forall|k: Seq<i64>| #[trigger]
                    k_has(self.cache_entries(), k) ==> k_has(old(self).cache_entries(), k) || (
                    exists|j: int| 0 <= j < i && (#[trigger] keys@[j])@ == k),
                self.spec_stats().total_lookup_count == sat_add_u64(
                    old(self).spec_stats().total_lookup_count,
                    i as int,
                ),
                self.spec_stats().lookup_miss_count == sat_add_u64(
                    old(self).spec_stats().lookup_miss_count,
                    count_missing(
                        keys@.map_values(|k: Vec<i64>| k@).subrange(0, i as int),
                        old(self).cache_entries(),
                    ),
                ),
                self.spec_stats().chunk_total_lookup_count == old(
                    self,
                ).spec_stats().chunk_total_lookup_count,
                self.spec_stats().chunk_lookup_miss_count == old(
                    self,
                ).spec_stats().chunk_lookup_miss_count,
                any_miss == (count_missing(
                    keys@.map_values(|k: Vec<i64>| k@).subrange(0, i as int),
                    old(self).cache_entries(),
                ) > 0),
            decreases n - i,
        {
            let ghost keys_v = keys@.map_values(|k: Vec<i64>| k@);
            proof {
                lemma_count_missing_push(
                    keys_v.subrange(0, i as int),
                    old(self).cache_entries(),
                    keys_v[i as int],
                );
                assert(keys_v.subrange(0, i + 1) =~= keys_v.subrange(0, i as int).push(
                    keys_v[i as int],
                ));
            }
            self.stats.total_lookup_count = self.stats.total_lookup_count.saturating_add(1);
            let h = stable_hash(&keys[i]);
            let sampled = h % 10000 < SAMPLE_NUM_IN_TEN_K;
            let ghost entries_pre = self.cache_entries();
            let ghost cur_epoch = self.spec_cache().spec_cur_epoch();
            let (exist, dis) = self.cache.contains_sampled(&keys[i], sampled);
            let ghost entries_probe = self.cache_entries();
            proof {
                if exist {
                    assert(entries_probe == entries_pre.remove(
                        k_index(entries_pre, keys@[i as int]@),
                    ).push(
                        (
                            entries_pre[k_index(entries_pre, keys@[i as int]@)].0,
                            entries_pre[k_index(entries_pre, keys@[i as int]@)].1,
                            cur_epoch,
                        ),
                    ));
                } else {
                    assert(entries_probe == entries_pre);
                }
            }
            proof {
                // the probe's hit answer coincides with presence in the
                // cache the call started from: keys processed so far are
                // distinct from this one
                if k_has(entries_pre, keys@[i as int]@) && !k_has(
                    old(self).cache_entries(),
                    keys@[i as int]@,
                ) {
                    let j = choose|j: int| 0 <= j < i && (#[trigger] keys@[j])@ == keys@[i as int]@;
                    assert(keys@[j]@ != keys@[i as int]@);
                }
                assert(exist == k_has(old(self).cache_entries(), keys@[i as int]@));
            }
            match dis {
                Some((distance, is_ghost)) => {
                    if is_ghost {
                        let start = self.stats.ghost_start;
                        let size = self.stats.ghost_bucket_size;
                        Self::record_distance(
                            &mut self.stats.ghost_bucket_counts,
                            distance,
                            start,
                            size,
                        );
                    } else if sampled {
                        let size = self.stats.bucket_size;
                        Self::record_distance(&mut self.stats.bucket_counts, distance, 0, size);
                    }
                },
                None => {},
            }
            if !exist {
                self.stats.lookup_miss_count = self.stats.lookup_miss_count.saturating_add(1);
                any_miss = true;
                let key_copy = copy_i64_vec(&keys[i]);
                proof {
                    assert forall|c: int|
                        0 <= c < self.spec_storages().len() implies crate::agg::mat_rows_long_enough(
                        &(#[trigger] self.spec_storages()[c]),
                        key_copy@.len() + 1int,
                    ) by {
                        match self.spec_storages()[c] {
                            AggStateStorage::MaterializedInput(t) => {},
                            AggStateStorage::ResultValue => {},
                        }
                    }
                }
                let agg_group = AggGroup::create(
                    key_copy,
                    &self.agg_calls,
                    &self.storages,
                    &self.result_table,
                    self.row_count_index,
                );
                if !agg_group.is_uninitialized() {
                    self.stats.lookup_real_miss_count = self.stats
                        .lookup_real_miss_count
                        .saturating_add(1);
                    let cur = self.stats.ghost_bucket_counts[BUCKET_NUMBER];
                    self.stats.ghost_bucket_counts.set(BUCKET_NUMBER, cur.saturating_add(1));
                }
                let key_copy2 = copy_i64_vec(&keys[i]);
                self.cache.put(key_copy2, agg_group);
                proof {
                    assert(self.cache_entries() =~= entries_probe.push(
                        (keys@[i as int]@, agg_group, cur_epoch),
                    ));
                    assert(crate::agg::is_hydrated_group(
                        &agg_group,
                        keys@[i as int]@,
                        old(self).spec_agg_calls(),
                        old(self).spec_storages(),
                        old(self).spec_result_table(),
                        old(self).spec_row_count_index(),
                    ));
                }
            }
            proof {
                let cur = self.cache_entries();
                let ki = keys@[i as int]@;
                // step facts: this iteration refreshed or added exactly `ki`
                if exist {
                    let idx = k_index(entries_pre, ki);
                    lemma_refresh_preserves(entries_pre, idx, cur_epoch);
                    assert(cur == entries_probe);
                    assert forall|j: int| 0 <= j < cur.len() implies self.group_wf(
                        (#[trigger] cur[j]).0,
                        cur[j].1,
                    ) by {
                        if j == cur.len() - 1 {
                            assert(cur[j].0 == entries_pre[idx].0 && cur[j].1
                                == entries_pre[idx].1);
                        } else {
                            let j0 = if j < idx {
                                j
                            } else {
                                j + 1
                            };
                            assert(cur[j] == entries_pre[j0]);
                        }
                    }
                    assert(k_has(cur, ki) && cache_val(cur, ki) == cache_val(entries_pre, ki));
                } else {
                    assert(cur[cur.len() - 1].0 == ki);
                    lemma_push_preserves(entries_probe, cur[cur.len() - 1]);
                    assert(cur == entries_probe.push(cur[cur.len() - 1]));
                    assert(cache_val(cur, ki) == cur[cur.len() - 1].1);
                    let rc = self.spec_result_table().committed_view();
                    let rk = crate::agg::result_key_of(ki, self.spec_result_table());
                    assert(self.group_wf(ki, cache_val(cur, ki))) by {
                        if crate::state_table::t_has(rc, rk) {
                            let ti = crate::state_table::t_index(rc, rk);
                            assert(0 <= ti < rc.len() && rc[ti].0 == rk);
                            assert(rc[ti].1.len() == self.group_len() + self.n_calls());
                        }
                    }
                    assert forall|j: int| 0 <= j < cur.len() implies self.group_wf(
                        (#[trigger] cur[j]).0,
                        cur[j].1,
                    ) by {
                        if j < entries_probe.len() {
                            assert(cur[j] == entries_pre[j]);
                        }
                    }
                }
                // presence, values and tags carry over this iteration
                assert forall|k: Seq<i64>| #[trigger]
                    k_has(entries_pre, k) implies k_has(cur, k) && cache_val(cur, k) == cache_val(
                    entries_pre,
                    k,
                ) && (cache_tag(cur, k) == cache_tag(entries_pre, k) || cache_tag(cur, k)
                    == cur_epoch) by {}
                assert forall|k: Seq<i64>| #[trigger]
                    k_has(cur, k) implies k_has(entries_pre, k) || k == ki by {}
                assert forall|p: int|
                    0 <= p < self.change_set_view().len() implies k_has(
                    cur,
                    #[trigger] self.change_set_view()[p],
                ) by {
                    assert(k_has(entries_pre, self.change_set_view()[p]));
                }
                assert(k_has(cur, ki));
                // the per-key clauses, chained through this iteration
                assert forall|j: int| 0 <= j < i + 1 implies k_has(cur, (
                #[trigger] keys@[j])@) by {
                    if j < i {
                        assert(k_has(entries_pre, keys@[j]@));
                    }
                }
                assert forall|j: int|
                    0 <= j < i + 1 && k_has(old(self).cache_entries(), (#[trigger] keys@[j])@)
                        implies cache_val(cur, keys@[j]@) == cache_val(
                        old(self).cache_entries(),
                        keys@[j]@,
                    ) by {
                    assert(k_has(entries_pre, keys@[j]@));
                }
                assert forall|j: int|
                    0 <= j < i + 1 && !k_has(old(self).cache_entries(), (#[trigger] keys@[j])@)
                        implies crate::agg::is_hydrated_group(
                        &cache_val(cur, keys@[j]@),
                        keys@[j]@,
                        old(self).spec_agg_calls(),
                        old(self).spec_storages(),
                        old(self).spec_result_table(),
                        old(self).spec_row_count_index(),
                    ) by {
                    if j < i {
                        assert(k_has(entries_pre, keys@[j]@));
                        assert(cache_val(cur, keys@[j]@) == cache_val(entries_pre, keys@[j]@));
                    } else {
                        assert(!k_has(entries_pre, ki));
                        assert(!exist);
                    }
                }
            }
            i = i + 1;
        }
        proof {
            assert(keys@.map_values(|k: Vec<i64>| k@).subrange(0, n as int) =~= keys@.map_values(
                |k: Vec<i64>| k@,
            ));
        }
        self.stats.chunk_total_lookup_count = self.stats.chunk_total_lookup_count.saturating_add(
            1,
        );
        if any_miss {
            self.stats.chunk_lookup_miss_count = self.stats.chunk_lookup_miss_count.saturating_add(
                1,
            );
        }
    }
}

/// Refreshing entry `i` (moving it to the back with a new epoch tag) keeps
/// every key's presence, value and — for other keys — tag.
pub proof fn lemma_refresh_preserves(
    s: Seq<crate::cache::CacheEntryView<AggGroup>>,
    i: int,
    epoch: u64,
)
    requires
        crate::cache::k_distinct(s),
        0 <= i < s.len(),
    ensures
        ({
            let s2 = s.remove(i).push((s[i].0, s[i].1, epoch));
            &&& forall|k: Seq<i64>| #[trigger] k_has(s, k) ==> k_has(s2, k)
            &&& forall|k: Seq<i64>| #[trigger] k_has(s2, k) ==> k_has(s, k)
            &&& forall|k: Seq<i64>| #[trigger]
                k_has(s, k) ==> cache_val(s2, k) == cache_val(s, k) && (cache_tag(s2, k)
                    == cache_tag(s, k) || cache_tag(s2, k) == epoch)
        }),
{
    let s2 = s.remove(i).push((s[i].0, s[i].1, epoch));
    assert forall|k: Seq<i64>| #[trigger] k_has(s, k) implies k_has(s2, k) by {
        let j = k_index(s, k);
        if j == i {
            assert(s2[s2.len() - 1].0 == k);
        } else {
            let j2 = if j < i {
                j
            } else {
                j - 1
            };
            assert(s2[j2].0 == k);
        }
    }
    assert forall|k: Seq<i64>| #[trigger] k_has(s2, k) implies k_has(s, k) by {
        let j = k_index(s2, k);
        if j == s2.len() - 1 {
            assert(s[i].0 == k);
        } else {
            let j0 = if j < i {
                j
            } else {
                j + 1
            };
            assert(s[j0].0 == k);
        }
    }
    assert forall|k: Seq<i64>| #[trigger]
        k_has(s, k) implies cache_val(s2, k) == cache_val(s, k) && (cache_tag(s2, k) == cache_tag(
        s,
        k,
    ) || cache_tag(s2, k) == epoch) by {
        let j = k_index(s, k);
        assert(s[j].0 == k);
        if j != i {
            if j < i {
                assert(s[j].0 != s[i].0);
            } else {
                assert(s[i].0 != s[j].0);
            }
        }
        let j2 = k_index(s2, k);
        assert(s2[j2].0 == k);
        if j2 == s2.len() - 1 {
            assert(s2[j2] == (s[i].0, s[i].1, epoch));
            assert(k == s[i].0);
            assert(j == i);
        } else {
            let j0 = if j2 < i {
                j2
            } else {
                j2 + 1
            };
            assert(s2[j2] == s[j0]);
            if j0 != j {
                if j0 < j {
                    assert(s[j0].0 != s[j].0);
                } else {
                    assert(s[j].0 != s[j0].0);
                }
            }
        }
    }
}

/// Pushing a fresh entry keeps every present key's entry.
pub proof fn lemma_push_preserves(
    s: Seq<crate::cache::CacheEntryView<AggGroup>>,
    e: crate::cache::CacheEntryView<AggGroup>,
)
    requires
        crate::cache::k_distinct(s),
        !k_has(s, e.0),
    ensures
        forall|k: Seq<i64>| #[trigger] k_has(s, k) ==> k_has(s.push(e), k),
        forall|k: Seq<i64>| #[trigger]
            k_has(s, k) ==> cache_val(s.push(e), k) == cache_val(s, k) && cache_tag(s.push(e), k)
                == cache_tag(s, k),
        forall|k: Seq<i64>| #[trigger] k_has(s.push(e), k) ==> k_has(s, k) || k == e.0,
        k_has(s.push(e), e.0),
        cache_val(s.push(e), e.0) == e.1,
        cache_tag(s.push(e), e.0) == e.2,
{
    let s2 = s.push(e);
    assert forall|k: Seq<i64>| #[trigger] k_has(s, k) implies k_has(s2, k) && cache_val(s2, k)
        == cache_val(s, k) && cache_tag(s2, k) == cache_tag(s, k) by {
        let j = k_index(s, k);
        assert(s2[j].0 == k);
        let j2 = k_index(s2, k);
        assert(s2[j2].0 == k);
        if j2 == s2.len() - 1 {
            assert(e.0 == k);
        } else {
            if j2 != j {
                if j2 < j {
                    assert(s[j2].0 != s[j].0);
                } else {
                    assert(s[j].0 != s[j2].0);
                }
            }
        }
    }
    assert forall|k: Seq<i64>| #[trigger] k_has(s2, k) implies k_has(s, k) || k == e.0 by {
        let j = k_index(s2, k);
        if j < s.len() {
            assert(s[j].0 == k);
        }
    }
    assert(s2[s2.len() - 1].0 == e.0);
    let je = k_index(s2, e.0);
    assert(s2[je].0 == e.0);
    if je < s.len() {
        assert(s[je].0 == e.0);
        assert(k_has(s, e.0));
    }
}

} // verus!

verus! {

/// Replacing entry `i`'s value (the entry moves to the back, tagged with
/// `epoch`) keeps every other key's entry.
pub proof fn lemma_replace_preserves(
    s: Seq<crate::cache::CacheEntryView<AggGroup>>,
    i: int,
    v2: AggGroup,
    epoch: u64,
)
    requires
        crate::cache::k_distinct(s),
        0 <= i < s.len(),
    ensures
        ({
            let s2 = s.remove(i).push((s[i].0, v2, epoch));
            &&& forall|k: Seq<i64>| #[trigger] k_has(s, k) ==> k_has(s2, k)
            &&& forall|k: Seq<i64>| #[trigger] k_has(s2, k) ==> k_has(s, k)
            &&& forall|k: Seq<i64>| #[trigger]
                k_has(s, k) && k != s[i].0 ==> cache_val(s2, k) == cache_val(s, k)
            &&& cache_val(s2, s[i].0) == v2
        }),
{
    let s2 = s.remove(i).push((s[i].0, v2, epoch));
    assert forall|k: Seq<i64>| #[trigger] k_has(s, k) implies k_has(s2, k) by {
        let j = k_index(s, k);
        if j == i {
            assert(s2[s2.len() - 1].0 == k);
        } else {
            let j2 = if j < i {
                j
            } else {
                j - 1
            };
            assert(s2[j2].0 == k);
        }
    }
    assert forall|k: Seq<i64>| #[trigger] k_has(s2, k) implies k_has(s, k) by {
        let j = k_index(s2, k);
        if j == s2.len() - 1 {
            assert(s[i].0 == k);
        } else {
            let j0 = if j < i {
                j
            } else {
                j + 1
            };
            assert(s[j0].0 == k);
        }
    }
    assert forall|k: Seq<i64>| #[trigger]
        k_has(s, k) && k != s[i].0 implies cache_val(s2, k) == cache_val(s, k) by {
        let j = k_index(s, k);
        assert(s[j].0 == k);
        let j2 = k_index(s2, k);
        assert(s2[j2].0 == k);
        if j2 == s2.len() - 1 {
            assert(k == s[i].0);
        } else {
            let j0 = if j2 < i {
                j2
            } else {
                j2 + 1
            };
            assert(s2[j2] == s[j0]);
            if j0 != j {
                if j0 < j {
                    assert(s[j0].0 != s[j].0);
                } else {
                    assert(s[j].0 != s[j0].0);
                }
            }
        }
    }
    let je = k_index(s2, s[i].0);
    assert(s2[s2.len() - 1].0 == s[i].0);
    assert(k_has(s2, s[i].0));
    assert(s2[je].0 == s[i].0);
    if je != s2.len() - 1 {
        let j0 = if je < i {
            je
        } else {
            je + 1
        };
        assert(s2[je] == s[j0]);
        assert(s[j0].0 == s[i].0);
        if j0 < i {
            assert(s[j0].0 != s[i].0);
        } else {
            assert(s[i].0 != s[j0].0);
        }
    }
}

/// The state one chunk group starts from: its cached state if the key was
/// cached when the chunk arrived, else the hydrated state.
pub open spec fn pre_chunk_states(
    entries: Seq<crate::cache::CacheEntryView<AggGroup>>,
    k: Seq<i64>,
    calls: Seq<AggCall>,
    storages: Seq<AggStateStorage>,
    result_table: StateTable,
    group_len: int,
) -> Seq<crate::agg::AggCallStateView> {
    let rc = result_table.committed_view();
    let rk = crate::agg::result_key_of(k, result_table);
    if k_has(entries, k) {
        cache_val(entries, k).states_view()
    } else {
        Seq::new(
            calls.len(),
            |c: int|
                crate::agg::hydrated_state(
                    calls[c],
                    c,
                    group_len,
                    (if crate::state_table::t_has(rc, rk) {
                        Some(rc[crate::state_table::t_index(rc, rk)].1)
                    } else {
                        None
                    }),
                    (match storages[c] {
                        AggStateStorage::MaterializedInput(t) => crate::state_table::rows_with_prefix(
                            t.committed_view(),
                            k,
                        ),
                        AggStateStorage::ResultValue => Seq::empty(),
                    }),
                ),
        )
    }
}

/// The per-group outcome of applying one chunk: every distinct visible
/// group key of the chunk is cached afterwards and marked changed, and its
/// call states are exactly the chunk fold of its pre-chunk states (its
/// cached state, or the hydrated state where the key was not cached).
pub open spec fn spec_chunk_outcome(
    entries_pre: Seq<crate::cache::CacheEntryView<AggGroup>>,
    calls: Seq<AggCall>,
    gk_indices: Seq<usize>,
    input_pk: Seq<usize>,
    storages: Seq<AggStateStorage>,
    result_table: StateTable,
    group_len: int,
    chunk: &Chunk,
    entries_post: Seq<crate::cache::CacheEntryView<AggGroup>>,
    csv_post: Seq<Seq<i64>>,
) -> bool {
    let keys_v = Seq::new(chunk.rows@.len(), |i: int| spec_project(chunk.rows@[i]@, gk_indices));
    let base = spec_base_vis(chunk);
    let gkeys = spec_group_keys(keys_v, base);
    forall|g: int|
        0 <= g < gkeys.len() ==> k_has(entries_post, #[trigger] gkeys[g]) && csv_post.contains(
            gkeys[g],
        ) && cache_val(entries_post, gkeys[g]).states_view() == crate::agg::apply_rows_up_to(
            pre_chunk_states(entries_pre, gkeys[g], calls, storages, result_table, group_len),
            calls,
            input_pk,
            chunk.ops@,
            chunk.rows@.map_values(|r: Vec<i64>| r@),
            spec_group_call_vis(
                calls,
                keys_v,
                chunk.rows@.map_values(|r: Vec<i64>| r@),
                base,
                gkeys[g],
            ),
            chunk.rows@.len() as int,
        )
}

/// The rows one aggregate call's materialized-input table receives from a
/// chunk: for each input row, the group key, the call's argument, and the
/// input primary key.
pub open spec fn mat_rows_of(
    rows: Seq<Seq<i64>>,
    gk_indices: Seq<usize>,
    arg_col: usize,
    input_pk: Seq<usize>,
) -> Seq<Seq<i64>> {
    Seq::new(
        rows.len(),
        |i: int| spec_project(rows[i], gk_indices) + seq![rows[i][arg_col as int]]
            + spec_project(rows[i], input_pk),
    )
}

/// The cache entries after the between-barrier pressure relief that starts
/// an epoch's work: entries of earlier epochs are evicted down to the size
/// limit, but only while the change set is empty.
pub open spec fn entries_after_pressure(op: HashAggExecutor) -> Seq<
    crate::cache::CacheEntryView<AggGroup>,
> {
    if op.change_set_view().len() == 0 {
        crate::cache::spec_evict_except(
            op.spec_cache().state_view(),
            op.spec_cache().spec_size_limit() as int,
            op.spec_cache().spec_ghost_cap() as int,
            op.spec_cache().spec_cur_epoch(),
        ).0
    } else {
        op.cache_entries()
    }
}

impl HashAggExecutor {
    /// Apply one chunk: fan its visible rows out by group key, make sure
    /// every touched group is cached (hydrating from the tables), write the
    /// materialized-input columns, and fold each group's rows into its
    /// aggregate states. Touched keys enter the change set; nothing is
    /// committed here.
    pub fn apply_chunk(&mut self, chunk: &Chunk)
        requires
            old(self).inv(),
            old(self).spec_result_table().spec_epoch() is Some,
            chunk.ops@.len() == chunk.rows@.len(),
            chunk.visibility matches Some(v) ==> v@.len() == chunk.ops@.len(),
            forall|i: int, j: int|
                0 <= i < chunk.rows@.len() && 0 <= j < old(self).spec_group_key_indices().len()
                    ==> (#[trigger] old(self).spec_group_key_indices()[j]) < (
                #[trigger] chunk.rows@[i])@.len(),
            forall|i: int, j: int|
                0 <= i < chunk.rows@.len() && 0 <= j < old(self).spec_input_pk_indices().len()
                    ==> (#[trigger] old(self).spec_input_pk_indices()[j]) < (
                #[trigger] chunk.rows@[i])@.len(),
            forall|i: int, c: int|
                0 <= i < chunk.rows@.len() && 0 <= c < old(self).n_calls() ==> (
                #[trigger] old(self).spec_agg_calls()[c]).arg_col < (
                #[trigger] chunk.rows@[i])@.len(),
            forall|i: int, c: int|
                0 <= i < chunk.rows@.len() && 0 <= c < old(self).n_calls() ==> ((
                #[trigger] old(self).spec_agg_calls()[c]).filter_col matches Some(f) ==> f < (
                #[trigger] chunk.rows@[i])@.len()),
        ensures
            final(self).inv(),
            final(self).spec_agg_calls() == old(self).spec_agg_calls(),
            final(self).spec_group_key_indices() == old(self).spec_group_key_indices(),
            final(self).spec_input_pk_indices() == old(self).spec_input_pk_indices(),
            final(self).spec_row_count_index() == old(self).spec_row_count_index(),
            final(self).spec_chunk_size() == old(self).spec_chunk_size(),
            final(self).spec_emit_on_window_close() == old(self).spec_emit_on_window_close(),
            final(self).spec_window_col_in_group_key() == old(self).spec_window_col_in_group_key(),
            final(self).spec_window_col_idx() == old(self).spec_window_col_idx(),
            final(self).spec_buffer() == old(self).spec_buffer(),
            final(self).spec_buffered_watermarks() == old(self).spec_buffered_watermarks(),
            final(self).spec_window_watermark() == old(self).spec_window_watermark(),
            final(self).spec_result_table() == old(self).spec_result_table(),
            final(self).spec_storages().len() == old(self).spec_storages().len(),
            // no storage commits anywhere in the chunk path
            forall|c: int|
                0 <= c < final(self).spec_storages().len() ==> ((
                #[trigger] final(self).spec_storages()[c])
                    matches AggStateStorage::MaterializedInput(t) ==> (old(self).spec_storages()[c] matches AggStateStorage::MaterializedInput(t0) ==> t
                    .commit_log_view() == t0.commit_log_view() && t.committed_view()
                    == t0.committed_view() && t.spec_epoch() == t0.spec_epoch())),
            // each materialized-input table stages the chunk's key, argument
            // and input-pk columns under its call's filter visibility
            forall|c: int|
                0 <= c < final(self).spec_storages().len() ==> ((
                #[trigger] final(self).spec_storages()[c])
                    matches AggStateStorage::MaterializedInput(t) ==> (old(self).spec_storages()[c] matches AggStateStorage::MaterializedInput(t0) ==> t
                    .staged_view() == t0.staged_view() + crate::state_table::chunk_writes(
                    chunk.ops@,
                    mat_rows_of(
                        chunk.rows@.map_values(|r: Vec<i64>| r@),
                        old(self).spec_group_key_indices(),
                        old(self).spec_agg_calls()[c].arg_col,
                        old(self).spec_input_pk_indices(),
                    ),
                    spec_call_filter(
                        old(self).spec_agg_calls()[c],
                        chunk.rows@.map_values(|r: Vec<i64>| r@),
                        spec_base_vis(chunk),
                    ),
                ))),
            forall|c: int|
                0 <= c < final(self).spec_storages().len() ==> ((
                #[trigger] final(self).spec_storages()[c]) matches AggStateStorage::ResultValue
                    <==> old(self).spec_storages()[c] matches AggStateStorage::ResultValue),
            final(self).spec_cache().spec_cur_epoch() == old(self).spec_cache().spec_cur_epoch(),
            // every group of the chunk is cached, marked changed, and its
            // states are exactly the chunk fold of its pre-chunk states
            spec_chunk_outcome(
                old(self).cache_entries(),
                old(self).spec_agg_calls(),
                old(self).spec_group_key_indices(),
                old(self).spec_input_pk_indices(),
                old(self).spec_storages(),
                old(self).spec_result_table(),
                old(self).group_len(),
                chunk,
                final(self).cache_entries(),
                final(self).change_set_view(),
            ),
            // keys already in the change set stay there
            forall|k: Seq<i64>|
                old(self).change_set_view().contains(k) ==> final(self).change_set_view().contains(k),
    {
        let n = chunk.ops.len();
        let ghost rows_v = chunk.rows@.map_values(|r: Vec<i64>| r@);
        let ghost keys_spec = Seq::new(
            chunk.rows@.len(),
            |i: int| spec_project(chunk.rows@[i]@, old(self).spec_group_key_indices()),
        );
        // the group key of every row
        let mut keys: Vec<Vec<i64>> = Vec::new();
        let mut i: usize = 0;
        while i < n
            invariant
                self == old(self),
                n == chunk.ops@.len() == chunk.rows@.len(),
                0 <= i <= n,
                keys_spec == Seq::new(
                    chunk.rows@.len(),
                    |i2: int| spec_project(chunk.rows@[i2]@, old(self).spec_group_key_indices()),
                ),
                forall|i2: int, j: int|
                    0 <= i2 < chunk.rows@.len() && 0 <= j < old(self).spec_group_key_indices().len() ==> (#[trigger] old(self).spec_group_key_indices()[j]) < (#[trigger] chunk.rows@[i2])@.len(),
                keys@.len() == i,
                forall|i2: int| 0 <= i2 < i ==> (#[trigger] keys@[i2])@ == keys_spec[i2],
            decreases n - i,
        {
            let key = project(&chunk.rows[i], &self.group_key_indices);
            keys.push(key);
            i = i + 1;
        }
        // base visibility of the chunk
        let mut base_vis: Vec<bool> = Vec::new();
        match &chunk.visibility {
            Some(v) => {
                let mut b: usize = 0;
                while b < n
                    invariant
                        self == old(self),
                        chunk.visibility matches Some(v2) && v2@.len() == n,
                        v == (match chunk.visibility {
                            Some(ref v2) => v2,
                            None => v,
                        }),
                        v@.len() == n,
                        0 <= b <= n,
                        base_vis@ == v@.subrange(0, b as int),
                    decreases n - b,
                {
                    base_vis.push(v[b]);
                    proof {
                        assert(base_vis@ =~= v@.subrange(0, b + 1));
                    }
                    b = b + 1;
                }
                proof {
                    assert(base_vis@ =~= spec_base_vis(chunk));
                }
            },
            None => {
                let mut b: usize = 0;
                while b < n
                    invariant
                        self == old(self),
                        0 <= b <= n,
                        base_vis@.len() == b,
                        forall|p: int| 0 <= p < b ==> (#[trigger] base_vis@[p]),
                    decreases n - b,
                {
                    base_vis.push(true);
                    b = b + 1;
                }
                proof {
                    assert(base_vis@ =~= spec_base_vis(chunk));
                }
            },
        }
        let ghost base = spec_base_vis(chunk);
        proof {
            assert(keys@.map_values(|k: Vec<i64>| k@) =~= keys_spec);
            assert(base.len() == n);
            assert(base_vis@ == base);
        }
        let gv = Self::get_group_visibilities(&keys, &base_vis);
        let ghost gk = spec_group_keys(keys_spec, base);
        // hydrate the missing groups
        let mut gkeys: Vec<Vec<i64>> = Vec::new();
        let m = gv.len();
        let mut g: usize = 0;
        while g < m
            invariant
                self == old(self),
                m == gv@.len(),
                0 <= g <= m,
                gv@.map_values(|e: (Vec<i64>, Vec<bool>)| e.0@) == gk,
                gkeys@.len() == g,
                forall|p: int| 0 <= p < g ==> (#[trigger] gkeys@[p])@ == gk[p],
            decreases m - g,
        {
            let key_copy = copy_i64_vec(&gv[g].0);
            gkeys.push(key_copy);
            proof {
                assert(gv@.map_values(|e: (Vec<i64>, Vec<bool>)| e.0@)[g as int] == gk[g as int]);
            }
            g = g + 1;
        }
        proof {
            assert(gkeys@.map_values(|k: Vec<i64>| k@) =~= gk);
            lemma_spec_group_keys_distinct(keys_spec, base);
            assert forall|p: int|
                0 <= p < gkeys@.len() implies (#[trigger] gkeys@[p])@.len() == self.group_len() by {
                lemma_spec_group_keys_elem(keys_spec, base, p);
                let q = choose|q: int|
                    0 <= q < keys_spec.len() && keys_spec[q] == gk[p];
                assert(keys_spec[q].len() == self.spec_group_key_indices().len());
            }
        }
        self.ensure_keys_in_cache(&gkeys);
        // per-call filter visibility over the whole chunk
        let n_calls = self.agg_calls.len();
        let mut call_vis: Vec<Vec<bool>> = Vec::new();
        let mut c: usize = 0;
        while c < n_calls
            invariant
                n == chunk.ops@.len() == chunk.rows@.len(),
                n_calls == self.spec_agg_calls().len(),
                0 <= c <= n_calls,
                base == spec_base_vis(chunk),
                base.len() == n,
                base_vis@ == base,
                rows_v == chunk.rows@.map_values(|r: Vec<i64>| r@),
                forall|i2: int, c2: int|
                    0 <= i2 < chunk.rows@.len() && 0 <= c2 < self.spec_agg_calls().len() ==> ((
                    #[trigger] self.spec_agg_calls()[c2]).filter_col matches Some(f) ==> f < (
                    #[trigger] chunk.rows@[i2])@.len()),
                call_vis@.len() == c,
                forall|c2: int|
                    0 <= c2 < c ==> (#[trigger] call_vis@[c2])@ == spec_call_filter(
                        self.spec_agg_calls()[c2],
                        rows_v,
                        base,
                    ),
            decreases n_calls - c,
        {
            let call = self.agg_calls[c];
            let mut cv: Vec<bool> = Vec::new();
            let mut i2: usize = 0;
            while i2 < n
                invariant
                    n == chunk.ops@.len() == chunk.rows@.len(),
                    0 <= i2 <= n,
                    base_vis@ == base,
                    base.len() == n,
                    rows_v == chunk.rows@.map_values(|r: Vec<i64>| r@),
                    call.filter_col matches Some(f) ==> forall|p: int|
                        0 <= p < chunk.rows@.len() ==> f < (#[trigger] chunk.rows@[p])@.len(),
                    cv@.len() == i2,
                    forall|p: int|
                        0 <= p < i2 ==> (#[trigger] cv@[p]) == spec_call_filter(
                            call,
                            rows_v,
                            base,
                        )[p],
                decreases n - i2,
            {
                let pass = match call.filter_col {
                    Some(f) => {
                        let v = chunk.rows[i2][f];
                        v != 0
                    },
                    None => true,
                };
                cv.push(base_vis[i2] && pass);
                proof {
                    assert(chunk.rows@[i2 as int]@ == rows_v[i2 as int]);
                }
                i2 = i2 + 1;
            }
            call_vis.push(cv);
            proof {
                assert(call_vis@[c as int]@ =~= spec_call_filter(
                    self.spec_agg_calls()[c as int],
                    rows_v,
                    base,
                ));
            }
            c = c + 1;
        }
        proof {
            assert(self.spec_result_table() == old(self).spec_result_table());
        }
        // write the needed columns of the chunk into the materialized-input
        // tables
        let ghost storages_mid = self.spec_storages();
        let ghost cache_mid = self.spec_cache();
        let ghost cs_mid = self.change_set_view();
        let mut c3: usize = 0;
        while c3 < n_calls
            invariant
                self.inv(),
                n == chunk.ops@.len() == chunk.rows@.len(),
                n_calls == self.spec_agg_calls().len() == self.spec_storages().len(),
                0 <= c3 <= n_calls,
                self.spec_result_table() == old(self).spec_result_table(),
                self.spec_result_table().spec_epoch() is Some,
                self.spec_agg_calls() == old(self).spec_agg_calls(),
                self.spec_group_key_indices() == old(self).spec_group_key_indices(),
                self.spec_input_pk_indices() == old(self).spec_input_pk_indices(),
                self.spec_row_count_index() == old(self).spec_row_count_index(),
                self.spec_chunk_size() == old(self).spec_chunk_size(),
                self.spec_emit_on_window_close() == old(self).spec_emit_on_window_close(),
                self.spec_window_col_in_group_key() == old(self).spec_window_col_in_group_key(),
                self.spec_window_col_idx() == old(self).spec_window_col_idx(),
                self.spec_buffer() == old(self).spec_buffer(),
                self.spec_buffered_watermarks() == old(self).spec_buffered_watermarks(),
                self.spec_window_watermark() == old(self).spec_window_watermark(),
                self.spec_cache() == cache_mid,
                self.change_set_view() == cs_mid,
                self.spec_storages().len() == storages_mid.len(),
                forall|c2: int|
                    0 <= c2 < storages_mid.len() ==> ((#[trigger] self.spec_storages()[c2])
                        matches AggStateStorage::ResultValue <==> storages_mid[c2]
                        matches AggStateStorage::ResultValue),
                forall|c2: int|
                    0 <= c2 < storages_mid.len() ==> ((#[trigger] self.spec_storages()[c2])
                        matches AggStateStorage::MaterializedInput(t) ==> (storages_mid[c2]
                        matches AggStateStorage::MaterializedInput(t0) ==> t.commit_log_view()
                        == t0.commit_log_view() && t.committed_view() == t0.committed_view()
                        && t.spec_epoch() == t0.spec_epoch())),
                storages_mid == old(self).spec_storages(),
                rows_v == chunk.rows@.map_values(|r: Vec<i64>| r@),
                base == spec_base_vis(chunk),
                forall|c2: int|
                    0 <= c2 < n_calls ==> (#[trigger] call_vis@[c2])@ == spec_call_filter(
                        self.spec_agg_calls()[c2],
                        rows_v,
                        base,
                    ),
                forall|c2: int|
                    c3 <= c2 < storages_mid.len() ==> (#[trigger] self.spec_storages()[c2])
                        == storages_mid[c2],
                forall|c2: int|
                    0 <= c2 < c3 ==> ((#[trigger] self.spec_storages()[c2])
                        matches AggStateStorage::MaterializedInput(t) ==> (storages_mid[c2]
                        matches AggStateStorage::MaterializedInput(t0) ==> t.staged_view()
                        == t0.staged_view() + crate::state_table::chunk_writes(
                        chunk.ops@,
                        mat_rows_of(
                            rows_v,
                            self.spec_group_key_indices(),
                            self.spec_agg_calls()[c2].arg_col,
                            self.spec_input_pk_indices(),
                        ),
                        spec_call_filter(self.spec_agg_calls()[c2], rows_v, base),
                    ))),
                forall|i2: int, j: int|
                    0 <= i2 < chunk.rows@.len() && 0 <= j < self.spec_group_key_indices().len()
                        ==> (#[trigger] self.spec_group_key_indices()[j]) < (
                    #[trigger] chunk.rows@[i2])@.len(),
                forall|i2: int, j: int|
                    0 <= i2 < chunk.rows@.len() && 0 <= j < self.spec_input_pk_indices().len()
                        ==> (#[trigger] self.spec_input_pk_indices()[j]) < (
                    #[trigger] chunk.rows@[i2])@.len(),
                forall|i2: int, c2: int|
                    0 <= i2 < chunk.rows@.len() && 0 <= c2 < self.n_calls() ==> (
                    #[trigger] self.spec_agg_calls()[c2]).arg_col < (
                    #[trigger] chunk.rows@[i2])@.len(),
                call_vis@.len() == n_calls,
                forall|c2: int| 0 <= c2 < n_calls ==> (#[trigger] call_vis@[c2])@.len() == n,
            decreases n_calls - c3,
        {
            let is_mat = match &self.storages[c3] {
                AggStateStorage::MaterializedInput(_) => true,
                AggStateStorage::ResultValue => false,
            };
            if is_mat {
                // rows of the state table: group key ++ argument ++ input pk
                let arg_col = self.agg_calls[c3].arg_col;
                let mut prows: Vec<Vec<i64>> = Vec::new();
                let mut i3: usize = 0;
                while i3 < n
                    invariant
                        n == chunk.ops@.len() == chunk.rows@.len(),
                        0 <= i3 <= n,
                        0 <= c3 < n_calls,
                        n_calls == self.spec_agg_calls().len(),
                        arg_col == self.spec_agg_calls()[c3 as int].arg_col,
                        forall|i4: int, j: int|
                            0 <= i4 < chunk.rows@.len() && 0 <= j < self.spec_group_key_indices().len()
                                ==> (#[trigger] self.spec_group_key_indices()[j]) < (
                            #[trigger] chunk.rows@[i4])@.len(),
                        forall|i4: int, j: int|
                            0 <= i4 < chunk.rows@.len() && 0 <= j < self.spec_input_pk_indices().len()
                                ==> (#[trigger] self.spec_input_pk_indices()[j]) < (
                            #[trigger] chunk.rows@[i4])@.len(),
                        forall|i4: int, c2: int|
                            0 <= i4 < chunk.rows@.len() && 0 <= c2 < self.n_calls() ==> (
                            #[trigger] self.spec_agg_calls()[c2]).arg_col < (
                            #[trigger] chunk.rows@[i4])@.len(),
                        rows_v == chunk.rows@.map_values(|r: Vec<i64>| r@),
                        prows@.len() == i3,
                        forall|p: int|
                            0 <= p < i3 ==> (#[trigger] prows@[p])@.len() == self.group_len() + 1
                                + self.spec_input_pk_indices().len(),
                        forall|p: int|
                            0 <= p < i3 ==> (#[trigger] prows@[p])@ == mat_rows_of(
                                rows_v,
                                self.spec_group_key_indices(),
                                self.spec_agg_calls()[c3 as int].arg_col,
                                self.spec_input_pk_indices(),
                            )[p],
                    decreases n - i3,
                {
                    proof {
                        assert forall|j: int|
                            0 <= j < self.group_key_indices@.len() implies (
                        #[trigger] self.group_key_indices@[j]) < chunk.rows@[i3 as int]@.len() by {
                            assert(self.spec_group_key_indices()[j]
                                < (#[trigger] chunk.rows@[i3 as int])@.len());
                        }
                        assert forall|j: int|
                            0 <= j < self.input_pk_indices@.len() implies (
                        #[trigger] self.input_pk_indices@[j]) < chunk.rows@[i3 as int]@.len() by {
                            assert(self.spec_input_pk_indices()[j]
                                < (#[trigger] chunk.rows@[i3 as int])@.len());
                        }
                        assert(self.spec_agg_calls()[c3 as int].arg_col < (
                        #[trigger] chunk.rows@[i3 as int])@.len());
                    }
                    let mut prow = project(&chunk.rows[i3], &self.group_key_indices);
                    prow.push(chunk.rows[i3][arg_col]);
                    let pk = project(&chunk.rows[i3], &self.input_pk_indices);
                    let ghost head = prow@;
                    let mut q: usize = 0;
                    let pk_len = pk.len();
                    while q < pk_len
                        invariant
                            0 <= q <= pk_len,
                            pk_len == pk@.len(),
                            prow@.len() == self.group_len() + 1 + q,
                            prow@ == head + pk@.subrange(0, q as int),
                        decreases pk_len - q,
                    {
                        prow.push(pk[q]);
                        proof {
                            assert(prow@ =~= head + pk@.subrange(0, q + 1));
                        }
                        q = q + 1;
                    }
                    proof {
                        assert(chunk.rows@[i3 as int]@ == rows_v[i3 as int]);
                        assert(prow@ =~= mat_rows_of(
                            rows_v,
                            self.spec_group_key_indices(),
                            self.spec_agg_calls()[c3 as int].arg_col,
                            self.spec_input_pk_indices(),
                        )[i3 as int]);
                    }
                    prows.push(prow);
                    i3 = i3 + 1;
                }
                let ghost st_before = self.spec_storages();
                let st = self.storages.remove(c3);
                match st {
                    AggStateStorage::MaterializedInput(mut t) => {
                        proof {
                            assert forall|p: int|
                                0 <= p < prows@.len() implies t.row_wf((
                            #[trigger] prows@[p])@) by {
                                assert(prows@[p]@.len() == self.group_len() + 1
                                    + self.spec_input_pk_indices().len());
                            }
                        }
                        t.write_chunk(&chunk.ops, &prows, &call_vis[c3]);
                        self.storages.insert(c3, AggStateStorage::MaterializedInput(t));
                    },
                    AggStateStorage::ResultValue => {
                        proof {
                            assert(false);
                        }
                        self.storages.insert(c3, st);
                    },
                }
                proof {
                    assert(self.spec_storages() =~= st_before.update(
                        c3 as int,
                        self.spec_storages()[c3 as int],
                    ));
                    assert(prows@.map_values(|r: Vec<i64>| r@) =~= mat_rows_of(
                        rows_v,
                        self.spec_group_key_indices(),
                        self.spec_agg_calls()[c3 as int].arg_col,
                        self.spec_input_pk_indices(),
                    ));
                    let stor = self.spec_storages();
                    // the new staged rows keep the table row width
                    match stor[c3 as int] {
                        AggStateStorage::MaterializedInput(t2) => {
                            match st_before[c3 as int] {
                                AggStateStorage::MaterializedInput(t1) => {
                                    assert forall|i4: int|
                                        0 <= i4 < t2.staged_view().len() implies (
                                    #[trigger] t2.staged_view()[i4]).1.len() == self.group_len()
                                        + 1 + self.spec_input_pk_indices().len() by {
                                        if i4 < t1.staged_view().len() {
                                            assert(t2.staged_view()[i4]
                                                == t1.staged_view()[i4]);
                                        } else {
                                            crate::state_table::lemma_chunk_writes_elem(
                                                chunk.ops@,
                                                prows@.map_values(|r: Vec<i64>| r@),
                                                call_vis@[c3 as int]@,
                                                i4 - t1.staged_view().len(),
                                            );
                                            let q = choose|q: int|
                                                0 <= q < prows@.len()
                                                    && crate::state_table::chunk_writes(
                                                    chunk.ops@,
                                                    prows@.map_values(|r: Vec<i64>| r@),
                                                    call_vis@[c3 as int]@,
                                                )[i4 - t1.staged_view().len()].1 == (
                                                #[trigger] prows@[q])@;
                                            assert(prows@[q]@.len() == self.group_len() + 1
                                                + self.spec_input_pk_indices().len());
                                        }
                                    }
                                },
                                AggStateStorage::ResultValue => {
                                    assert(false);
                                },
                            }
                        },
                        AggStateStorage::ResultValue => {
                            assert(false);
                        },
                    }
                    assert forall|c2: int|
                        0 <= c2 < storages_mid.len() implies ((#[trigger] stor[c2])
                            matches AggStateStorage::ResultValue <==> storages_mid[c2]
                            matches AggStateStorage::ResultValue) by {
                        if c2 != c3 {
                            assert(stor[c2] == st_before[c2]);
                        }
                    }
                    assert forall|c2: int|
                        0 <= c2 < storages_mid.len() implies ((#[trigger] stor[c2])
                            matches AggStateStorage::MaterializedInput(t) ==> (storages_mid[c2]
                            matches AggStateStorage::MaterializedInput(t0)
                            ==> t.commit_log_view() == t0.commit_log_view()
                            && t.committed_view() == t0.committed_view() && t.spec_epoch()
                            == t0.spec_epoch())) by {
                        if c2 != c3 {
                            assert(stor[c2] == st_before[c2]);
                        }
                    }
                    assert(storages_ok(
                        stor,
                        self.spec_result_table().spec_epoch(),
                        self.group_len() + 1 + self.spec_input_pk_indices().len(),
                    )) by {
                        assert forall|c2: int|
                            0 <= c2 < stor.len() implies ((#[trigger] stor[c2])
                                matches AggStateStorage::MaterializedInput(t) ==> t.inv()
                                && t.spec_epoch() == self.spec_result_table().spec_epoch() && (
                            forall|i4: int|
                                0 <= i4 < t.committed_view().len() ==> (
                                #[trigger] t.committed_view()[i4]).1.len() == self.group_len() + 1
                                    + self.spec_input_pk_indices().len()) && (forall|i4: int|
                                0 <= i4 < t.staged_view().len() ==> (
                                #[trigger] t.staged_view()[i4]).1.len() == self.group_len() + 1
                                    + self.spec_input_pk_indices().len()) && (forall|j: int|
                                0 <= j < t.spec_pk_indices().len() ==> (
                                #[trigger] t.spec_pk_indices()[j]) < self.group_len() + 1
                                    + self.spec_input_pk_indices().len())) by {
                            if c2 != c3 {
                                assert(stor[c2] == st_before[c2]);
                            }
                        }
                    }
                }
            }
            c3 = c3 + 1;
        }
        // apply the chunk to every touched group and mark it changed
        let ghost entries_mid = self.cache_entries();
        let ghost storages_now = self.spec_storages();
        let ghost cs_start = self.change_set_view();
        let mut g2: usize = 0;
        while g2 < m
            invariant
                self.inv(),
                n == chunk.ops@.len() == chunk.rows@.len(),
                m == gv@.len(),
                0 <= g2 <= m,
                n_calls == self.spec_agg_calls().len(),
                rows_v == chunk.rows@.map_values(|r: Vec<i64>| r@),
                base == spec_base_vis(chunk),
                base.len() == n,
                keys_spec.len() == n,
                gk == spec_group_keys(keys_spec, base),
                gv@.map_values(|e: (Vec<i64>, Vec<bool>)| e.0@) == gk,
                forall|g3: int|
                    0 <= g3 < m ==> (#[trigger] gv@[g3].1@) == spec_group_bitmap(
                        keys_spec,
                        base,
                        gv@[g3].0@,
                    ),
                forall|p: int, q: int| 0 <= p < q < gk.len() ==> gk[p] != gk[q],
                call_vis@.len() == n_calls,
                forall|c2: int| 0 <= c2 < n_calls ==> (#[trigger] call_vis@[c2])@.len() == n,
                forall|c2: int|
                    0 <= c2 < n_calls ==> (#[trigger] call_vis@[c2])@ == spec_call_filter(
                        self.spec_agg_calls()[c2],
                        rows_v,
                        base,
                    ),
                self.spec_result_table() == old(self).spec_result_table(),
                self.spec_result_table().spec_epoch() is Some,
                self.spec_agg_calls() == old(self).spec_agg_calls(),
                self.spec_group_key_indices() == old(self).spec_group_key_indices(),
                self.spec_input_pk_indices() == old(self).spec_input_pk_indices(),
                self.spec_row_count_index() == old(self).spec_row_count_index(),
                self.spec_chunk_size() == old(self).spec_chunk_size(),
                self.spec_emit_on_window_close() == old(self).spec_emit_on_window_close(),
                self.spec_window_col_in_group_key() == old(self).spec_window_col_in_group_key(),
                self.spec_window_col_idx() == old(self).spec_window_col_idx(),
                self.spec_buffer() == old(self).spec_buffer(),
                self.spec_buffered_watermarks() == old(self).spec_buffered_watermarks(),
                self.spec_window_watermark() == old(self).spec_window_watermark(),
                self.spec_storages() == storages_now,
                self.spec_cache().spec_cur_epoch() == cache_mid.spec_cur_epoch(),
                forall|i2: int, j: int|
                    0 <= i2 < chunk.rows@.len() && 0 <= j < self.spec_input_pk_indices().len()
                        ==> (#[trigger] self.spec_input_pk_indices()[j]) < (
                    #[trigger] chunk.rows@[i2])@.len(),
                forall|i2: int, c2: int|
                    0 <= i2 < chunk.rows@.len() && 0 <= c2 < self.n_calls() ==> (
                    #[trigger] self.spec_agg_calls()[c2]).arg_col < (
                    #[trigger] chunk.rows@[i2])@.len(),
                forall|k: Seq<i64>| #[trigger]
                    k_has(entries_mid, k) ==> k_has(self.cache_entries(), k),
                forall|k: Seq<i64>| #[trigger]
                    k_has(self.cache_entries(), k) ==> k_has(entries_mid, k),
                forall|k: Seq<i64>| #[trigger]
                    k_has(entries_mid, k) && !gk.subrange(0, g2 as int).contains(k) ==> cache_val(
                        self.cache_entries(),
                        k,
                    ) == cache_val(entries_mid, k),
                forall|p: int|
                    0 <= p < g2 ==> cache_val(self.cache_entries(), #[trigger] gk[p]).states_view()
                        == crate::agg::apply_rows_up_to(
                        cache_val(entries_mid, gk[p]).states_view(),
                        self.spec_agg_calls(),
                        self.spec_input_pk_indices(),
                        chunk.ops@,
                        rows_v,
                        spec_group_call_vis(self.spec_agg_calls(), keys_spec, rows_v, base, gk[p]),
                        n as int,
                    ) && cache_val(self.cache_entries(), gk[p]).spec_prev_output() == cache_val(
                        entries_mid,
                        gk[p],
                    ).spec_prev_output(),
                forall|p: int| 0 <= p < gk.len() ==> k_has(entries_mid, #[trigger] gk[p]),
                forall|p: int|
                    0 <= p < g2 ==> self.change_set_view().contains(#[trigger] gk[p]),
                forall|k: Seq<i64>|
                    cs_start.contains(k) ==> #[trigger] self.change_set_view().contains(k),
            decreases m - g2,
        {
            proof {
                assert(gv@[g2 as int].1@ == spec_group_bitmap(keys_spec, base, gv@[g2 as int].0@));
                assert(gv@[g2 as int].1@.len() == n);
            }
            // this group's per-call visibility: call filter and group bitmap
            let mut gvis: Vec<Vec<bool>> = Vec::new();
            let mut c4: usize = 0;
            while c4 < n_calls
                invariant
                    0 <= c4 <= n_calls,
                    0 <= g2 < m,
                    m == gv@.len(),
                    n_calls == call_vis@.len(),
                    forall|c2: int| 0 <= c2 < n_calls ==> (#[trigger] call_vis@[c2])@.len() == n,
                    gv@[g2 as int].1@.len() == n,
                    gvis@.len() == c4,
                    forall|c2: int|
                        0 <= c2 < c4 ==> (#[trigger] gvis@[c2])@.len() == n,
                    forall|c2: int, p: int|
                        0 <= c2 < c4 && 0 <= p < n ==> (#[trigger] gvis@[c2]@[p]) == (
                        call_vis@[c2]@[p] && gv@[g2 as int].1@[p]),
                decreases n_calls - c4,
            {
                let mut col: Vec<bool> = Vec::new();
                let mut p: usize = 0;
                while p < n
                    invariant
                        0 <= p <= n,
                        0 <= c4 < n_calls,
                        0 <= g2 < m,
                        m == gv@.len(),
                        n_calls == call_vis@.len(),
                        call_vis@[c4 as int]@.len() == n,
                        gv@[g2 as int].1@.len() == n,
                        col@.len() == p,
                        forall|p2: int|
                            0 <= p2 < p ==> (#[trigger] col@[p2]) == (call_vis@[c4 as int]@[p2]
                                && gv@[g2 as int].1@[p2]),
                    decreases n - p,
                {
                    col.push(call_vis[c4][p] && gv[g2].1[p]);
                    p = p + 1;
                }
                gvis.push(col);
                c4 = c4 + 1;
            }
            let ghost ki = gv@[g2 as int].0@;
            proof {
                assert(ki == gk[g2 as int]);
                assert(k_has(entries_mid, ki));
                assert(!gk.subrange(0, g2 as int).contains(ki)) by {
                    if gk.subrange(0, g2 as int).contains(ki) {
                        let p = choose|p: int|
                            0 <= p < g2 && gk.subrange(0, g2 as int)[p] == ki;
                        assert(gk[p] == gk[g2 as int]);
                    }
                }
                assert(k_has(self.cache_entries(), ki));
            }
            let ghost entries_step = self.cache_entries();
            let grp_opt = self.cache.take(&gv[g2].0);
            let mut grp = match grp_opt {
                Some(grp) => grp,
                None => {
                    proof {
                        assert(false);
                    }
                    return ;
                },
            };
            proof {
                assert(grp == cache_val(entries_step, ki));
                assert(grp == cache_val(entries_mid, ki));
                assert(grp.inv() && grp.states_view().len() == n_calls) by {
                    let idx = k_index(entries_step, ki);
                    assert(entries_step[idx].1 == grp);
                }
            }
            grp.apply_chunk(&self.agg_calls, &self.input_pk_indices, &chunk.ops, &chunk.rows, &gvis);
            let key_back = copy_i64_vec(&gv[g2].0);
            let ghost grp2 = grp;
            self.cache.put(key_back, grp);
            proof {
                let idx = k_index(entries_step, ki);
                lemma_replace_preserves(entries_step, idx, grp2, self.spec_cache().spec_cur_epoch());
                assert(self.cache_entries() == entries_step.remove(idx).push(
                    (ki, grp2, self.spec_cache().spec_cur_epoch()),
                ));
                // the fold this group went through is exactly the spec fold
                assert(gvis@.map_values(|v: Vec<bool>| v@) =~= spec_group_call_vis(
                    self.spec_agg_calls(),
                    keys_spec,
                    rows_v,
                    base,
                    ki,
                )) by {
                    assert forall|c2: int|
                        0 <= c2 < n_calls implies #[trigger] spec_group_call_vis(
                        self.spec_agg_calls(),
                        keys_spec,
                        rows_v,
                        base,
                        ki,
                    )[c2] =~= gvis@.map_values(|v: Vec<bool>| v@)[c2] by {
                        assert(gvis@[c2]@.len() == n);
                    }
                }
                assert(cache_val(self.cache_entries(), ki) == grp2);
                assert(one_group_wf(
                    ki,
                    grp2,
                    self.n_calls(),
                    self.group_len(),
                    self.spec_row_count_index(),
                )) by {
                    assert(one_group_wf(ki, cache_val(entries_step, ki), self.n_calls(),
                    self.group_len(), self.spec_row_count_index())) by {
                        assert(entries_step[k_index(entries_step, ki)].1 == cache_val(
                            entries_step,
                            ki,
                        ));
                    }
                    crate::agg::lemma_apply_rows_len(
                        cache_val(entries_step, ki).states_view(),
                        self.spec_agg_calls(),
                        self.spec_input_pk_indices(),
                        chunk.ops@,
                        rows_v,
                        gvis@.map_values(|v: Vec<bool>| v@),
                        n as int,
                    );
                }
                // well-formedness of every entry after the replacement
                assert forall|j: int|
                    0 <= j < self.cache_entries().len() implies one_group_wf(
                    (#[trigger] self.cache_entries()[j]).0,
                    self.cache_entries()[j].1,
                    self.n_calls(),
                    self.group_len(),
                    self.spec_row_count_index(),
                ) by {
                    let cur = self.cache_entries();
                    if j == cur.len() - 1 {
                        assert(entries_step[idx].0 == ki);
                        assert(one_group_wf(ki, cache_val(entries_step, ki), self.n_calls(),
                        self.group_len(), self.spec_row_count_index()));
                    } else {
                        let j0 = if j < idx {
                            j
                        } else {
                            j + 1
                        };
                        assert(cur[j] == entries_step[j0]);
                    }
                }
                assert forall|p: int|
                    0 <= p < self.change_set_view().len() implies k_has(
                    self.cache_entries(),
                    #[trigger] self.change_set_view()[p],
                ) by {
                    assert(k_has(entries_step, self.change_set_view()[p]));
                }
            }
            // mark the group changed
            let ghost cs_iter = self.change_set_view();
            let cs_len = self.change_set.len();
            let mut present = false;
            let mut p2: usize = 0;
            while p2 < cs_len
                invariant
                    cs_len == self.change_set_view().len(),
                    0 <= p2 <= cs_len,
                    0 <= g2 < m,
                    m == gv@.len(),
                    ki == gv@[g2 as int].0@,
                    present ==> self.change_set_view().contains(ki),
                    !present ==> forall|p3: int|
                        0 <= p3 < p2 ==> (#[trigger] self.change_set_view()[p3]) != ki,
                decreases cs_len - p2,
            {
                if !present && keys_equal(&self.change_set[p2], &gv[g2].0) {
                    proof {
                        assert(self.change_set_view()[p2 as int] == ki);
                    }
                    present = true;
                }
                p2 = p2 + 1;
            }
            if !present {
                let ghost cs_before = self.change_set_view();
                let key_cs = copy_i64_vec(&gv[g2].0);
                self.change_set.push(key_cs);
                proof {
                    assert(self.change_set_view() =~= cs_before.push(ki));
                    assert forall|p3: int, q3: int|
                        0 <= p3 < q3 < self.change_set_view().len() implies (
                    #[trigger] self.change_set_view()[p3]) != (
                    #[trigger] self.change_set_view()[q3]) by {
                        if q3 == self.change_set_view().len() - 1 {
                            assert(cs_before[p3] != ki);
                        } else {
                            assert(cs_before[p3] != cs_before[q3]);
                        }
                    }
                    assert forall|p3: int|
                        0 <= p3 < self.change_set_view().len() implies k_has(
                        self.cache_entries(),
                        #[trigger] self.change_set_view()[p3],
                    ) by {
                        if p3 < cs_before.len() {
                            assert(k_has(self.cache_entries(), cs_before[p3]));
                        } else {
                            assert(k_has(self.cache_entries(), ki));
                        }
                    }
                    assert(self.change_set_view().contains(ki)) by {
                        assert(self.change_set_view()[self.change_set_view().len() - 1] == ki);
                    }
                }
            }
            proof {
                assert(self.change_set_view().contains(ki));
                assert(self.change_set_view() == cs_iter || self.change_set_view()
                    == cs_iter.push(ki));
                assert forall|k2: Seq<i64>|
                    cs_iter.contains(k2) implies #[trigger] self.change_set_view().contains(
                    k2,
                ) by {
                    let idx = choose|idx: int| 0 <= idx < cs_iter.len() && cs_iter[idx] == k2;
                    assert(self.change_set_view()[idx] == k2);
                }
                assert forall|p: int|
                    0 <= p < g2 + 1 implies self.change_set_view().contains(
                    #[trigger] gk[p]) by {
                    if p < g2 {
                        assert(cs_iter.contains(gk[p]));
                    }
                }
                assert forall|k2: Seq<i64>|
                    cs_start.contains(k2) implies #[trigger] self.change_set_view().contains(
                    k2,
                ) by {
                    assert(cs_iter.contains(k2));
                }
                assert forall|k: Seq<i64>| #[trigger]
                    k_has(entries_mid, k) && !gk.subrange(0, g2 + 1).contains(k)
                        implies cache_val(self.cache_entries(), k) == cache_val(
                        entries_mid,
                        k,
                    ) by {
                    assert(!gk.subrange(0, g2 as int).contains(k)) by {
                        if gk.subrange(0, g2 as int).contains(k) {
                            let p = choose|p: int|
                                0 <= p < g2 && gk.subrange(0, g2 as int)[p] == k;
                            assert(gk.subrange(0, g2 + 1)[p] == k);
                        }
                    }
                    assert(k != ki) by {
                        assert(gk.subrange(0, g2 + 1)[g2 as int] == ki);
                    }
                    assert(cache_val(entries_step, k) == cache_val(entries_mid, k));
                }
                assert forall|p: int|
                    0 <= p < g2 + 1 implies cache_val(self.cache_entries(), #[trigger] gk[p])
                        .states_view() == crate::agg::apply_rows_up_to(
                        cache_val(entries_mid, gk[p]).states_view(),
                        self.spec_agg_calls(),
                        self.spec_input_pk_indices(),
                        chunk.ops@,
                        rows_v,
                        spec_group_call_vis(self.spec_agg_calls(), keys_spec, rows_v, base, gk[p]),
                        n as int,
                    ) && cache_val(self.cache_entries(), gk[p]).spec_prev_output() == cache_val(
                        entries_mid,
                        gk[p],
                    ).spec_prev_output() by {
                    if p < g2 {
                        assert(gk[p] != ki);
                        assert(cache_val(self.cache_entries(), gk[p]) == cache_val(
                            entries_step,
                            gk[p],
                        ));
                    } else {
                        assert(cache_val(self.cache_entries(), ki) == grp2);
                    }
                }
            }
            g2 = g2 + 1;
        }
        proof {
            assert(gk.subrange(0, m as int) =~= gk);
            assert forall|g3: int|
                0 <= g3 < gk.len() implies k_has(final(self).cache_entries(), #[trigger] gk[g3])
                    && final(self).change_set_view().contains(gk[g3]) && cache_val(
                    final(self).cache_entries(),
                    gk[g3],
                ).states_view() == crate::agg::apply_rows_up_to(
                    pre_chunk_states(
                        old(self).cache_entries(),
                        gk[g3],
                        old(self).spec_agg_calls(),
                        old(self).spec_storages(),
                        old(self).spec_result_table(),
                        old(self).group_len(),
                    ),
                    old(self).spec_agg_calls(),
                    old(self).spec_input_pk_indices(),
                    chunk.ops@,
                    rows_v,
                    spec_group_call_vis(
                        old(self).spec_agg_calls(),
                        keys_spec,
                        rows_v,
                        base,
                        gk[g3],
                    ),
                    n as int,
                ) by {
                assert(gkeys@[g3]@ == gk[g3]);
                if k_has(old(self).cache_entries(), gk[g3]) {
                    assert(cache_val(entries_mid, gk[g3]) == cache_val(
                        old(self).cache_entries(),
                        gk[g3],
                    ));
                    assert(pre_chunk_states(
                        old(self).cache_entries(),
                        gk[g3],
                        old(self).spec_agg_calls(),
                        old(self).spec_storages(),
                        old(self).spec_result_table(),
                        old(self).group_len(),
                    ) == cache_val(entries_mid, gk[g3]).states_view());
                } else {
                    let hv = cache_val(entries_mid, gk[g3]);
                    assert(crate::agg::is_hydrated_group(
                        &hv,
                        gk[g3],
                        old(self).spec_agg_calls(),
                        old(self).spec_storages(),
                        old(self).spec_result_table(),
                        old(self).spec_row_count_index(),
                    ));
                    assert(hv.states_view() =~= pre_chunk_states(
                        old(self).cache_entries(),
                        gk[g3],
                        old(self).spec_agg_calls(),
                        old(self).spec_storages(),
                        old(self).spec_result_table(),
                        old(self).group_len(),
                    ));
                }
            }
        }
    }
}

/// The group keys of a chunk are distinct.
pub proof fn lemma_spec_group_keys_distinct(keys: Seq<Seq<i64>>, vis: Seq<bool>)
    ensures
        forall|p: int, q: int|
            0 <= p < q < spec_group_keys(keys, vis).len() ==> (
            #[trigger] spec_group_keys(keys, vis)[p]) != (#[trigger] spec_group_keys(keys, vis)[q]),
    decreases keys.len(),
{
    if keys.len() > 0 {
        lemma_spec_group_keys_distinct(keys.drop_last(), vis.drop_last());
        let rest = spec_group_keys(keys.drop_last(), vis.drop_last());
        let whole = spec_group_keys(keys, vis);
        if vis.last() && !rest.contains(keys.last()) {
            assert forall|p: int, q: int|
                0 <= p < q < whole.len() implies (#[trigger] whole[p]) != (
            #[trigger] whole[q]) by {
                if q == whole.len() - 1 {
                    if whole[p] == keys.last() {
                        assert(rest[p] == keys.last());
                        assert(rest.contains(keys.last()));
                    }
                } else {
                    assert(whole[p] == rest[p] && whole[q] == rest[q]);
                }
            }
        }
    }
}

/// Every group key of a chunk is the key of some row.
pub proof fn lemma_spec_group_keys_elem(keys: Seq<Seq<i64>>, vis: Seq<bool>, p: int)
    requires
        0 <= p < spec_group_keys(keys, vis).len(),
    ensures
        exists|q: int| 0 <= q < keys.len() && (#[trigger] keys[q]) == spec_group_keys(keys, vis)[p],
    decreases keys.len(),
{
    if keys.len() > 0 {
        let rest = spec_group_keys(keys.drop_last(), vis.drop_last());
        if p < rest.len() {
            lemma_spec_group_keys_elem(keys.drop_last(), vis.drop_last(), p);
            let q = choose|q: int|
                0 <= q < keys.drop_last().len() && (#[trigger] keys.drop_last()[q]) == rest[p];
            assert(keys[q] == spec_group_keys(keys, vis)[p]);
        } else {
            assert(keys[keys.len() - 1] == spec_group_keys(keys, vis)[p]);
        }
    }
}

} // verus!

verus! {

/// The records one group emits on a barrier, given its state at flush time:
/// a retraction when its row count dropped to zero, an insert for a first
/// output, an update pair for a changed output, nothing otherwise.
pub open spec fn change_records(
    key: Seq<i64>,
    g: AggGroup,
    calls: Seq<AggCall>,
) -> Seq<(Op, Seq<i64>)> {
    let rc = clamp_i64(g.states_view()[g.spec_row_count_index() as int].0);
    let curr = key + outputs_of(g.states_view(), calls);
    if rc <= 0 {
        match g.spec_prev_output() {
            Some(prev) => seq![(Op::Delete, prev)],
            None => Seq::empty(),
        }
    } else {
        match g.spec_prev_output() {
            None => seq![(Op::Insert, curr)],
            Some(prev) => if prev == curr {
                Seq::empty()
            } else {
                seq![(Op::UpdateDelete, prev), (Op::UpdateInsert, curr)]
            },
        }
    }
}

/// The records of the first `j` changed groups, in change-set order.
pub open spec fn emitted_records_upto(
    entries: Seq<crate::cache::CacheEntryView<AggGroup>>,
    csv: Seq<Seq<i64>>,
    calls: Seq<AggCall>,
    j: int,
) -> Seq<(Op, Seq<i64>)>
    decreases j,
{
    if j <= 0 {
        Seq::empty()
    } else {
        emitted_records_upto(entries, csv, calls, j - 1) + change_records(
            csv[j - 1],
            cache_val(entries, csv[j - 1]),
            calls,
        )
    }
}

/// The records of a sequence of chunks, flattened in order.
pub open spec fn chunk_records(c: Chunk) -> Seq<(Op, Seq<i64>)> {
    Seq::new(c.ops@.len(), |i: int| (c.ops@[i], c.rows@[i]@))
}

pub open spec fn chunks_records(chunks: Seq<Chunk>) -> Seq<(Op, Seq<i64>)>
    decreases chunks.len(),
{
    if chunks.len() == 0 {
        Seq::empty()
    } else {
        chunks_records(chunks.drop_last()) + chunk_records(chunks.last())
    }
}

/// Every write the barrier flush stages on the result table: the changed
/// groups' records and, under emit-on-window-close with a watermark, the
/// deletes of the released rows.
pub open spec fn flush_staged_records(pre: HashAggExecutor) -> Seq<(Op, Seq<i64>)> {
    let recs = emitted_records_upto(
        pre.cache_entries(),
        pre.change_set_view(),
        pre.spec_agg_calls(),
        pre.change_set_view().len() as int,
    );
    if !pre.spec_emit_on_window_close() {
        recs
    } else {
        let b1 = buffer_after_records(
            pre.spec_buffer().buffer_view(),
            recs,
            pre.spec_window_col_in_group_key() as int,
        );
        match pre.spec_window_watermark() {
            Some(w) => recs + b1.subrange(0, crate::sort_buffer::first_gt(b1, w)).map_values(
                (|e: (i64, Seq<i64>)| (Op::Delete, e.1)),
            ),
            None => recs,
        }
    }
}

/// One record folded into the emit-on-window-close buffer: an insert files
/// the row under its window value, a delete removes the first equal row.
pub open spec fn buffer_one_record(
    b: Seq<(i64, Seq<i64>)>,
    op: Op,
    row: Seq<i64>,
    wcol: int,
) -> Seq<(i64, Seq<i64>)> {
    if crate::state_table::op_is_insert(op) {
        b.insert(crate::sort_buffer::first_gt(b, row[wcol]), (row[wcol], row))
    } else {
        if exists|i: int| 0 <= i < b.len() && (#[trigger] b[i]).1 == row {
            b.remove(crate::sort_buffer::row_index(b, row))
        } else {
            b
        }
    }
}

/// A record sequence folded into the buffer, in order.
pub open spec fn buffer_after_records(
    b: Seq<(i64, Seq<i64>)>,
    recs: Seq<(Op, Seq<i64>)>,
    wcol: int,
) -> Seq<(i64, Seq<i64>)>
    decreases recs.len(),
{
    if recs.len() == 0 {
        b
    } else {
        buffer_after_records(
            buffer_one_record(b, recs[0].0, recs[0].1, wcol),
            recs.subrange(1, recs.len() as int),
            wcol,
        )
    }
}

/// Folding a concatenation folds the parts in order.
pub proof fn lemma_buffer_after_concat(
    b: Seq<(i64, Seq<i64>)>,
    r1: Seq<(Op, Seq<i64>)>,
    r2: Seq<(Op, Seq<i64>)>,
    wcol: int,
)
    ensures
        buffer_after_records(b, r1 + r2, wcol) == buffer_after_records(
            buffer_after_records(b, r1, wcol),
            r2,
            wcol,
        ),
    decreases r1.len(),
{
    if r1.len() == 0 {
        assert(r1 + r2 =~= r2);
    } else {
        let b1 = buffer_one_record(b, r1[0].0, r1[0].1, wcol);
        assert((r1 + r2).subrange(1, (r1 + r2).len() as int) =~= r1.subrange(
            1,
            r1.len() as int,
        ) + r2);
        assert((r1 + r2)[0] == r1[0]);
        lemma_buffer_after_concat(b1, r1.subrange(1, r1.len() as int), r2, wcol);
    }
}

/// Folding records whose rows have `len` columns into a buffer whose rows
/// have `len` columns keeps every row at `len` columns.
pub proof fn lemma_buffer_after_rows_ok(
    b: Seq<(i64, Seq<i64>)>,
    recs: Seq<(Op, Seq<i64>)>,
    wcol: int,
    len: int,
)
    requires
        buffer_rows_ok(b, len),
        forall|p: int| 0 <= p < recs.len() ==> (#[trigger] recs[p]).1.len() == len,
    ensures
        buffer_rows_ok(buffer_after_records(b, recs, wcol), len),
    decreases recs.len(),
{
    if recs.len() > 0 {
        let b1 = buffer_one_record(b, recs[0].0, recs[0].1, wcol);
        assert(buffer_rows_ok(b1, len)) by {
            if crate::state_table::op_is_insert(recs[0].0) {
                let at = crate::sort_buffer::first_gt(b, recs[0].1[wcol]);
                crate::sort_buffer::lemma_first_gt_bounds(b, recs[0].1[wcol]);
                assert forall|p: int| 0 <= p < b1.len() implies (#[trigger] b1[p]).1.len()
                    == len by {
                    if p < at {
                        assert(b1[p] == b[p]);
                    } else if p == at {
                    } else {
                        assert(b1[p] == b[p - 1]);
                    }
                }
            } else {
                if exists|i: int| 0 <= i < b.len() && (#[trigger] b[i]).1 == recs[0].1 {
                    let at = crate::sort_buffer::row_index(b, recs[0].1);
                    let w = choose|i: int| 0 <= i < b.len() && (#[trigger] b[i]).1 == recs[0].1;
                    crate::sort_buffer::lemma_row_index(b, recs[0].1, w);
                    assert forall|p: int| 0 <= p < b1.len() implies (#[trigger] b1[p]).1.len()
                        == len by {
                        let p0 = if p < at {
                            p
                        } else {
                            p + 1
                        };
                        assert(b1[p] == b[p0]);
                    }
                }
            }
        }
        assert forall|p: int|
            0 <= p < recs.subrange(1, recs.len() as int).len() implies (#[trigger] recs.subrange(
            1,
            recs.len() as int,
        )[p]).1.len() == len by {
            assert(recs.subrange(1, recs.len() as int)[p] == recs[p + 1]);
        }
        lemma_buffer_after_rows_ok(b1, recs.subrange(1, recs.len() as int), wcol, len);
    }
}

/// Identity on integers, used only as a quantifier trigger.
pub open spec fn trig_int(p: int) -> int {
    p
}

/// Eviction leaves a suffix of the entries.
pub proof fn lemma_evict_is_suffix<V>(s: crate::cache::CacheStateView<V>, limit: int, cap: int)
    ensures
        crate::cache::spec_evict(s, limit, cap).0.len() <= s.0.len(),
        ({
            let r = crate::cache::spec_evict(s, limit, cap);
            r.0 == s.0.subrange(s.0.len() - r.0.len(), s.0.len() as int)
        }),
    decreases s.0.len(),
{
    let r = crate::cache::spec_evict(s, limit, cap);
    if s.0.len() <= limit || s.0.len() == 0 {
        assert(r.0 =~= s.0.subrange(s.0.len() - r.0.len(), s.0.len() as int));
    } else {
        let s1 = crate::cache::evict_one(s, cap);
        lemma_evict_is_suffix(s1, limit, cap);
        assert(s1.0 =~= s.0.subrange(1, s.0.len() as int));
        assert(r.0.len() <= s1.0.len());
        assert(s1.0.subrange(s1.0.len() - r.0.len(), s1.0.len() as int) =~= s.0.subrange(
            s.0.len() - r.0.len(),
            s.0.len() as int,
        ));
        assert(r.0 =~= s.0.subrange(s.0.len() - r.0.len(), s.0.len() as int));
    }
}

} // verus!

verus! {

/// The adaptive histogram geometry for `n` cached entries: bucket size
/// `max(1, round(1.1 n / B))`, ghost bucket size
/// `max(1, round((0.3 n + ghost capacity) / B))`, ghost start
/// `max(1, round(0.8 n))`, with the ghost capacity a small multiple of the
/// entry count. All values saturate at the machine word.
pub open spec fn spec_bucket_size(n: int) -> int {
    let v = (11 * n + 5 * BUCKET_NUMBER) / (10 * BUCKET_NUMBER);
    if v < 1 {
        1
    } else if v > usize::MAX {
        usize::MAX as int
    } else {
        v
    }
}

pub open spec fn spec_ghost_cap(n: int) -> int {
    let v = DEFAULT_GHOST_CAP_MULTIPLE * n;
    if v > usize::MAX {
        usize::MAX as int
    } else {
        v
    }
}

pub open spec fn spec_ghost_bucket_size(n: int) -> int {
    let v = (3 * n + 10 * spec_ghost_cap(n) + 5 * BUCKET_NUMBER) / (10 * BUCKET_NUMBER);
    if v < 1 {
        1
    } else if v > usize::MAX {
        usize::MAX as int
    } else {
        v
    }
}

pub open spec fn spec_ghost_start(n: int) -> int {
    let v = (8 * n + 5) / 10;
    if v < 1 {
        1
    } else {
        v
    }
}

/// Whether the entry count moved far enough (more than a fifth up or
/// almost a third down, and above one hundred) to resize the histograms.
pub open spec fn spec_should_resize(old_count: int, entry_count: int) -> bool {
    (10 * entry_count > 12 * old_count || 10 * entry_count < 7 * old_count) && entry_count > 100
}

impl HashAggExecutor {
    /// Re-derive the reuse-distance bucket geometry and the ghost-ring
    /// capacity when the cached entry count drifted far from the geometry's
    /// reference point.
    pub fn update_bucket_size(&mut self, entry_count: usize)
        requires
            old(self).inv(),
        ensures
            final(self).inv(),
            final(self).spec_result_table() == old(self).spec_result_table(),
            final(self).spec_storages() == old(self).spec_storages(),
            final(self).spec_agg_calls() == old(self).spec_agg_calls(),
            final(self).spec_group_key_indices() == old(self).spec_group_key_indices(),
            final(self).spec_input_pk_indices() == old(self).spec_input_pk_indices(),
            final(self).spec_row_count_index() == old(self).spec_row_count_index(),
            final(self).spec_chunk_size() == old(self).spec_chunk_size(),
            final(self).spec_emit_on_window_close() == old(self).spec_emit_on_window_close(),
            final(self).spec_window_col_in_group_key() == old(self).spec_window_col_in_group_key(),
            final(self).spec_window_col_idx() == old(self).spec_window_col_idx(),
            final(self).spec_buffer() == old(self).spec_buffer(),
            final(self).change_set_view() == old(self).change_set_view(),
            final(self).spec_buffered_watermarks() == old(self).spec_buffered_watermarks(),
            final(self).spec_window_watermark() == old(self).spec_window_watermark(),
            final(self).cache_entries() == old(self).cache_entries(),
            final(self).spec_cache().spec_cur_epoch() == old(self).spec_cache().spec_cur_epoch(),
            final(self).spec_cache().spec_size_limit() == old(self).spec_cache().spec_size_limit(),
            !spec_should_resize(
                old(self).spec_stats().bucket_size * BUCKET_NUMBER,
                entry_count as int,
            ) ==> final(self).spec_stats() == old(self).spec_stats()
                && final(self).spec_cache().spec_ghost_cap() == old(self).spec_cache().spec_ghost_cap() && final(self).spec_cache().ghosts_view() == old(self).spec_cache().ghosts_view(),
            spec_should_resize(
                old(self).spec_stats().bucket_size * BUCKET_NUMBER,
                entry_count as int,
            ) ==> final(self).spec_stats().bucket_size == spec_bucket_size(entry_count as int)
                && final(self).spec_stats().ghost_bucket_size == spec_ghost_bucket_size(
                entry_count as int,
            ) && final(self).spec_stats().ghost_start == spec_ghost_start(entry_count as int)
                && final(self).spec_cache().spec_ghost_cap() == spec_ghost_cap(entry_count as int),
    {
        let old_entry_count: u128 = (self.stats.bucket_size as u128) * (BUCKET_NUMBER as u128);
        let n: u128 = entry_count as u128;
        if (10 * n > 12 * old_entry_count || 10 * n < 7 * old_entry_count) && entry_count > 100 {
            let cap128: u128 = (DEFAULT_GHOST_CAP_MULTIPLE as u128) * n;
            let ghost_cap: usize = if cap128 > usize::MAX as u128 {
                usize::MAX
            } else {
                cap128 as usize
            };
            let bs128: u128 = (11 * n + 5 * (BUCKET_NUMBER as u128)) / (10 * (
            BUCKET_NUMBER as u128));
            let bs: usize = if bs128 < 1 {
                1
            } else if bs128 > usize::MAX as u128 {
                usize::MAX
            } else {
                bs128 as usize
            };
            let gbs128: u128 = (3 * n + 10 * (ghost_cap as u128) + 5 * (BUCKET_NUMBER as u128)) / (
            10 * (BUCKET_NUMBER as u128));
            let gbs: usize = if gbs128 < 1 {
                1
            } else if gbs128 > usize::MAX as u128 {
                usize::MAX
            } else {
                gbs128 as usize
            };
            let gs128: u128 = (8 * n + 5) / 10;
            let gs: usize = if gs128 < 1 {
                1
            } else {
                gs128 as usize
            };
            self.stats.bucket_size = bs;
            self.stats.ghost_bucket_size = gbs;
            self.stats.ghost_start = gs;
            self.cache.set_ghost_cap(ghost_cap);
            proof {
                assert(self.spec_stats().bucket_size as int == spec_bucket_size(
                    entry_count as int,
                ));
                assert(self.spec_stats().ghost_bucket_size as int == spec_ghost_bucket_size(
                    entry_count as int,
                ));
                assert(self.spec_stats().ghost_start as int == spec_ghost_start(
                    entry_count as int,
                ));
            }
        }
    }
}

} // verus!

verus! {

impl HashAggExecutor {
    /// Flush the epoch on a barrier: compute each changed group's output
    /// change (in change-set order), route it — straight to the result
    /// table and the output for emit-on-update, through the sort buffer for
    /// emit-on-window-close, releasing rows at or below the window
    /// watermark — and commit every backing table exactly once at
    /// `epoch.prev`. The returned chunks carry the emitted records, at most
    /// `chunk_size` rows each. Afterwards the change set is empty and the
    /// cache holds at most its size limit.
    pub fn flush_data(&mut self, epoch: EpochPair) -> (chunks: Vec<Chunk>)
        requires
            old(self).inv(),
            old(self).spec_result_table().spec_epoch() matches Some(e) && epoch.prev >= e.curr,
            epoch.prev < epoch.curr,
            old(self).spec_chunk_size() >= 1,
        ensures
            final(self).inv(),
            final(self).spec_agg_calls() == old(self).spec_agg_calls(),
            final(self).spec_group_key_indices() == old(self).spec_group_key_indices(),
            final(self).spec_input_pk_indices() == old(self).spec_input_pk_indices(),
            final(self).spec_row_count_index() == old(self).spec_row_count_index(),
            final(self).spec_chunk_size() == old(self).spec_chunk_size(),
            final(self).spec_emit_on_window_close() == old(self).spec_emit_on_window_close(),
            final(self).spec_window_col_in_group_key() == old(self).spec_window_col_in_group_key(),
            final(self).spec_window_col_idx() == old(self).spec_window_col_idx(),
            final(self).spec_buffered_watermarks() == old(self).spec_buffered_watermarks(),
            final(self).spec_result_table().commit_log_view() == old(self).spec_result_table().commit_log_view().push(epoch.prev),
            final(self).spec_result_table().spec_epoch() == Some(epoch),
            final(self).spec_result_table().staged_view().len() == 0,
            final(self).spec_result_table().spec_vnodes() == old(self).spec_result_table().spec_vnodes(),
            final(self).spec_result_table().spec_table_id() == old(self).spec_result_table().spec_table_id(),
            // the commit applied every staged write: the leftovers, the
            // changed groups' records, and the released rows' deletes (an
            // epoch with none of these seals without data and leaves the
            // committed rows unchanged)
            final(self).spec_result_table().committed_view() == crate::state_table::apply_staged(
                old(self).spec_result_table().committed_view(),
                old(self).spec_result_table().staged_view() + flush_staged_records(*old(self)),
                old(self).spec_result_table().spec_pk_indices(),
            ),
            // a window watermark is applied to every backing table
            final(self).spec_result_table().spec_watermark() == (
            match old(self).spec_window_watermark() {
                Some(w) => Some(w),
                None => old(self).spec_result_table().spec_watermark(),
            }),
            final(self).spec_storages().len() == old(self).spec_storages().len(),
            forall|c: int|
                0 <= c < final(self).spec_storages().len() ==> ((
                #[trigger] final(self).spec_storages()[c]) matches AggStateStorage::ResultValue
                    <==> old(self).spec_storages()[c] matches AggStateStorage::ResultValue),
            forall|c: int|
                0 <= c < final(self).spec_storages().len() ==> ((
                #[trigger] final(self).spec_storages()[c])
                    matches AggStateStorage::MaterializedInput(t) ==> (old(self).spec_storages()[c] matches AggStateStorage::MaterializedInput(t0)
                    ==> t.commit_log_view() == t0.commit_log_view().push(epoch.prev)
                    && t.spec_epoch() == Some(epoch) && t.staged_view().len() == 0
                    && t.committed_view() == crate::state_table::apply_staged(
                    t0.committed_view(),
                    t0.staged_view(),
                    t0.spec_pk_indices(),
                ) && t.spec_watermark() == (match old(self).spec_window_watermark() {
                    Some(w) => Some(w),
                    None => t0.spec_watermark(),
                }))),
            final(self).change_set_view().len() == 0,
            final(self).spec_window_watermark() is None,
            final(self).cache_entries().len() <= final(self).spec_cache().spec_size_limit(),
            final(self).spec_cache().spec_size_limit() == old(self).spec_cache().spec_size_limit(),
            final(self).spec_cache().spec_cur_epoch() == old(self).spec_cache().spec_cur_epoch(),
            forall|i: int|
                0 <= i < chunks@.len() ==> (#[trigger] chunks@[i]).ops@.len() == chunks@[i]
                    .rows@.len() && chunks@[i].ops@.len() <= old(self).spec_chunk_size()
                    && chunks@[i].visibility is None,
            ({
                let recs = emitted_records_upto(
                    old(self).cache_entries(),
                    old(self).change_set_view(),
                    old(self).spec_agg_calls(),
                    old(self).change_set_view().len() as int,
                );
                if !old(self).spec_emit_on_window_close() {
                    chunks_records(chunks@) == recs && final(self).spec_buffer() == old(self).spec_buffer()
                } else {
                    let b1 = buffer_after_records(
                        old(self).spec_buffer().buffer_view(),
                        recs,
                        old(self).spec_window_col_in_group_key() as int,
                    );
                    match old(self).spec_window_watermark() {
                        Some(w) => {
                            let cut = crate::sort_buffer::first_gt(b1, w);
                            chunks_records(chunks@) == b1.subrange(0, cut).map_values(
                                (|e: (i64, Seq<i64>)| (Op::Insert, e.1)),
                            ) && final(self).spec_buffer().buffer_view() == b1.subrange(
                                cut,
                                b1.len() as int,
                            )
                        },
                        None => chunks@.len() == 0 && final(self).spec_buffer().buffer_view()
                            == b1,
                    }
                }
            }),
    {
        // reset the sampled histograms and lookup counters, then adapt the
        // bucket geometry to the entry count
        self.stats.lookup_miss_count = 0;
        self.stats.lookup_real_miss_count = 0;
        self.stats.total_lookup_count = 0;
        self.stats.chunk_lookup_miss_count = 0;
        self.stats.chunk_total_lookup_count = 0;
        let mut z: usize = 0;
        while z <= BUCKET_NUMBER
            invariant
                self.inv(),
                0 <= z <= BUCKET_NUMBER + 1,
                self.spec_result_table() == old(self).spec_result_table(),
                self.spec_storages() == old(self).spec_storages(),
                self.spec_agg_calls() == old(self).spec_agg_calls(),
                self.spec_group_key_indices() == old(self).spec_group_key_indices(),
                self.spec_input_pk_indices() == old(self).spec_input_pk_indices(),
                self.spec_row_count_index() == old(self).spec_row_count_index(),
                self.spec_chunk_size() == old(self).spec_chunk_size(),
                self.spec_emit_on_window_close() == old(self).spec_emit_on_window_close(),
                self.spec_window_col_in_group_key() == old(self).spec_window_col_in_group_key(),
                self.spec_window_col_idx() == old(self).spec_window_col_idx(),
                self.spec_buffer() == old(self).spec_buffer(),
                self.change_set_view() == old(self).change_set_view(),
                self.spec_buffered_watermarks() == old(self).spec_buffered_watermarks(),
                self.spec_window_watermark() == old(self).spec_window_watermark(),
                self.spec_cache() == old(self).spec_cache(),
            decreases BUCKET_NUMBER + 1 - z,
        {
            self.stats.bucket_counts.set(z, 0);
            self.stats.ghost_bucket_counts.set(z, 0);
            z = z + 1;
        }
        let entry_count = self.cache.len();
        self.update_bucket_size(entry_count);

        let window_watermark = self.window_watermark;
        self.window_watermark = None;

        // drain the change set and build every group's change
        let mut cs: Vec<Vec<i64>> = Vec::new();
        std::mem::swap(&mut cs, &mut self.change_set);
        let ghost entries0 = self.cache_entries();
        let ghost csv0 = cs@.map_values(|k: Vec<i64>| k@);
        let ghost calls0 = self.spec_agg_calls();
        let ghost b0 = self.spec_buffer().buffer_view();
        let ghost wcol = self.spec_window_col_in_group_key() as int;
        proof {
            assert(self.change_set_view() =~= Seq::<Seq<i64>>::empty());
            assert(csv0 == old(self).change_set_view());
            assert(entries0 == old(self).cache_entries());
        }
        let mut pending: Vec<(Op, Vec<i64>)> = Vec::new();
        proof {
            assert(self.spec_result_table().staged_view() =~= old(self).spec_result_table().staged_view() + emitted_records_upto(entries0, csv0, calls0, 0));
        }
        let m = cs.len();
        let mut j: usize = 0;
        while j < m
            invariant
                self.inv(),
                m == csv0.len(),
                0 <= j <= m,
                csv0 == cs@.map_values(|k: Vec<i64>| k@),
                calls0 == self.spec_agg_calls(),
                wcol == self.spec_window_col_in_group_key() as int,
                self.change_set_view().len() == 0,
                self.spec_result_table().spec_epoch() == old(self).spec_result_table().spec_epoch(),
                self.spec_result_table().spec_epoch() is Some,
                self.spec_result_table().commit_log_view() == old(self).spec_result_table().commit_log_view(),
                self.spec_result_table().committed_view() == old(self).spec_result_table().committed_view(),
                self.spec_result_table().spec_pk_indices() == old(self).spec_result_table().spec_pk_indices(),
                self.spec_result_table().spec_vnodes() == old(self).spec_result_table().spec_vnodes(),
                self.spec_result_table().spec_table_id() == old(self).spec_result_table().spec_table_id(),
                self.spec_result_table().spec_watermark() == old(self).spec_result_table().spec_watermark(),
                self.spec_result_table().staged_view() == old(self).spec_result_table().staged_view() + emitted_records_upto(
                    entries0,
                    csv0,
                    calls0,
                    j as int,
                ),
                self.spec_storages() == old(self).spec_storages(),
                self.spec_agg_calls() == old(self).spec_agg_calls(),
                self.spec_group_key_indices() == old(self).spec_group_key_indices(),
                self.spec_input_pk_indices() == old(self).spec_input_pk_indices(),
                self.spec_row_count_index() == old(self).spec_row_count_index(),
                self.spec_chunk_size() == old(self).spec_chunk_size(),
                self.spec_emit_on_window_close() == old(self).spec_emit_on_window_close(),
                self.spec_window_col_in_group_key() == old(self).spec_window_col_in_group_key(),
                self.spec_window_col_idx() == old(self).spec_window_col_idx(),
                self.spec_buffered_watermarks() == old(self).spec_buffered_watermarks(),
                self.spec_window_watermark() is None,
                self.spec_cache().spec_cur_epoch() == old(self).spec_cache().spec_cur_epoch(),
                self.spec_cache().spec_size_limit() == old(self).spec_cache().spec_size_limit(),
                forall|p: int, q: int| 0 <= p < q < csv0.len() ==> csv0[p] != csv0[q],
                forall|p: int| 0 <= p < csv0.len() ==> k_has(entries0, #[trigger] csv0[p]),
                forall|k: Seq<i64>| #[trigger] k_has(entries0, k) ==> k_has(self.cache_entries(), k),
                forall|k: Seq<i64>| #[trigger]
                    k_has(self.cache_entries(), k) ==> k_has(entries0, k),
                forall|k: Seq<i64>| #[trigger]
                    k_has(entries0, k) && !csv0.subrange(0, j as int).contains(k) ==> cache_val(
                        self.cache_entries(),
                        k,
                    ) == cache_val(entries0, k),
                !self.spec_emit_on_window_close() ==> pending@.map_values(
                    (|e: (Op, Vec<i64>)| (e.0, e.1@)),
                ) == emitted_records_upto(entries0, csv0, calls0, j as int)
                    && self.spec_buffer() == old(self).spec_buffer(),
                self.spec_emit_on_window_close() ==> pending@.len() == 0
                    && self.spec_buffer().buffer_view() == buffer_after_records(
                    b0,
                    emitted_records_upto(entries0, csv0, calls0, j as int),
                    wcol,
                ) && self.spec_buffer().spec_window_col() == old(self).spec_buffer().spec_window_col(),
            decreases m - j,
        {
            let ghost ki = csv0[j as int];
            let ghost recs_before = emitted_records_upto(entries0, csv0, calls0, j as int);
            proof {
                assert(cs@[j as int]@ == ki);
                assert(k_has(entries0, ki));
                assert(!csv0.subrange(0, j as int).contains(ki)) by {
                    if csv0.subrange(0, j as int).contains(ki) {
                        let p = choose|p: int|
                            0 <= p < j && csv0.subrange(0, j as int)[p] == ki;
                        assert(csv0[p] == csv0[j as int]);
                    }
                }
                assert(cache_val(self.cache_entries(), ki) == cache_val(entries0, ki));
                assert(k_has(self.cache_entries(), ki));
            }
            let ghost entries_step = self.cache_entries();
            let grp_opt = self.cache.take(&cs[j]);
            let mut grp = match grp_opt {
                Some(g) => g,
                None => {
                    proof {
                        assert(false);
                    }
                    return Vec::new();
                },
            };
            proof {
                assert(grp == cache_val(entries0, ki));
                let idx = k_index(entries_step, ki);
                assert(entries_step[idx].1 == grp);
                assert(one_group_wf(ki, grp, self.n_calls(), self.group_len(),
                self.spec_row_count_index()));
            }
            let outputs = grp.get_outputs(&self.agg_calls);
            let change = grp.build_change(outputs);
            let ghost grp2 = grp;
            let key_back = copy_i64_vec(&cs[j]);
            self.cache.put(key_back, grp);
            proof {
                let idx = k_index(entries_step, ki);
                lemma_replace_preserves(entries_step, idx, grp2,
                self.spec_cache().spec_cur_epoch());
                assert(self.cache_entries() == entries_step.remove(idx).push(
                    (ki, grp2, self.spec_cache().spec_cur_epoch()),
                ));
                assert forall|jj: int|
                    0 <= jj < self.cache_entries().len() implies one_group_wf(
                    (#[trigger] self.cache_entries()[jj]).0,
                    self.cache_entries()[jj].1,
                    self.n_calls(),
                    self.group_len(),
                    self.spec_row_count_index(),
                ) by {
                    let cur = self.cache_entries();
                    if jj == cur.len() - 1 {
                        assert(one_group_wf(ki, cache_val(entries_step, ki), self.n_calls(),
                        self.group_len(), self.spec_row_count_index())) by {
                            assert(entries_step[idx].1 == cache_val(entries_step, ki));
                        }
                    } else {
                        let j0 = if jj < idx {
                            jj
                        } else {
                            jj + 1
                        };
                        assert(cur[jj] == entries_step[j0]);
                    }
                }
                assert(emitted_records_upto(entries0, csv0, calls0, j + 1) == recs_before
                    + change_records(ki, cache_val(entries0, ki), calls0));
            }
            let ghost this_recs = change_records(ki, cache_val(entries0, ki), calls0);
            proof {
                assert(outputs@ == ki + outputs_of(cache_val(entries0, ki).states_view(), calls0));
                assert(outputs@.len() == self.group_len() + self.n_calls());
            }
            if self.emit_on_window_close {
                let ghost bi = self.spec_buffer().buffer_view();
                let ghost sti = self.spec_result_table().staged_view();
                match change {
                    Some(ch) => {
                        self.buffer.apply_change(ch, &mut self.result_table);
                        proof {
                            lemma_buffer_after_concat(b0, recs_before, this_recs, wcol);
                            assert(recs_before + this_recs == emitted_records_upto(
                                entries0,
                                csv0,
                                calls0,
                                j + 1,
                            ));
                            if this_recs.len() == 1 {
                                let b_step = buffer_one_record(bi, this_recs[0].0,
                                this_recs[0].1, wcol);
                                assert(this_recs.subrange(1, 1).len() == 0);
                                assert(buffer_after_records(b_step, this_recs.subrange(1, 1),
                                wcol) == b_step);
                                assert(buffer_after_records(bi, this_recs, wcol) == b_step);
                            } else if this_recs.len() == 2 {
                                let b_mid = buffer_one_record(bi, this_recs[0].0, this_recs[0].1,
                                wcol);
                                let rest = this_recs.subrange(1, 2);
                                assert(rest[0] == this_recs[1]);
                                let b_fin = buffer_one_record(b_mid, rest[0].0, rest[0].1, wcol);
                                assert(rest.subrange(1, 1).len() == 0);
                                assert(buffer_after_records(b_fin, rest.subrange(1, 1), wcol)
                                    == b_fin);
                                assert(buffer_after_records(b_mid, rest, wcol) == b_fin);
                                assert(buffer_after_records(bi, this_recs, wcol) == b_fin);
                            }
                            assert(self.spec_buffer().buffer_view() =~= buffer_after_records(
                                bi,
                                this_recs,
                                wcol,
                            ));
                            assert forall|p: int|
                                0 <= p < this_recs.len() implies (#[trigger] this_recs[p]).1.len()
                                == self.group_len() + self.n_calls() by {}
                            lemma_buffer_after_rows_ok(
                                bi,
                                this_recs,
                                wcol,
                                self.group_len() + self.n_calls(),
                            );
                            assert(self.spec_result_table().staged_view() =~= sti + this_recs);
                            assert(self.spec_result_table().staged_view() =~= old(self).spec_result_table().staged_view() + emitted_records_upto(
                                entries0,
                                csv0,
                                calls0,
                                j + 1,
                            ));
                            assert(result_rows_ok(
                                self.spec_result_table(),
                                self.group_len() + self.n_calls(),
                            )) by {
                                assert forall|p: int|
                                    0 <= p < self.spec_result_table().staged_view().len()
                                        implies (
                                #[trigger] self.spec_result_table().staged_view()[p]).1.len()
                                    == self.group_len() + self.n_calls() by {
                                    if p < sti.len() {
                                        assert(self.spec_result_table().staged_view()[p]
                                            == sti[p]);
                                    }
                                }
                            }
                        }
                    },
                    None => {
                        proof {
                            assert(this_recs =~= Seq::<(Op, Seq<i64>)>::empty());
                            assert(recs_before + this_recs =~= recs_before);
                            assert(self.spec_result_table().staged_view() =~= old(self).spec_result_table().staged_view() + emitted_records_upto(
                                entries0,
                                csv0,
                                calls0,
                                j + 1,
                            ));
                        }
                    },
                }
            } else {
                let ghost sti = self.spec_result_table().staged_view();
                match change {
                    Some(ch) => {
                        match ch {
                            Change::Insert(r) => {
                                let r2 = copy_i64_vec(&r);
                                self.result_table.write_record(Op::Insert, r2);
                                pending.push((Op::Insert, r));
                            },
                            Change::Delete(r) => {
                                let r2 = copy_i64_vec(&r);
                                self.result_table.write_record(Op::Delete, r2);
                                pending.push((Op::Delete, r));
                            },
                            Change::Update(o, n2) => {
                                let o2 = copy_i64_vec(&o);
                                self.result_table.write_record(Op::UpdateDelete, o2);
                                pending.push((Op::UpdateDelete, o));
                                let n3 = copy_i64_vec(&n2);
                                self.result_table.write_record(Op::UpdateInsert, n3);
                                pending.push((Op::UpdateInsert, n2));
                            },
                        }
                    },
                    None => {},
                }
                proof {
                    assert(pending@.map_values((|e: (Op, Vec<i64>)| (e.0, e.1@)))
                        =~= emitted_records_upto(entries0, csv0, calls0, j + 1));
                    assert(self.spec_result_table().staged_view() =~= sti + this_recs);
                    assert(self.spec_result_table().staged_view() =~= old(self).spec_result_table().staged_view() + emitted_records_upto(
                        entries0,
                        csv0,
                        calls0,
                        j + 1,
                    ));
                    assert(result_rows_ok(
                        self.spec_result_table(),
                        self.group_len() + self.n_calls(),
                    )) by {
                        assert forall|p: int|
                            0 <= p < self.spec_result_table().staged_view().len() implies (
                        #[trigger] self.spec_result_table().staged_view()[p]).1.len()
                            == self.group_len() + self.n_calls() by {
                            if p < sti.len() {
                                assert(self.spec_result_table().staged_view()[p] == sti[p]);
                            }
                        }
                    }
                }
            }
            proof {
                assert forall|k: Seq<i64>| #[trigger]
                    k_has(entries0, k) && !csv0.subrange(0, j + 1).contains(k)
                        implies cache_val(self.cache_entries(), k) == cache_val(
                        entries0,
                        k,
                    ) by {
                    assert(!csv0.subrange(0, j as int).contains(k)) by {
                        if csv0.subrange(0, j as int).contains(k) {
                            let p = choose|p: int|
                                0 <= p < j && csv0.subrange(0, j as int)[p] == k;
                            assert(csv0.subrange(0, j + 1)[p] == k);
                        }
                    }
                    assert(k != ki) by {
                        assert(csv0.subrange(0, j + 1)[j as int] == ki);
                    }
                    assert(cache_val(entries_step, k) == cache_val(entries0, k));
                }
            }
            j = j + 1;
        }
        proof {
            assert(csv0.subrange(0, m as int) =~= csv0);
        }
        let ghost recs_all = emitted_records_upto(entries0, csv0, calls0, m as int);
        // emit-on-window-close: release everything at or below the watermark
        if self.emit_on_window_close {
            match window_watermark {
                Some(w) => {
                    let ghost b1 = buffer_after_records(b0, recs_all, wcol);
                    let ghost cut = crate::sort_buffer::first_gt(b1, w);
                    proof {
                        crate::sort_buffer::lemma_first_gt_bounds(b1, w);
                        assert forall|p: int|
                            0 <= p < self.spec_buffer().buffer_view().len() implies self
                            .spec_result_table().row_wf(
                            (#[trigger] self.spec_buffer().buffer_view()[p]).1,
                        ) by {
                            assert(self.spec_buffer().buffer_view()[p].1.len()
                                == self.group_len() + self.n_calls());
                            assert forall|jq: int|
                                0 <= jq < self.spec_result_table().spec_pk_indices().len()
                                    implies (
                            #[trigger] self.spec_result_table().spec_pk_indices()[jq])
                                < self.spec_buffer().buffer_view()[p].1.len() by {
                                assert(self.spec_result_table().spec_pk_indices()[jq]
                                    < self.group_len());
                            }
                        }
                    }
                    let rows = self.buffer.consume(w, &mut self.result_table);
                    let nr = rows.len();
                    let mut q: usize = 0;
                    while q < nr
                        invariant
                            nr == rows@.len(),
                            0 <= q <= nr,
                            rows@.map_values(|r: Vec<i64>| r@) == b1.subrange(0, cut).map_values(
                                (|e: (i64, Seq<i64>)| e.1),
                            ),
                            cut == crate::sort_buffer::first_gt(b1, w),
                            0 <= cut <= b1.len(),
                            pending@.len() == q,
                            forall|p: int|
                                0 <= p < q ==> (#[trigger] pending@[p]).0 == Op::Insert
                                    && pending@[p].1@ == rows@[p]@,
                        decreases nr - q,
                    {
                        let row = copy_i64_vec(&rows[q]);
                        pending.push((Op::Insert, row));
                        q = q + 1;
                    }
                    proof {
                        assert forall|p: int|
                            0 <= p < nr implies (#[trigger] pending@[p]).1@ == b1.subrange(
                            0,
                            cut,
                        ).map_values((|e: (i64, Seq<i64>)| e.1))[p] by {
                            assert(pending@[p].1@ == rows@[p]@);
                            assert(rows@.map_values(|r: Vec<i64>| r@)[p] == rows@[p]@);
                        }
                        assert(nr == cut) by {
                            assert(rows@.map_values(|r: Vec<i64>| r@).len() == b1.subrange(
                                0,
                                cut,
                            ).map_values((|e: (i64, Seq<i64>)| e.1)).len());
                        }
                        assert forall|p: int|
                            0 <= p < nr implies pending@.map_values(
                            (|e: (Op, Vec<i64>)| (e.0, e.1@)),
                        )[p] == b1.subrange(0, cut).map_values(
                            (|e: (i64, Seq<i64>)| (Op::Insert, e.1)),
                        )[#[trigger] trig_int(p)] by {
                            assert(trig_int(p) == p);
                            assert(pending@[p].0 == Op::Insert);
                            assert(pending@[p].1@ == b1.subrange(0, cut).map_values(
                                (|e: (i64, Seq<i64>)| e.1),
                            )[p]);
                        }
                        assert(pending@.map_values((|e: (Op, Vec<i64>)| (e.0, e.1@)))
                            =~= b1.subrange(0, cut).map_values(
                            (|e: (i64, Seq<i64>)| (Op::Insert, e.1)),
                        ));
                    }
                },
                None => {},
            }
        }
        let ghost out_recs = pending@.map_values(|e: (Op, Vec<i64>)| (e.0, e.1@));

        // the staged writes on the result table are now exactly the flush's
        let ghost full_recs = flush_staged_records(*old(self));
        let ghost target_committed = crate::state_table::apply_staged(
            old(self).spec_result_table().committed_view(),
            old(self).spec_result_table().staged_view() + full_recs,
            old(self).spec_result_table().spec_pk_indices(),
        );
        proof {
            if old(self).spec_emit_on_window_close() {
                match old(self).spec_window_watermark() {
                    Some(w) => {
                        assert(self.spec_result_table().staged_view() =~= old(self).spec_result_table().staged_view() + full_recs);
                    },
                    None => {
                        assert(self.spec_result_table().staged_view() =~= old(self).spec_result_table().staged_view() + full_recs);
                    },
                }
            } else {
                assert(self.spec_result_table().staged_view() =~= old(self).spec_result_table().staged_view() + full_recs);
            }
        }

        // update the watermark of every backing table, then commit each
        // exactly once at this epoch
        let ghost buffer_snap = self.spec_buffer();
        let ghost cache_snap = self.spec_cache();
        let ghost cs_snap = self.change_set_view();
        let ghost old_epoch = self.spec_result_table().spec_epoch();
        match window_watermark {
            Some(w) => {
                self.result_table.update_watermark(w, false);
                let n_storages0 = self.storages.len();
                let ghost sw_pre = self.spec_storages();
                let ghost self_pre = *self;
                let mut cw: usize = 0;
                while cw < n_storages0
                    invariant
                        0 <= cw <= n_storages0,
                        self_pre.inv(),
                        sw_pre == self_pre.spec_storages(),
                        n_storages0 == self.spec_storages().len() == sw_pre.len(),
                        *self == (HashAggExecutor { storages: self.storages, ..self_pre }),
                        forall|c2: int|
                            cw <= c2 < n_storages0 ==> (#[trigger] self.spec_storages()[c2])
                                == sw_pre[c2],
                        forall|c2: int|
                            0 <= c2 < n_storages0 ==> ((#[trigger] self.spec_storages()[c2])
                                matches AggStateStorage::ResultValue <==> sw_pre[c2]
                                matches AggStateStorage::ResultValue),
                        forall|c2: int|
                            0 <= c2 < cw ==> ((#[trigger] self.spec_storages()[c2])
                                matches AggStateStorage::MaterializedInput(t) ==> (sw_pre[c2]
                                matches AggStateStorage::MaterializedInput(t0) ==> t.inv()
                                && t.committed_view() == t0.committed_view() && t.staged_view()
                                == t0.staged_view() && t.commit_log_view() == t0.commit_log_view()
                                && t.spec_epoch() == t0.spec_epoch() && t.spec_pk_indices()
                                == t0.spec_pk_indices() && t.spec_vnodes() == t0.spec_vnodes()
                                && t.spec_watermark() == Some(w))),
                    decreases n_storages0 - cw,
                {
                    let is_mat = match &self.storages[cw] {
                        AggStateStorage::MaterializedInput(_) => true,
                        AggStateStorage::ResultValue => false,
                    };
                    if is_mat {
                        let ghost st_before = self.spec_storages();
                        let st = self.storages.remove(cw);
                        match st {
                            AggStateStorage::MaterializedInput(mut t) => {
                                proof {
                                    assert(st_before[cw as int] == sw_pre[cw as int]);
                                    assert((#[trigger] self_pre.spec_storages()[cw as int])
                                        == sw_pre[cw as int]);
                                    assert(self_pre.spec_storages()[cw as int]
                                        matches AggStateStorage::MaterializedInput(t0) && t0
                                        == t);
                                }
                                t.update_watermark(w, false);
                                self.storages.insert(cw, AggStateStorage::MaterializedInput(t));
                            },
                            AggStateStorage::ResultValue => {
                                proof {
                                    assert(false);
                                }
                                self.storages.insert(cw, st);
                            },
                        }
                        proof {
                            assert(self.spec_storages() =~= st_before.update(
                                cw as int,
                                self.spec_storages()[cw as int],
                            ));
                            assert forall|c2: int|
                                cw + 1 <= c2 < n_storages0 implies (
                            #[trigger] self.spec_storages()[c2]) == sw_pre[c2] by {
                                assert(self.spec_storages()[c2] == st_before[c2]);
                            }
                        }
                    }
                    cw = cw + 1;
                }
            },
            None => {},
        }
        let ghost target_wm: Option<i64> = match old(self).spec_window_watermark() {
            Some(w) => Some(w),
            None => old(self).spec_result_table().spec_watermark(),
        };
        let ghost staged_at_commit = self.spec_result_table().staged_view();
        proof {
            assert(staged_at_commit == old(self).spec_result_table().staged_view() + full_recs);
            assert(self.spec_result_table().spec_watermark() == target_wm);
        }
        if self.result_table.staged_len() == 0 {
            self.result_table.commit_no_data_expected(epoch);
            proof {
                assert(staged_at_commit.len() == 0);
                assert(self.spec_result_table().committed_view() == crate::state_table::apply_staged(
                    old(self).spec_result_table().committed_view(),
                    staged_at_commit,
                    old(self).spec_result_table().spec_pk_indices(),
                ));
                assert(self.spec_result_table().committed_view() == target_committed);
            }
        } else {
            proof {
                crate::state_table::lemma_apply_staged_row_len(
                    self.spec_result_table().committed_view(),
                    self.spec_result_table().staged_view(),
                    self.spec_result_table().spec_pk_indices(),
                    self.group_len() + self.n_calls(),
                );
            }
            self.result_table.commit(epoch);
            proof {
                assert(self.spec_result_table().committed_view() == target_committed);
            }
        }
        let n_storages = self.storages.len();
        let ghost storages_pre = self.spec_storages();
        proof {
            // the pre-commit backing tables relate to the flush's entry state
            assert forall|c2: int|
                0 <= c2 < storages_pre.len() implies ((#[trigger] storages_pre[c2])
                    matches AggStateStorage::MaterializedInput(tp) ==> (old(self).spec_storages()[c2] matches AggStateStorage::MaterializedInput(t0) ==> tp.inv()
                    && tp.committed_view() == t0.committed_view() && tp.staged_view()
                    == t0.staged_view() && tp.commit_log_view() == t0.commit_log_view()
                    && tp.spec_epoch() == t0.spec_epoch() && tp.spec_pk_indices()
                    == t0.spec_pk_indices() && tp.spec_watermark() == (
                match old(self).spec_window_watermark() {
                    Some(w) => Some(w),
                    None => t0.spec_watermark(),
                }))) by {
                assert((#[trigger] old(self).spec_storages()[c2]) == old(self).spec_storages()[
                    c2
                ]);
            }
            assert forall|c2: int|
                0 <= c2 < storages_pre.len() implies ((#[trigger] storages_pre[c2])
                    matches AggStateStorage::ResultValue <==> old(self).spec_storages()[c2]
                    matches AggStateStorage::ResultValue) by {
                assert((#[trigger] old(self).spec_storages()[c2]) == old(self).spec_storages()[
                    c2
                ]);
            }
        }
        let mut c5: usize = 0;
        while c5 < n_storages
            invariant
                n_storages == self.spec_storages().len() == storages_pre.len(),
                0 <= c5 <= n_storages,
                // configuration frames
                self.spec_agg_calls() == old(self).spec_agg_calls(),
                self.spec_group_key_indices() == old(self).spec_group_key_indices(),
                self.spec_input_pk_indices() == old(self).spec_input_pk_indices(),
                self.spec_row_count_index() == old(self).spec_row_count_index(),
                self.spec_chunk_size() == old(self).spec_chunk_size(),
                self.spec_emit_on_window_close() == old(self).spec_emit_on_window_close(),
                self.spec_window_col_in_group_key() == old(self).spec_window_col_in_group_key(),
                self.spec_window_col_idx() == old(self).spec_window_col_idx(),
                self.spec_buffered_watermarks() == old(self).spec_buffered_watermarks(),
                self.spec_window_watermark() is None,
                self.spec_buffer() == buffer_snap,
                self.spec_cache() == cache_snap,
                self.change_set_view() == cs_snap,
                self.spec_stats().bucket_counts@.len() == BUCKET_NUMBER + 1,
                self.spec_stats().ghost_bucket_counts@.len() == BUCKET_NUMBER + 1,
                self.spec_stats().bucket_size >= 1,
                self.spec_stats().ghost_bucket_size >= 1,
                // the operator's structural facts
                self.spec_agg_calls().len() == self.spec_storages().len(),
                self.spec_row_count_index() < self.n_calls(),
                self.spec_agg_calls()[self.spec_row_count_index() as int].kind
                    matches AggKind::Count,
                calls_match_storages(self.spec_agg_calls(), self.spec_storages()),
                self.spec_result_table().inv(),
                is_pk_permutation(self.spec_result_table().spec_pk_indices(), self.group_len()),
                self.group_len() > 0,
                result_rows_ok(self.spec_result_table(), self.group_len() + self.n_calls()),
                self.spec_window_col_in_group_key() < self.group_len(),
                self.spec_cache().inv(),
                groups_wf(
                    self.cache_entries(),
                    self.n_calls(),
                    self.group_len(),
                    self.spec_row_count_index(),
                ),
                self.spec_buffer().inv(),
                self.spec_buffer().spec_window_col() == self.spec_window_col_in_group_key(),
                buffer_rows_ok(
                    self.spec_buffer().buffer_view(),
                    self.group_len() + self.n_calls(),
                ),
                change_set_ok(self.change_set_view(), self.cache_entries()),
                self.spec_buffered_watermarks().len() == self.group_len(),
                // commit bookkeeping
                epoch.prev < epoch.curr,
                old_epoch matches Some(e0) && epoch.prev >= e0.curr,
                self.spec_result_table().spec_epoch() == Some(epoch),
                self.spec_result_table().commit_log_view() == old(self).spec_result_table().commit_log_view().push(epoch.prev),
                self.spec_result_table().staged_view().len() == 0,
                self.spec_result_table().spec_vnodes() == old(self).spec_result_table().spec_vnodes(),
                self.spec_result_table().spec_table_id() == old(self).spec_result_table().spec_table_id(),
                self.spec_result_table().committed_view() == target_committed,
                self.spec_result_table().spec_watermark() == target_wm,
                forall|c2: int|
                    0 <= c2 < n_storages ==> ((#[trigger] storages_pre[c2])
                        matches AggStateStorage::MaterializedInput(tp) ==> (old(self).spec_storages()[c2] matches AggStateStorage::MaterializedInput(t0)
                        ==> tp.committed_view() == t0.committed_view() && tp.staged_view()
                        == t0.staged_view() && tp.commit_log_view() == t0.commit_log_view()
                        && tp.spec_watermark() == (match old(self).spec_window_watermark() {
                        Some(w) => Some(w),
                        None => t0.spec_watermark(),
                    }))),
                forall|c2: int|
                    0 <= c2 < n_storages ==> ((#[trigger] storages_pre[c2])
                        matches AggStateStorage::ResultValue <==> old(self).spec_storages()[c2]
                        matches AggStateStorage::ResultValue),
                forall|c2: int|
                    0 <= c2 < n_storages ==> ((#[trigger] self.spec_storages()[c2])
                        matches AggStateStorage::ResultValue <==> storages_pre[c2]
                        matches AggStateStorage::ResultValue),
                forall|c2: int|
                    c5 <= c2 < n_storages ==> (#[trigger] self.spec_storages()[c2])
                        == storages_pre[c2],
                forall|c2: int|
                    0 <= c2 < n_storages ==> ((#[trigger] storages_pre[c2])
                        matches AggStateStorage::MaterializedInput(t) ==> t.inv()
                        && t.spec_epoch() == old_epoch && (forall|i: int|
                        0 <= i < t.committed_view().len() ==> (
                        #[trigger] t.committed_view()[i]).1.len() == self.group_len() + 1
                            + self.spec_input_pk_indices().len()) && (forall|i: int|
                        0 <= i < t.staged_view().len() ==> (
                        #[trigger] t.staged_view()[i]).1.len() == self.group_len() + 1
                            + self.spec_input_pk_indices().len()) && (forall|jq: int|
                        0 <= jq < t.spec_pk_indices().len() ==> (
                        #[trigger] t.spec_pk_indices()[jq]) < self.group_len() + 1
                            + self.spec_input_pk_indices().len())),
                forall|c2: int|
                    0 <= c2 < c5 ==> ((#[trigger] self.spec_storages()[c2])
                        matches AggStateStorage::MaterializedInput(t) ==> (storages_pre[c2]
                        matches AggStateStorage::MaterializedInput(t0) ==> t.commit_log_view()
                        == t0.commit_log_view().push(epoch.prev) && t.spec_epoch() == Some(epoch)
                        && t.staged_view().len() == 0 && t.inv() && t.committed_view()
                        == crate::state_table::apply_staged(
                        t0.committed_view(),
                        t0.staged_view(),
                        t0.spec_pk_indices(),
                    ) && t.spec_watermark() == t0.spec_watermark() && (forall|i: int|
                        0 <= i < t.committed_view().len() ==> (
                        #[trigger] t.committed_view()[i]).1.len() == self.group_len() + 1
                            + self.spec_input_pk_indices().len()) && (forall|jq: int|
                        0 <= jq < t.spec_pk_indices().len() ==> (
                        #[trigger] t.spec_pk_indices()[jq]) < self.group_len() + 1
                            + self.spec_input_pk_indices().len()))),
            decreases n_storages - c5,
        {
            let is_mat = match &self.storages[c5] {
                AggStateStorage::MaterializedInput(_) => true,
                AggStateStorage::ResultValue => false,
            };
            if is_mat {
                let ghost st_before = self.spec_storages();
                let st = self.storages.remove(c5);
                match st {
                    AggStateStorage::MaterializedInput(mut t) => {
                        proof {
                            assert(st_before[c5 as int] == storages_pre[c5 as int]);
                        }
                        let ghost t_at = t;
                        if t.staged_len() == 0 {
                            t.commit_no_data_expected(epoch);
                            proof {
                                assert(t.committed_view() == crate::state_table::apply_staged(
                                    t_at.committed_view(),
                                    t_at.staged_view(),
                                    t_at.spec_pk_indices(),
                                ));
                            }
                        } else {
                            proof {
                                crate::state_table::lemma_apply_staged_row_len(
                                    t.committed_view(),
                                    t.staged_view(),
                                    t.spec_pk_indices(),
                                    self.group_len() + 1 + self.spec_input_pk_indices().len(),
                                );
                            }
                            t.commit(epoch);
                        }
                        self.storages.insert(c5, AggStateStorage::MaterializedInput(t));
                    },
                    AggStateStorage::ResultValue => {
                        proof {
                            assert(false);
                        }
                        self.storages.insert(c5, st);
                    },
                }
                proof {
                    assert(self.spec_storages() =~= st_before.update(
                        c5 as int,
                        self.spec_storages()[c5 as int],
                    ));
                    assert forall|c2: int|
                        c5 + 1 <= c2 < n_storages implies (#[trigger] self.spec_storages()[c2])
                        == storages_pre[c2] by {
                        assert(self.spec_storages()[c2] == st_before[c2]);
                    }
                }
            }
            c5 = c5 + 1;
        }
        proof {
            // the backing tables are in step again: the invariant holds
            assert(storages_ok(
                self.spec_storages(),
                self.spec_result_table().spec_epoch(),
                self.group_len() + 1 + self.spec_input_pk_indices().len(),
            )) by {
                assert forall|c2: int|
                    0 <= c2 < self.spec_storages().len() implies ((
                #[trigger] self.spec_storages()[c2])
                    matches AggStateStorage::MaterializedInput(t) ==> t.inv() && t.spec_epoch()
                    == self.spec_result_table().spec_epoch() && (forall|i: int|
                    0 <= i < t.committed_view().len() ==> (
                    #[trigger] t.committed_view()[i]).1.len() == self.group_len() + 1
                        + self.spec_input_pk_indices().len()) && (forall|i: int|
                    0 <= i < t.staged_view().len() ==> (#[trigger] t.staged_view()[i]).1.len()
                        == self.group_len() + 1 + self.spec_input_pk_indices().len()) && (forall|
                    jq: int,
                |
                    0 <= jq < t.spec_pk_indices().len() ==> (#[trigger] t.spec_pk_indices()[jq])
                        < self.group_len() + 1 + self.spec_input_pk_indices().len())) by {}
            }
            assert(self.inv());
            // the ensures-level view of the committed backing tables
            assert forall|c2: int|
                0 <= c2 < self.spec_storages().len() implies ((
            #[trigger] self.spec_storages()[c2]) matches AggStateStorage::MaterializedInput(t)
                ==> (old(self).spec_storages()[c2] matches AggStateStorage::MaterializedInput(t0)
                ==> t.committed_view() == crate::state_table::apply_staged(
                t0.committed_view(),
                t0.staged_view(),
                t0.spec_pk_indices(),
            ) && t.spec_watermark() == (match old(self).spec_window_watermark() {
                Some(w) => Some(w),
                None => t0.spec_watermark(),
            }))) by {
                assert((#[trigger] storages_pre[c2]) == storages_pre[c2]);
            }
        }
        // evict the cache to its target capacity
        let ghost cache_pre_evict = self.spec_cache();
        self.cache.evict();
        proof {
            crate::cache::lemma_evict_bounds(
                cache_pre_evict.state_view(),
                cache_pre_evict.spec_size_limit() as int,
                cache_pre_evict.spec_ghost_cap() as int,
            );
            lemma_evict_is_suffix(
                cache_pre_evict.state_view(),
                cache_pre_evict.spec_size_limit() as int,
                cache_pre_evict.spec_ghost_cap() as int,
            );
            let pre = cache_pre_evict.entries_view();
            let cur = self.cache_entries();
            assert forall|jj: int|
                0 <= jj < cur.len() implies one_group_wf(
                (#[trigger] cur[jj]).0,
                cur[jj].1,
                self.n_calls(),
                self.group_len(),
                self.spec_row_count_index(),
            ) by {
                assert(cur[jj] == pre[pre.len() - cur.len() + jj]);
            }
        }

        // pack the emitted records into chunks of at most `chunk_size` rows
        let total = pending.len();
        let mut chunks: Vec<Chunk> = Vec::new();
        let mut taken: usize = 0;
        while taken < total
            invariant
                total == pending@.len(),
                0 <= taken <= total,
                self.spec_chunk_size() == old(self).spec_chunk_size(),
                self.spec_chunk_size() >= 1,
                out_recs == pending@.map_values(|e: (Op, Vec<i64>)| (e.0, e.1@)),
                chunks_records(chunks@) == out_recs.subrange(0, taken as int),
                forall|i: int|
                    0 <= i < chunks@.len() ==> (#[trigger] chunks@[i]).ops@.len() == chunks@[i]
                        .rows@.len() && chunks@[i].ops@.len() <= self.spec_chunk_size()
                        && chunks@[i].visibility is None,
                total == 0 ==> chunks@.len() == 0,
            decreases total - taken,
        {
            let ghost recs_so_far = out_recs.subrange(0, taken as int);
            let mut ops: Vec<Op> = Vec::new();
            let mut rows: Vec<Vec<i64>> = Vec::new();
            let start = taken;
            let mut count: usize = 0;
            let mut t2 = taken;
            while t2 < total && count < self.chunk_size
                invariant
                    total == pending@.len(),
                    start <= t2 <= total,
                    count == t2 - start,
                    count <= self.spec_chunk_size(),
                    out_recs == pending@.map_values(|e: (Op, Vec<i64>)| (e.0, e.1@)),
                    ops@.len() == count,
                    rows@.len() == count,
                    forall|p: int|
                        0 <= p < count ==> (#[trigger] ops@[p]) == out_recs[start + p].0,
                    forall|p: int|
                        0 <= p < count ==> (#[trigger] rows@[p])@ == out_recs[start + p].1,
                decreases total - t2,
            {
                ops.push(pending[t2].0);
                let row = copy_i64_vec(&pending[t2].1);
                rows.push(row);
                proof {
                    assert(pending@[t2 as int].1@ == out_recs[t2 as int].1);
                }
                t2 = t2 + 1;
                count = count + 1;
            }
            let chunk = Chunk { ops, rows, visibility: None };
            let ghost chunks_before = chunks@;
            chunks.push(chunk);
            taken = t2;
            proof {
                assert(chunks@.drop_last() =~= chunks_before);
                assert(chunk_records(chunks@.last()) =~= out_recs.subrange(
                    start as int,
                    taken as int,
                ));
                assert(chunks_records(chunks@) =~= out_recs.subrange(0, taken as int));
            }
        }
        proof {
            assert(out_recs.subrange(0, total as int) =~= out_recs);
            if !old(self).spec_emit_on_window_close() {
                assert(chunks_records(chunks@) == recs_all);
            } else {
                match old(self).spec_window_watermark() {
                    Some(w) => {},
                    None => {
                        assert(total == 0);
                        assert(chunks@.len() == 0);
                    },
                }
            }
        }
        chunks
    }
}


} // verus!

verus! {

/// The records of all chunk messages of a message sequence, flattened in
/// order.
pub open spec fn msgs_chunk_records(msgs: Seq<Message>) -> Seq<(Op, Seq<i64>)>
    decreases msgs.len(),
{
    if msgs.len() == 0 {
        Seq::empty()
    } else {
        msgs_chunk_records(msgs.drop_last()) + (match msgs.last() {
            Message::Chunk(c) => chunk_records(c),
            Message::Barrier(_) => Seq::empty(),
            Message::Watermark(_) => Seq::empty(),
        })
    }
}

/// The watermarks of all watermark messages of a message sequence, in
/// order.
pub open spec fn msgs_watermarks(msgs: Seq<Message>) -> Seq<Watermark>
    decreases msgs.len(),
{
    if msgs.len() == 0 {
        Seq::empty()
    } else {
        msgs_watermarks(msgs.drop_last()) + (match msgs.last() {
            Message::Watermark(w) => seq![w],
            Message::Chunk(_) => Seq::empty(),
            Message::Barrier(_) => Seq::empty(),
        })
    }
}

/// The watermarks present in the per-column slots, in column order.
pub open spec fn buffered_present(s: Seq<Option<Watermark>>) -> Seq<Watermark>
    decreases s.len(),
{
    if s.len() == 0 {
        Seq::empty()
    } else {
        buffered_present(s.drop_last()) + (match s.last() {
            Some(w) => seq![w],
            None => Seq::empty(),
        })
    }
}

/// Chunks come first, then watermarks, and nothing follows a barrier.
pub open spec fn msgs_kinds_ordered(msgs: Seq<Message>) -> bool {
    &&& forall|p: int|
        0 <= p < msgs.len() - 1 ==> !((#[trigger] msgs[p]) matches Message::Barrier(_))
    &&& forall|p: int, q: int|
        0 <= p < q < msgs.len() && ((#[trigger] msgs[q]) matches Message::Chunk(_)) ==> ((
        #[trigger] msgs[p]) matches Message::Chunk(_))
}

/// A cache size from a resize mutation, clamped to the machine word.
pub open spec fn clamp_cache_size(v: u64) -> usize {
    if v > usize::MAX as u64 {
        usize::MAX
    } else {
        v as usize
    }
}

/// Some vnode owned under `prev` is no longer owned under `cur`.
pub open spec fn spec_cache_may_stale(prev: Seq<bool>, cur: Seq<bool>) -> bool {
    exists|i: int|
        0 <= i < prev.len() && #[trigger] prev[i] && !(if i < cur.len() {
            cur[i]
        } else {
            false
        })
}

impl HashAggExecutor {
    /// Handle the first barrier: start every backing table at its epoch,
    /// move the cache to the current epoch, and echo the barrier
    /// downstream.
    pub fn handle_first_barrier(&mut self, barrier: Barrier) -> (msgs: Vec<Message>)
        requires
            old(self).inv(),
            old(self).spec_result_table().spec_epoch() is None,
            barrier.epoch.prev < barrier.epoch.curr,
            old(self).spec_cache().spec_cur_epoch() <= barrier.epoch.curr,
        ensures
            final(self).inv(),
            final(self).spec_result_table().spec_epoch() == Some(barrier.epoch),
            final(self).spec_cache().spec_cur_epoch() == barrier.epoch.curr,
            final(self).spec_result_table().committed_view() == old(self).spec_result_table().committed_view(),
            final(self).spec_result_table().commit_log_view() == old(self).spec_result_table().commit_log_view(),
            final(self).cache_entries() == old(self).cache_entries(),
            final(self).change_set_view() == old(self).change_set_view(),
            final(self).spec_buffer() == old(self).spec_buffer(),
            msgs@.len() == 1,
            msgs@[0] matches Message::Barrier(b) && b == barrier,
    {
        self.result_table.init_epoch(barrier.epoch);
        let n_storages = self.storages.len();
        let ghost storages_pre = self.spec_storages();
        let mut c: usize = 0;
        while c < n_storages
            invariant
                old(self).inv(),
                storages_pre == old(self).spec_storages(),
                old(self).spec_result_table().spec_epoch() is None,
                n_storages == self.spec_storages().len() == storages_pre.len(),
                0 <= c <= n_storages,
                barrier.epoch.prev < barrier.epoch.curr,
                self.spec_agg_calls() == old(self).spec_agg_calls(),
                self.spec_group_key_indices() == old(self).spec_group_key_indices(),
                self.spec_input_pk_indices() == old(self).spec_input_pk_indices(),
                self.spec_row_count_index() == old(self).spec_row_count_index(),
                self.spec_chunk_size() == old(self).spec_chunk_size(),
                self.spec_emit_on_window_close() == old(self).spec_emit_on_window_close(),
                self.spec_window_col_in_group_key() == old(self).spec_window_col_in_group_key(),
                self.spec_window_col_idx() == old(self).spec_window_col_idx(),
                self.spec_buffer() == old(self).spec_buffer(),
                self.spec_cache() == old(self).spec_cache(),
                self.change_set_view() == old(self).change_set_view(),
                self.spec_buffered_watermarks() == old(self).spec_buffered_watermarks(),
                self.spec_window_watermark() == old(self).spec_window_watermark(),
                self.spec_stats() == old(self).spec_stats(),
                self.spec_result_table().spec_epoch() == Some(barrier.epoch),
                self.spec_result_table().committed_view() == old(self).spec_result_table().committed_view(),
                self.spec_result_table().staged_view() == old(self).spec_result_table().staged_view(),
                self.spec_result_table().commit_log_view() == old(self).spec_result_table().commit_log_view(),
                self.spec_result_table().spec_pk_indices() == old(self).spec_result_table().spec_pk_indices(),
                self.spec_result_table().inv(),
                forall|c2: int|
                    0 <= c2 < n_storages ==> ((#[trigger] self.spec_storages()[c2])
                        matches AggStateStorage::ResultValue <==> storages_pre[c2]
                        matches AggStateStorage::ResultValue),
                forall|c2: int|
                    c <= c2 < n_storages ==> (#[trigger] self.spec_storages()[c2])
                        == storages_pre[c2],
                forall|c2: int|
                    0 <= c2 < c ==> ((#[trigger] self.spec_storages()[c2])
                        matches AggStateStorage::MaterializedInput(t) ==> (storages_pre[c2]
                        matches AggStateStorage::MaterializedInput(t0) ==> t.spec_epoch()
                        == Some(barrier.epoch) && t.committed_view() == t0.committed_view()
                        && t.staged_view() == t0.staged_view() && t.commit_log_view()
                        == t0.commit_log_view() && t.spec_pk_indices() == t0.spec_pk_indices()
                        && t.inv())),
            decreases n_storages - c,
        {
            let is_mat = match &self.storages[c] {
                AggStateStorage::MaterializedInput(_) => true,
                AggStateStorage::ResultValue => false,
            };
            if is_mat {
                let ghost st_before = self.spec_storages();
                let st = self.storages.remove(c);
                match st {
                    AggStateStorage::MaterializedInput(mut t) => {
                        proof {
                            assert(st_before[c as int] == storages_pre[c as int]);
                            assert((#[trigger] old(self).spec_storages()[c as int])
                                == storages_pre[c as int]);
                            assert(old(self).spec_storages()[c as int]
                                matches AggStateStorage::MaterializedInput(t0) && t0 == t);
                        }
                        t.init_epoch(barrier.epoch);
                        self.storages.insert(c, AggStateStorage::MaterializedInput(t));
                    },
                    AggStateStorage::ResultValue => {
                        proof {
                            assert(false);
                        }
                        self.storages.insert(c, st);
                    },
                }
                proof {
                    assert(self.spec_storages() =~= st_before.update(
                        c as int,
                        self.spec_storages()[c as int],
                    ));
                    assert forall|c2: int|
                        c + 1 <= c2 < n_storages implies (#[trigger] self.spec_storages()[c2])
                        == storages_pre[c2] by {
                        assert(self.spec_storages()[c2] == st_before[c2]);
                    }
                }
            }
            c = c + 1;
        }
        self.cache.update_epoch(barrier.epoch.curr);
        proof {
            assert(storages_ok(
                self.spec_storages(),
                Some(barrier.epoch),
                self.group_len() + 1 + self.spec_input_pk_indices().len(),
            )) by {
                assert forall|c2: int|
                    0 <= c2 < self.spec_storages().len() implies ((
                #[trigger] self.spec_storages()[c2])
                    matches AggStateStorage::MaterializedInput(t) ==> t.inv() && t.spec_epoch()
                    == Some(barrier.epoch) && (forall|i: int|
                    0 <= i < t.committed_view().len() ==> (
                    #[trigger] t.committed_view()[i]).1.len() == self.group_len() + 1
                        + self.spec_input_pk_indices().len()) && (forall|i: int|
                    0 <= i < t.staged_view().len() ==> (#[trigger] t.staged_view()[i]).1.len()
                        == self.group_len() + 1 + self.spec_input_pk_indices().len()) && (forall|
                    jq: int,
                |
                    0 <= jq < t.spec_pk_indices().len() ==> (#[trigger] t.spec_pk_indices()[jq])
                        < self.group_len() + 1 + self.spec_input_pk_indices().len())) by {}
            }
        }
        let mut msgs: Vec<Message> = Vec::new();
        msgs.push(Message::Barrier(barrier));
        msgs
    }

    /// Buffer a watermark: one slot per group-key column, refreshed until
    /// the next barrier forwards them; a watermark on the window column
    /// also drives the sort buffer.
    pub fn handle_watermark(&mut self, watermark: Watermark)
        requires
            old(self).inv(),
        ensures
            final(self).inv(),
            final(self).spec_result_table() == old(self).spec_result_table(),
            final(self).spec_storages() == old(self).spec_storages(),
            final(self).spec_cache() == old(self).spec_cache(),
            final(self).spec_buffer() == old(self).spec_buffer(),
            final(self).change_set_view() == old(self).change_set_view(),
            ({
                let gk = old(self).spec_group_key_indices();
                if exists|j: int| 0 <= j < gk.len() && gk[j] == watermark.col_idx {
                    let j = choose|j: int| 0 <= j < gk.len() && gk[j] == watermark.col_idx;
                    &&& (watermark.col_idx == old(self).spec_window_col_idx() ==> final(self).spec_window_watermark() == Some(watermark.val))
                    &&& (watermark.col_idx != old(self).spec_window_col_idx() ==> final(self).spec_window_watermark() == old(self).spec_window_watermark())
                    &&& exists|j2: int|
                        0 <= j2 < gk.len() && gk[j2] == watermark.col_idx && final(self).spec_buffered_watermarks() == old(self).spec_buffered_watermarks()
                            .update(
                            j2,
                            Some(Watermark { col_idx: j2 as usize, val: watermark.val }),
                        )
                } else {
                    &&& final(self).spec_window_watermark() == old(self).spec_window_watermark()
                    &&& final(self).spec_buffered_watermarks() == old(self).spec_buffered_watermarks()
                }
            }),
    {
        let n = self.group_key_indices.len();
        let mut found: Option<usize> = None;
        let mut j: usize = 0;
        while j < n
            invariant
                self == old(self),
                n == self.spec_group_key_indices().len(),
                0 <= j <= n,
                match found {
                    Some(f) => f < n && self.spec_group_key_indices()[f as int]
                        == watermark.col_idx,
                    None => forall|p: int|
                        0 <= p < j ==> (#[trigger] self.spec_group_key_indices()[p])
                            != watermark.col_idx,
                },
            decreases n - j,
        {
            if found.is_none() && self.group_key_indices[j] == watermark.col_idx {
                found = Some(j);
            }
            j = j + 1;
        }
        match found {
            Some(f) => {
                if watermark.col_idx == self.window_col_idx {
                    self.window_watermark = Some(watermark.val);
                }
                let ghost bw = self.spec_buffered_watermarks();
                let _ = self.buffered_watermarks.remove(f);
                self.buffered_watermarks.insert(
                    f,
                    Some(Watermark { col_idx: f, val: watermark.val }),
                );
                proof {
                    assert(self.spec_buffered_watermarks() =~= bw.update(
                        f as int,
                        Some(Watermark { col_idx: f as usize, val: watermark.val }),
                    ));
                }
            },
            None => {
                proof {
                    if exists|j2: int|
                        0 <= j2 < self.spec_group_key_indices().len()
                            && self.spec_group_key_indices()[j2] == watermark.col_idx {
                        let j2 = choose|j2: int|
                            0 <= j2 < self.spec_group_key_indices().len()
                                && self.spec_group_key_indices()[j2] == watermark.col_idx;
                        assert(false);
                    }
                }
            },
        }
    }
}

} // verus!

verus! {

/// A message list of chunk messages built from `chunks` carries exactly
/// the records of `chunks`.
pub proof fn lemma_msgs_all_chunks(msgs: Seq<Message>, chunks: Seq<Chunk>)
    requires
        msgs.len() == chunks.len(),
        forall|p: int|
            0 <= p < msgs.len() ==> ((#[trigger] msgs[p]) matches Message::Chunk(c) && c
                == chunks[p]),
    ensures
        msgs_chunk_records(msgs) == chunks_records(chunks),
    decreases msgs.len(),
{
    if msgs.len() > 0 {
        assert forall|p: int|
            0 <= p < msgs.drop_last().len() implies ((#[trigger] msgs.drop_last()[p])
            matches Message::Chunk(c) && c == chunks.drop_last()[p]) by {
            assert(msgs.drop_last()[p] == msgs[p]);
            assert(chunks.drop_last()[p] == chunks[p]);
        }
        lemma_msgs_all_chunks(msgs.drop_last(), chunks.drop_last());
    }
}

impl HashAggExecutor {
    /// Handle one barrier: flush and commit the epoch, forward the buffered
    /// watermarks (only the window column's under emit-on-window-close),
    /// apply the barrier's mutation — a vnode rebalance that loses an owned
    /// vnode clears the whole group cache — move the cache to the new
    /// epoch, and echo the barrier last.
    pub fn handle_barrier(&mut self, barrier: Barrier) -> (msgs: Vec<Message>)
        requires
            old(self).inv(),
            old(self).spec_result_table().spec_epoch() matches Some(e) && barrier.epoch.prev
                >= e.curr,
            barrier.epoch.prev < barrier.epoch.curr,
            old(self).spec_chunk_size() >= 1,
            old(self).spec_cache().spec_cur_epoch() <= barrier.epoch.curr,
            barrier.mutation matches Some(m) ==> (m matches Mutation::Cache(sizes)
                ==> sizes.inv()),
        ensures
            final(self).inv(),
            final(self).spec_result_table().commit_log_view() == old(self).spec_result_table().commit_log_view().push(barrier.epoch.prev),
            final(self).spec_result_table().spec_epoch() == Some(barrier.epoch),
            forall|c: int|
                0 <= c < final(self).spec_storages().len() ==> ((
                #[trigger] final(self).spec_storages()[c])
                    matches AggStateStorage::MaterializedInput(t) ==> (old(self).spec_storages()[c] matches AggStateStorage::MaterializedInput(t0)
                    ==> t.commit_log_view() == t0.commit_log_view().push(barrier.epoch.prev))),
            final(self).change_set_view().len() == 0,
            final(self).spec_window_watermark() is None,
            final(self).spec_cache().spec_cur_epoch() == barrier.epoch.curr,
            barrier.mutation matches Some(m) ==> (m matches Mutation::UpdateVnodeBitmap(b) ==> (
            spec_cache_may_stale(old(self).spec_result_table().spec_vnodes(), b@) ==> final(self).cache_entries() == Seq::<crate::cache::CacheEntryView<AggGroup>>::empty())),
            barrier.mutation matches Some(m) ==> (m matches Mutation::UpdateVnodeBitmap(b)
                ==> final(self).spec_result_table().spec_vnodes() == b@),
            barrier.mutation matches Some(m) ==> (m matches Mutation::UpdateVnodeBitmap(b)
                ==> forall|c: int|
                    0 <= c < final(self).spec_storages().len() ==> ((
                    #[trigger] final(self).spec_storages()[c])
                        matches AggStateStorage::MaterializedInput(t) ==> t.spec_vnodes()
                        == b@)),
            // the cache size limit follows a resize mutation for this
            // operator's result table and is otherwise untouched
            barrier.mutation matches Some(m) ==> (m matches Mutation::Cache(sizes) ==> final(self).spec_cache().spec_size_limit() == (if sizes@.contains_key(
                old(self).spec_result_table().spec_table_id(),
            ) {
                clamp_cache_size(sizes@[old(self).spec_result_table().spec_table_id()])
            } else {
                old(self).spec_cache().spec_size_limit()
            })),
            (match barrier.mutation {
                Some(m) => !(m matches Mutation::Cache(_)),
                None => true,
            }) ==> final(self).spec_cache().spec_size_limit() == old(self).spec_cache().spec_size_limit(),
            msgs@.len() >= 1,
            msgs@.last() matches Message::Barrier(b2) && b2.epoch == barrier.epoch,
            // the buffered watermarks go downstream after the chunks and
            // before the barrier: at most one per group-key column, and
            // only the window column's under emit-on-window-close
            msgs_kinds_ordered(msgs@),
            old(self).spec_emit_on_window_close() ==> msgs_watermarks(msgs@) == (
            match old(self).spec_buffered_watermarks()[
                old(self).spec_window_col_in_group_key() as int
            ] {
                Some(wm) => seq![wm],
                None => Seq::<Watermark>::empty(),
            }) && final(self).spec_buffered_watermarks() == old(self).spec_buffered_watermarks().update(
                old(self).spec_window_col_in_group_key() as int,
                None,
            ),
            !old(self).spec_emit_on_window_close() ==> msgs_watermarks(msgs@)
                == buffered_present(old(self).spec_buffered_watermarks()) && final(self).spec_buffered_watermarks().len() == old(self).spec_buffered_watermarks().len() && (
            forall|p: int|
                0 <= p < final(self).spec_buffered_watermarks().len() ==> (
                #[trigger] final(self).spec_buffered_watermarks()[p]) is None),
            msgs_chunk_records(msgs@) == ({
                let recs = emitted_records_upto(
                    old(self).cache_entries(),
                    old(self).change_set_view(),
                    old(self).spec_agg_calls(),
                    old(self).change_set_view().len() as int,
                );
                if !old(self).spec_emit_on_window_close() {
                    recs
                } else {
                    let b1 = buffer_after_records(
                        old(self).spec_buffer().buffer_view(),
                        recs,
                        old(self).spec_window_col_in_group_key() as int,
                    );
                    match old(self).spec_window_watermark() {
                        Some(w) => b1.subrange(
                            0,
                            crate::sort_buffer::first_gt(b1, w),
                        ).map_values((|e: (i64, Seq<i64>)| (Op::Insert, e.1))),
                        None => Seq::empty(),
                    }
                }
            }),
    {
        let chunks = self.flush_data(barrier.epoch);
        let ghost chunks_v = chunks@;
        let ghost target_recs = chunks_records(chunks_v);
        let mut chunks = chunks;
        let mut msgs: Vec<Message> = Vec::new();
        while chunks.len() > 0
            invariant
                chunks_v.len() == msgs@.len() + chunks@.len(),
                forall|p: int|
                    0 <= p < msgs@.len() ==> ((#[trigger] msgs@[p]) matches Message::Chunk(c2)
                        && c2 == chunks_v[p]),
                forall|p: int|
                    0 <= p < chunks@.len() ==> (#[trigger] chunks@[p]) == chunks_v[msgs@.len()
                        + p],
                msgs_watermarks(msgs@) == Seq::<Watermark>::empty(),
            decreases chunks.len(),
        {
            proof {
                assert(chunks@[0] == chunks_v[msgs@.len() as int]);
            }
            let ghost m_before = msgs@;
            let c2 = chunks.remove(0);
            msgs.push(Message::Chunk(c2));
            proof {
                assert(msgs@.drop_last() =~= m_before);
                assert(msgs_watermarks(msgs@) =~= Seq::<Watermark>::empty());
            }
        }
        proof {
            lemma_msgs_all_chunks(msgs@, chunks_v);
            assert(msgs_chunk_records(msgs@) == target_recs);
        }
        let ghost flushed = *self;
        let ghost msgs_c = msgs@;
        let ghost bw0 = self.spec_buffered_watermarks();
        proof {
            assert(bw0 == old(self).spec_buffered_watermarks());
        }

        // forward the buffered watermarks: all of them under emit-on-update,
        // only the window column's under emit-on-window-close
        if self.emit_on_window_close {
            let w = self.window_col_idx_in_group_key;
            let slot = self.buffered_watermarks.remove(w);
            self.buffered_watermarks.insert(w, None);
            proof {
                assert(self.spec_buffered_watermarks() =~= bw0.update(w as int, None));
                assert(slot == bw0[w as int]);
            }
            match slot {
                Some(wm) => {
                    let ghost m_before = msgs@;
                    msgs.push(Message::Watermark(wm));
                    proof {
                        assert(msgs@.drop_last() =~= m_before);
                        assert(msgs_chunk_records(msgs@) == target_recs);
                        assert(msgs_watermarks(msgs@) =~= seq![wm]);
                    }
                },
                None => {},
            }
        } else {
            let nw = self.buffered_watermarks.len();
            proof {
                assert(bw0.subrange(0, 0) =~= Seq::<Option<Watermark>>::empty());
                assert(buffered_present(bw0.subrange(0, 0)) =~= Seq::<Watermark>::empty());
            }
            let mut wj: usize = 0;
            while wj < nw
                invariant
                    0 <= wj <= nw,
                    nw == self.spec_buffered_watermarks().len() == bw0.len(),
                    *self == (HashAggExecutor {
                        buffered_watermarks: self.buffered_watermarks,
                        ..flushed
                    }),
                    flushed.spec_buffered_watermarks() == bw0,
                    forall|p: int|
                        0 <= p < wj ==> (#[trigger] self.spec_buffered_watermarks()[p]) is None,
                    forall|p: int|
                        wj <= p < nw ==> (#[trigger] self.spec_buffered_watermarks()[p])
                            == bw0[p],
                    msgs_chunk_records(msgs@) == target_recs,
                    msgs_watermarks(msgs@) == buffered_present(bw0.subrange(0, wj as int)),
                    msgs@.len() >= msgs_c.len(),
                    forall|p: int|
                        0 <= p < msgs_c.len() ==> ((#[trigger] msgs@[p])
                            matches Message::Chunk(_)),
                    forall|p: int|
                        msgs_c.len() <= p < msgs@.len() ==> ((#[trigger] msgs@[p])
                            matches Message::Watermark(_)),
                    forall|p: int|
                        0 <= p < msgs@.len() ==> !((#[trigger] msgs@[p])
                            matches Message::Barrier(_)),
                decreases nw - wj,
            {
                let ghost bw = self.spec_buffered_watermarks();
                let slot = self.buffered_watermarks.remove(wj);
                self.buffered_watermarks.insert(wj, None);
                proof {
                    assert(self.spec_buffered_watermarks() =~= bw.update(wj as int, None));
                    assert(slot == bw0[wj as int]);
                    assert(bw0.subrange(0, wj + 1).drop_last() =~= bw0.subrange(0, wj as int));
                    assert(bw0.subrange(0, wj + 1).last() == bw0[wj as int]);
                }
                match slot {
                    Some(wm) => {
                        let ghost m_before = msgs@;
                        msgs.push(Message::Watermark(wm));
                        proof {
                            assert(msgs@.drop_last() =~= m_before);
                            assert(msgs_chunk_records(msgs@) == target_recs);
                            assert(msgs_watermarks(msgs@) =~= buffered_present(
                                bw0.subrange(0, wj + 1),
                            ));
                        }
                    },
                    None => {
                        proof {
                            assert(msgs_watermarks(msgs@) =~= buffered_present(
                                bw0.subrange(0, wj + 1),
                            ));
                        }
                    },
                }
                wj = wj + 1;
            }
            proof {
                assert(bw0.subrange(0, nw as int) =~= bw0);
                assert(msgs_watermarks(msgs@) == buffered_present(bw0));
            }
        }

        // apply the barrier's mutation
        match &barrier.mutation {
            Some(m) => {
                match m {
                    Mutation::UpdateVnodeBitmap(b) => {
                        let new_bits = crate::rows::copy_bool_vec(b);
                        let prev = self.result_table.update_vnode_bitmap(new_bits);
                        let n_storages = self.storages.len();
                        let ghost storages_pre = self.spec_storages();
                        let ghost self_pre = *self;
                        let mut c6: usize = 0;
                        while c6 < n_storages
                            invariant
                                0 <= c6 <= n_storages,
                                self_pre.inv(),
                                storages_pre == self_pre.spec_storages(),
                                n_storages == self.spec_storages().len() == storages_pre.len(),
                                *self == (HashAggExecutor { storages: self.storages, ..self_pre }),
                                forall|c2: int|
                                    c6 <= c2 < n_storages ==> (
                                    #[trigger] self.spec_storages()[c2]) == storages_pre[c2],
                                forall|c2: int|
                                    0 <= c2 < n_storages ==> ((
                                    #[trigger] self.spec_storages()[c2])
                                        matches AggStateStorage::ResultValue <==> storages_pre[c2]
                                        matches AggStateStorage::ResultValue),
                                forall|c2: int|
                                    0 <= c2 < c6 ==> ((#[trigger] self.spec_storages()[c2])
                                        matches AggStateStorage::MaterializedInput(t) ==> (
                                    storages_pre[c2]
                                        matches AggStateStorage::MaterializedInput(t0) ==> (
                                    t.committed_view() == t0.committed_view()
                                        && t.staged_view() == t0.staged_view()
                                        && t.commit_log_view() == t0.commit_log_view()
                                        && t.spec_epoch() == t0.spec_epoch()
                                        && t.spec_pk_indices() == t0.spec_pk_indices()
                                        && t.spec_vnodes() == b@ && t.inv()))),
                            decreases n_storages - c6,
                        {
                            let is_mat = match &self.storages[c6] {
                                AggStateStorage::MaterializedInput(_) => true,
                                AggStateStorage::ResultValue => false,
                            };
                            if is_mat {
                                let ghost st_before = self.spec_storages();
                                let st = self.storages.remove(c6);
                                match st {
                                    AggStateStorage::MaterializedInput(mut t) => {
                                        proof {
                                            assert(st_before[c6 as int]
                                                == storages_pre[c6 as int]);
                                            assert((#[trigger] self_pre.spec_storages()[
                                                c6 as int
                                            ]) == storages_pre[c6 as int]);
                                            assert(self_pre.spec_storages()[c6 as int]
                                                matches AggStateStorage::MaterializedInput(t0)
                                                && t0 == t);
                                        }
                                        let bits2 = crate::rows::copy_bool_vec(b);
                                        let _ = t.update_vnode_bitmap(bits2);
                                        self.storages.insert(
                                            c6,
                                            AggStateStorage::MaterializedInput(t),
                                        );
                                    },
                                    AggStateStorage::ResultValue => {
                                        proof {
                                            assert(false);
                                        }
                                        self.storages.insert(c6, st);
                                    },
                                }
                                proof {
                                    assert(self.spec_storages() =~= st_before.update(
                                        c6 as int,
                                        self.spec_storages()[c6 as int],
                                    ));
                                    assert forall|c2: int|
                                        c6 + 1 <= c2 < n_storages implies (
                                    #[trigger] self.spec_storages()[c2]) == storages_pre[c2] by {
                                        assert(self.spec_storages()[c2] == st_before[c2]);
                                    }
                                }
                            }
                            c6 = c6 + 1;
                        }
                        proof {
                            assert forall|c2: int|
                                0 <= c2 < self.spec_storages().len() implies ((
                            #[trigger] self.spec_storages()[c2])
                                matches AggStateStorage::MaterializedInput(t) ==> t.spec_vnodes()
                                == b@) by {
                                assert((#[trigger] storages_pre[c2]) == storages_pre[c2]);
                            }
                        }
                        if crate::state_table::cache_may_stale(&prev, b) {
                            self.cache.clear();
                            let ghost cs_now = self.change_set_view();
                            proof {
                                assert(change_set_ok(cs_now, self.cache_entries())) by {
                                    assert(cs_now.len() == 0);
                                }
                                assert(groups_wf(
                                    self.cache_entries(),
                                    self.n_calls(),
                                    self.group_len(),
                                    self.spec_row_count_index(),
                                )) by {
                                    assert(self.cache_entries().len() == 0);
                                }
                            }
                        }
                    },
                    Mutation::Cache(sizes) => {
                        let tid = self.result_table.table_id();
                        match sizes.get(tid) {
                            Some(sz) => {
                                let lim: usize = if *sz > usize::MAX as u64 {
                                    usize::MAX
                                } else {
                                    *sz as usize
                                };
                                self.cache.update_size_limit(lim);
                            },
                            None => {},
                        }
                    },
                    Mutation::Stop => {},
                }
            },
            None => {},
        }

        // enter the new epoch
        self.cache.update_epoch(barrier.epoch.curr);
        let ghost m_before = msgs@;
        msgs.push(Message::Barrier(barrier));
        proof {
            assert(msgs@.drop_last() =~= m_before);
            assert(msgs_chunk_records(msgs@) == target_recs);
            assert(msgs@.last() matches Message::Barrier(b2) && b2.epoch == barrier.epoch);
        }
        msgs
    }
}

} // verus!

verus! {

/// Eviction under epoch pressure leaves a suffix of the entries.
pub proof fn lemma_evict_except_is_suffix<V>(
    s: crate::cache::CacheStateView<V>,
    limit: int,
    cap: int,
    epoch: u64,
)
    ensures
        crate::cache::spec_evict_except(s, limit, cap, epoch).0.len() <= s.0.len(),
        ({
            let r = crate::cache::spec_evict_except(s, limit, cap, epoch);
            r.0 == s.0.subrange(s.0.len() - r.0.len(), s.0.len() as int)
        }),
    decreases s.0.len(),
{
    let r = crate::cache::spec_evict_except(s, limit, cap, epoch);
    if s.0.len() <= limit || s.0.len() == 0 || s.0[0].2 >= epoch {
        assert(r.0 =~= s.0.subrange(s.0.len() - r.0.len(), s.0.len() as int));
    } else {
        let s1 = crate::cache::evict_one(s, cap);
        lemma_evict_except_is_suffix(s1, limit, cap, epoch);
        assert(s1.0 =~= s.0.subrange(1, s.0.len() as int));
        assert(r.0.len() <= s1.0.len());
        assert(s1.0.subrange(s1.0.len() - r.0.len(), s1.0.len() as int) =~= s.0.subrange(
            s.0.len() - r.0.len(),
            s.0.len() as int,
        ));
        assert(r.0 =~= s.0.subrange(s.0.len() - r.0.len(), s.0.len() as int));
    }
}

impl HashAggExecutor {
    /// Drive the operator with one message. A chunk is applied to the
    /// group states, a watermark is buffered, a barrier flushes and
    /// commits the epoch; the returned messages go downstream in order.
    /// Cache pressure built up since the last barrier is relieved at the
    /// start of an epoch's work, so entries touched in the current epoch
    /// are never evicted between barriers.
    pub fn handle_message(&mut self, msg: Message) -> (msgs: Vec<Message>)
        requires
            old(self).inv(),
            old(self).spec_chunk_size() >= 1,
            old(self).spec_result_table().spec_epoch() is Some,
            msg matches Message::Chunk(chunk) ==> {
                &&& chunk.ops@.len() == chunk.rows@.len()
                &&& (chunk.visibility matches Some(v) ==> v@.len() == chunk.ops@.len())
                &&& forall|i: int, j: int|
                    0 <= i < chunk.rows@.len() && 0 <= j < old(self).spec_group_key_indices().len() ==> (#[trigger] old(self).spec_group_key_indices()[j]) < (#[trigger] chunk.rows@[i])@.len()
                &&& forall|i: int, j: int|
                    0 <= i < chunk.rows@.len() && 0 <= j < old(self).spec_input_pk_indices().len() ==> (#[trigger] old(self).spec_input_pk_indices()[j]) < (#[trigger] chunk.rows@[i])@.len()
                &&& forall|i: int, c: int|
                    0 <= i < chunk.rows@.len() && 0 <= c < old(self).n_calls() ==> (
                    #[trigger] old(self).spec_agg_calls()[c]).arg_col < (
                    #[trigger] chunk.rows@[i])@.len()
                &&& forall|i: int, c: int|
                    0 <= i < chunk.rows@.len() && 0 <= c < old(self).n_calls() ==> ((
                    #[trigger] old(self).spec_agg_calls()[c]).filter_col matches Some(f) ==> f
                        < (#[trigger] chunk.rows@[i])@.len())
            },
            msg matches Message::Barrier(b) ==> {
                &&& old(self).spec_result_table().spec_epoch() matches Some(e) && b.epoch.prev
                    >= e.curr
                &&& b.epoch.prev < b.epoch.curr
                &&& old(self).spec_cache().spec_cur_epoch() <= b.epoch.curr
                &&& (b.mutation matches Some(m) ==> (m matches Mutation::Cache(sizes)
                    ==> sizes.inv()))
            },
        ensures
            final(self).inv(),
            // a watermark is buffered; nothing is emitted or committed
            msg matches Message::Watermark(w) ==> {
                &&& msgs@.len() == 0
                &&& final(self).spec_result_table() == old(self).spec_result_table()
                &&& final(self).spec_storages() == old(self).spec_storages()
                &&& final(self).spec_buffer() == old(self).spec_buffer()
                &&& final(self).change_set_view() == old(self).change_set_view()
                &&& final(self).cache_entries() == entries_after_pressure(*old(self))
                &&& ({
                    let gk = old(self).spec_group_key_indices();
                    if exists|j: int| 0 <= j < gk.len() && gk[j] == w.col_idx {
                        &&& (w.col_idx == old(self).spec_window_col_idx() ==> final(self).spec_window_watermark() == Some(w.val))
                        &&& (w.col_idx != old(self).spec_window_col_idx() ==> final(self).spec_window_watermark() == old(self).spec_window_watermark())
                        &&& exists|j2: int|
                            0 <= j2 < gk.len() && gk[j2] == w.col_idx && final(self).spec_buffered_watermarks() == old(self).spec_buffered_watermarks().update(
                                j2,
                                Some(Watermark { col_idx: j2 as usize, val: w.val }),
                            )
                    } else {
                        &&& final(self).spec_window_watermark() == old(self).spec_window_watermark()
                        &&& final(self).spec_buffered_watermarks() == old(self).spec_buffered_watermarks()
                    }
                })
            },
            // a chunk is folded into its groups' states; nothing is emitted
            // or committed
            msg matches Message::Chunk(chunk) ==> {
                &&& msgs@.len() == 0
                &&& final(self).spec_result_table() == old(self).spec_result_table()
                &&& forall|c: int|
                    0 <= c < final(self).spec_storages().len() ==> ((
                    #[trigger] final(self).spec_storages()[c])
                        matches AggStateStorage::MaterializedInput(t) ==> (old(self).spec_storages()[c] matches AggStateStorage::MaterializedInput(t0) ==> t
                        .commit_log_view() == t0.commit_log_view() && t.committed_view()
                        == t0.committed_view() && t.spec_epoch() == t0.spec_epoch()))
                &&& spec_chunk_outcome(
                    entries_after_pressure(*old(self)),
                    old(self).spec_agg_calls(),
                    old(self).spec_group_key_indices(),
                    old(self).spec_input_pk_indices(),
                    old(self).spec_storages(),
                    old(self).spec_result_table(),
                    old(self).group_len(),
                    &chunk,
                    final(self).cache_entries(),
                    final(self).change_set_view(),
                )
                &&& forall|k: Seq<i64>|
                    old(self).change_set_view().contains(k) ==> final(self).change_set_view().contains(k)
            },
            // a barrier flushes and commits the epoch
            msg matches Message::Barrier(b) ==> final(self).spec_result_table().commit_log_view()
                == old(self).spec_result_table().commit_log_view().push(b.epoch.prev) && final(self).spec_result_table().spec_epoch() == Some(b.epoch) && msgs@.len() >= 1 && (
            msgs@.last() matches Message::Barrier(b2) && b2.epoch == b.epoch),
    {
        if self.change_set.len() == 0 {
            let ghost pre = self.spec_cache();
            self.cache.evict_except_cur_epoch();
            proof {
                lemma_evict_except_is_suffix(
                    pre.state_view(),
                    pre.spec_size_limit() as int,
                    pre.spec_ghost_cap() as int,
                    pre.spec_cur_epoch(),
                );
                let before = pre.entries_view();
                let cur = self.cache_entries();
                assert forall|jj: int|
                    0 <= jj < cur.len() implies one_group_wf(
                    (#[trigger] cur[jj]).0,
                    cur[jj].1,
                    self.n_calls(),
                    self.group_len(),
                    self.spec_row_count_index(),
                ) by {
                    assert(cur[jj] == before[before.len() - cur.len() + jj]);
                }
                assert(change_set_ok(self.change_set_view(), cur)) by {
                    assert(self.change_set_view().len() == 0);
                }
            }
        }
        let ghost mid = *self;
        proof {
            assert(mid.cache_entries() == entries_after_pressure(*old(self)));
            assert(mid.spec_result_table() == old(self).spec_result_table());
            assert(mid.spec_storages() == old(self).spec_storages());
            assert(mid.spec_agg_calls() == old(self).spec_agg_calls());
            assert(mid.spec_group_key_indices() == old(self).spec_group_key_indices());
            assert(mid.spec_input_pk_indices() == old(self).spec_input_pk_indices());
            assert(mid.change_set_view() == old(self).change_set_view());
            assert(mid.spec_buffer() == old(self).spec_buffer());
            assert(mid.spec_window_watermark() == old(self).spec_window_watermark());
            assert(mid.spec_buffered_watermarks() == old(self).spec_buffered_watermarks());
            assert(mid.spec_window_col_idx() == old(self).spec_window_col_idx());
        }
        match msg {
            Message::Watermark(w) => {
                self.handle_watermark(w);
                Vec::new()
            },
            Message::Chunk(chunk) => {
                self.apply_chunk(&chunk);
                proof {
                    assert(spec_chunk_outcome(
                        entries_after_pressure(*old(self)),
                        old(self).spec_agg_calls(),
                        old(self).spec_group_key_indices(),
                        old(self).spec_input_pk_indices(),
                        old(self).spec_storages(),
                        old(self).spec_result_table(),
                        old(self).group_len(),
                        &chunk,
                        self.cache_entries(),
                        self.change_set_view(),
                    )) by {
                        assert(spec_chunk_outcome(
                            mid.cache_entries(),
                            mid.spec_agg_calls(),
                            mid.spec_group_key_indices(),
                            mid.spec_input_pk_indices(),
                            mid.spec_storages(),
                            mid.spec_result_table(),
                            mid.group_len(),
                            &chunk,
                            self.cache_entries(),
                            self.change_set_view(),
                        ));
                    }
                }
                Vec::new()
            },
            Message::Barrier(b) => self.handle_barrier(b),
        }
    }
}

} // verus!

verus! {

/// Replaying the same chunks after recovery yields the same results:
/// hydration from the committed result and materialized-input tables pins
/// the group state, and chunk application and change building are
/// functions of that state, so two groups recovered from equal committed
/// state agree on every later state and on every emitted change.
pub proof fn lemma_replay_deterministic(
    g1: &AggGroup,
    g2: &AggGroup,
    key: Seq<i64>,
    calls: Seq<AggCall>,
    storages: Seq<AggStateStorage>,
    result_table: StateTable,
    rc_idx: usize,
    pk_indices: Seq<usize>,
    ops: Seq<Op>,
    rows: Seq<Seq<i64>>,
    vis: Seq<Seq<bool>>,
    n: int,
)
    requires
        crate::agg::is_hydrated_group(g1, key, calls, storages, result_table, rc_idx),
        crate::agg::is_hydrated_group(g2, key, calls, storages, result_table, rc_idx),
    ensures
        g1.states_view() == g2.states_view(),
        g1.spec_prev_output() == g2.spec_prev_output(),
        crate::agg::apply_rows_up_to(g1.states_view(), calls, pk_indices, ops, rows, vis, n)
            == crate::agg::apply_rows_up_to(g2.states_view(), calls, pk_indices, ops, rows, vis, n),
        change_records(key, *g1, calls) == change_records(key, *g2, calls),
{
    assert(g1.states_view() =~= g2.states_view());
}

} // verus!

verus! {

impl HashAggExecutor {
    /// How many groups the cache holds.
    pub fn cached_group_count(&self) -> (r: usize)
        ensures
            r == self.cache_entries().len(),
    {
        self.cache.len()
    }

    /// The result table, for inspection.
    pub fn result_table(&self) -> (r: &StateTable)
        ensures
            *r == self.spec_result_table(),
    {
        &self.result_table
    }
}

} // verus!
