//! Scenarios for the hash-aggregation operator, its cache and its tables.

use stream_core::agg::{AggCall, AggKind, AggStateStorage};
use stream_core::cache::IndexedLruCache;
use stream_core::hash_agg::{Barrier, Chunk, HashAggExecutor, Message, Mutation, Watermark};
use stream_core::state_table::{EpochPair, Op, StateTable};
use stream_core::tracker::BarrierKind;

/// An operator over rows `[group, value, pk]`: count, sum(value),
/// min(value), max(value), grouped by column 0.
fn build_executor(emit_on_window_close: bool) -> HashAggExecutor {
    let agg_calls = vec![
        AggCall { kind: AggKind::Count, arg_col: 0, filter_col: None },
        AggCall { kind: AggKind::Sum, arg_col: 1, filter_col: None },
        AggCall { kind: AggKind::Min, arg_col: 1, filter_col: None },
        AggCall { kind: AggKind::Max, arg_col: 1, filter_col: None },
    ];
    let storages = vec![
        AggStateStorage::ResultValue,
        AggStateStorage::ResultValue,
        AggStateStorage::MaterializedInput(StateTable::new(
            11,
            vec![0, 1, 2],
            vec![true, true],
        )),
        AggStateStorage::MaterializedInput(StateTable::new(
            12,
            vec![0, 1, 2],
            vec![true, true],
        )),
    ];
    let result_table = StateTable::new(10, vec![0], vec![true, true]);
    HashAggExecutor::new(
        vec![2],
        vec![0],
        agg_calls,
        0,
        storages,
        result_table,
        100,
        emit_on_window_close,
        1000,
    )
    .expect("result table pk must be the group key")
}

fn barrier(prev: u64, curr: u64, mutation: Option<Mutation>) -> Barrier {
    Barrier { epoch: EpochPair { prev, curr }, kind: BarrierKind::Checkpoint, mutation }
}

fn chunk(rows: &[(Op, [i64; 3])]) -> Chunk {
    Chunk {
        ops: rows.iter().map(|(op, _)| *op).collect(),
        rows: rows.iter().map(|(_, r)| r.to_vec()).collect(),
        visibility: None,
    }
}

fn emitted_rows(msgs: &[Message]) -> Vec<(Op, Vec<i64>)> {
    let mut out = Vec::new();
    for m in msgs {
        if let Message::Chunk(c) = m {
            for i in 0..c.ops.len() {
                out.push((c.ops[i], c.rows[i].clone()));
            }
        }
    }
    out
}

#[test]
fn emit_on_update_basic_flow() {
    let mut op = build_executor(false);
    let first = op.handle_first_barrier(barrier(0, 1, None));
    assert_eq!(first.len(), 1);

    // two rows of group 1, one of group 2
    let out = op.handle_message(Message::Chunk(chunk(&[
        (Op::Insert, [1, 10, 100]),
        (Op::Insert, [1, 4, 101]),
        (Op::Insert, [2, 7, 102]),
    ])));
    assert_eq!(out.len(), 0);

    let msgs = op.handle_message(Message::Barrier(barrier(1, 2, None)));
    let rows = emitted_rows(&msgs);
    assert_eq!(rows.len(), 2);
    // rows are `[group, count, sum, min, max]`
    assert_eq!(rows[0], (Op::Insert, vec![1, 2, 14, 4, 10]));
    assert_eq!(rows[1], (Op::Insert, vec![2, 1, 7, 7, 7]));
    assert_eq!(op.result_table().commit_count(), 1);

    // a retraction of the minimum reveals the next smallest value
    op.handle_message(Message::Chunk(chunk(&[(Op::Delete, [1, 4, 101])])));
    let msgs = op.handle_message(Message::Barrier(barrier(2, 3, None)));
    let rows = emitted_rows(&msgs);
    assert_eq!(rows.len(), 2);
    assert_eq!(rows[0], (Op::UpdateDelete, vec![1, 2, 14, 4, 10]));
    assert_eq!(rows[1], (Op::UpdateInsert, vec![1, 1, 10, 10, 10]));
    assert_eq!(op.result_table().commit_count(), 2);

    // deleting the last row of a group retracts its output
    op.handle_message(Message::Chunk(chunk(&[(Op::Delete, [2, 7, 102])])));
    let msgs = op.handle_message(Message::Barrier(barrier(3, 4, None)));
    let rows = emitted_rows(&msgs);
    assert_eq!(rows, vec![(Op::Delete, vec![2, 1, 7, 7, 7])]);
}

#[test]
fn unchanged_groups_emit_nothing() {
    let mut op = build_executor(false);
    op.handle_first_barrier(barrier(0, 1, None));
    let msgs = op.handle_message(Message::Barrier(barrier(1, 2, None)));
    assert_eq!(emitted_rows(&msgs).len(), 0);
    // an epoch without changes still seals the epoch exactly once
    assert_eq!(op.result_table().commit_count(), 1);
}

#[test]
fn eowc_window_emission() {
    let mut op = build_executor(true);
    op.handle_first_barrier(barrier(0, 1, None));
    // group key has the window column at index 0
    op.handle_message(Message::Chunk(chunk(&[
        (Op::Insert, [10, 1, 100]),
        (Op::Insert, [20, 2, 101]),
        (Op::Insert, [30, 3, 102]),
        (Op::Insert, [40, 4, 103]),
    ])));
    // watermark 25 on the window column arrives before the barrier
    op.handle_message(Message::Watermark(Watermark { col_idx: 0, val: 25 }));
    let msgs = op.handle_message(Message::Barrier(barrier(1, 2, None)));
    let rows = emitted_rows(&msgs);
    // exactly the windows at or below 25 are released, in ascending order
    assert_eq!(rows.len(), 2);
    assert_eq!(rows[0], (Op::Insert, vec![10, 1, 1, 1, 1]));
    assert_eq!(rows[1], (Op::Insert, vec![20, 1, 2, 2, 2]));

    // the released rows also left the result table; the others remain
    assert!(op.result_table().get_committed(&vec![10]).is_none());
    assert!(op.result_table().get_committed(&vec![20]).is_none());
    assert!(op.result_table().get_committed(&vec![30]).is_some());
    assert!(op.result_table().get_committed(&vec![40]).is_some());

    // pushing the watermark past the rest releases them too
    op.handle_message(Message::Watermark(Watermark { col_idx: 0, val: 50 }));
    let msgs = op.handle_message(Message::Barrier(barrier(2, 3, None)));
    let rows = emitted_rows(&msgs);
    assert_eq!(rows.len(), 2);
    assert_eq!(rows[0], (Op::Insert, vec![30, 1, 3, 3, 3]));
    assert_eq!(rows[1], (Op::Insert, vec![40, 1, 4, 4, 4]));
}

#[test]
fn vnode_rebalance_staleness() {
    let mut op = build_executor(false);
    op.handle_first_barrier(barrier(0, 1, None));
    op.handle_message(Message::Chunk(chunk(&[(Op::Insert, [1, 10, 100])])));
    let msgs = op.handle_message(Message::Barrier(barrier(1, 2, None)));
    assert_eq!(emitted_rows(&msgs).len(), 1);
    assert_eq!(op.cached_group_count(), 1);

    // losing vnode 1 makes cached entries potentially stale: all are dropped
    let msgs = op.handle_message(Message::Barrier(barrier(
        2,
        3,
        Some(Mutation::UpdateVnodeBitmap(vec![true, false])),
    )));
    assert!(matches!(msgs.last(), Some(Message::Barrier(_))));
    assert_eq!(op.cached_group_count(), 0);
}

#[test]
fn cache_size_mutation_resizes_cache() {
    let mut op = build_executor(false);
    op.handle_first_barrier(barrier(0, 1, None));
    for g in 0..8i64 {
        op.handle_message(Message::Chunk(chunk(&[(Op::Insert, [g, 1, 200 + g])])));
    }
    op.handle_message(Message::Barrier(barrier(1, 2, None)));
    assert_eq!(op.cached_group_count(), 8);
    let mut sizes = stream_core::VecMap::new();
    sizes.insert(10u32, 3u64);
    op.handle_message(Message::Barrier(barrier(2, 3, Some(Mutation::Cache(sizes)))));
    // the new limit takes effect at the next flush's eviction
    op.handle_message(Message::Chunk(chunk(&[(Op::Insert, [0, 1, 300])])));
    op.handle_message(Message::Barrier(barrier(3, 4, None)));
    assert!(op.cached_group_count() <= 3);
}

#[test]
fn replay_is_deterministic() {
    // two operators fed the same chunk and barrier sequence emit exactly
    // the same records
    let inputs = [
        vec![(Op::Insert, [1i64, 10, 100]), (Op::Insert, [2, 5, 101])],
        vec![(Op::Insert, [1, 1, 102]), (Op::Delete, [2, 5, 101])],
    ];
    let mut op1 = build_executor(false);
    op1.handle_first_barrier(barrier(0, 1, None));
    let mut emissions1 = Vec::new();
    let mut epoch = 1;
    for input in &inputs {
        op1.handle_message(Message::Chunk(chunk(input)));
        let msgs = op1.handle_message(Message::Barrier(barrier(epoch, epoch + 1, None)));
        emissions1.push(emitted_rows(&msgs));
        epoch += 1;
    }

    let mut op2 = build_executor(false);
    op2.handle_first_barrier(barrier(0, 1, None));
    let mut emissions2 = Vec::new();
    let mut epoch = 1;
    for input in &inputs {
        op2.handle_message(Message::Chunk(chunk(input)));
        let msgs = op2.handle_message(Message::Barrier(barrier(epoch, epoch + 1, None)));
        emissions2.push(emitted_rows(&msgs));
        epoch += 1;
    }
    assert_eq!(emissions1, emissions2);
}

#[test]
fn cache_ghost_hit_reports_reuse_distance() {
    let mut cache: IndexedLruCache<u64> = IndexedLruCache::new(100, 1000, 10);
    for k in 1..=300i64 {
        cache.put(vec![k], k as u64);
        cache.evict();
    }
    // the cache kept the 100 most recent keys; 200 keys were evicted
    assert_eq!(cache.len(), 100);
    assert!(cache.ghost_len() <= cache.ghost_cap());
    let (exist, dis) = cache.contains_sampled(&vec![1], false);
    assert!(!exist);
    let (distance, is_ghost) = dis.expect("key 1 must be in the ghost ring");
    assert!(is_ghost);
    assert!(distance >= 200);
}

#[test]
fn evict_respects_size_limit() {
    let mut cache: IndexedLruCache<u64> = IndexedLruCache::new(10, 5, 10);
    for k in 0..50i64 {
        cache.put(vec![k], k as u64);
    }
    cache.evict();
    assert!(cache.len() <= 10);
    assert!(cache.ghost_len() <= 5);
    // the most recently used entries survive
    let (exist, _) = cache.contains_sampled(&vec![49], false);
    assert!(exist);
    let (exist, _) = cache.contains_sampled(&vec![0], false);
    assert!(!exist);
}

#[test]
fn state_table_commits_buffered_writes() {
    let mut t = StateTable::new(1, vec![0], vec![true]);
    t.init_epoch(EpochPair { prev: 0, curr: 1 });
    t.write_record(Op::Insert, vec![7, 70]);
    assert!(t.get_committed(&vec![7]).is_none());
    t.commit(EpochPair { prev: 1, curr: 2 });
    assert_eq!(t.get_committed(&vec![7]), Some(&vec![7, 70]));
    t.write_record(Op::Delete, vec![7, 70]);
    t.commit(EpochPair { prev: 2, curr: 3 });
    assert!(t.get_committed(&vec![7]).is_none());
    assert_eq!(t.commit_count(), 2);
}

#[test]
fn watermarks_are_buffered_until_the_barrier() {
    let mut op = build_executor(false);
    op.handle_first_barrier(barrier(0, 1, None));
    // two watermarks on the same group-key column before the barrier:
    // downstream sees only the freshest one, after the barrier's chunks
    let out = op.handle_message(Message::Watermark(Watermark { col_idx: 0, val: 5 }));
    assert!(out.is_empty());
    op.handle_message(Message::Watermark(Watermark { col_idx: 0, val: 8 }));
    // a watermark on a column outside the group key is dropped
    op.handle_message(Message::Watermark(Watermark { col_idx: 1, val: 99 }));
    let msgs = op.handle_message(Message::Barrier(barrier(1, 2, None)));
    let watermarks: Vec<i64> = msgs
        .iter()
        .filter_map(|m| match m {
            Message::Watermark(w) => Some(w.val),
            _ => None,
        })
        .collect();
    assert_eq!(watermarks, vec![8]);
    // the next barrier forwards nothing: the slot was drained
    let msgs = op.handle_message(Message::Barrier(barrier(2, 3, None)));
    assert!(msgs.iter().all(|m| !matches!(m, Message::Watermark(_))));
}

#[test]
fn filter_column_masks_rows_per_call() {
    // sum only the rows whose filter column (2) is nonzero; count them all
    let agg_calls = vec![
        AggCall { kind: AggKind::Count, arg_col: 0, filter_col: None },
        AggCall { kind: AggKind::Sum, arg_col: 1, filter_col: Some(2) },
    ];
    let storages = vec![AggStateStorage::ResultValue, AggStateStorage::ResultValue];
    let result_table = StateTable::new(10, vec![0], vec![true]);
    let mut op = HashAggExecutor::new(
        vec![2],
        vec![0],
        agg_calls,
        0,
        storages,
        result_table,
        100,
        false,
        1000,
    )
    .unwrap();
    op.handle_first_barrier(barrier(0, 1, None));
    op.handle_message(Message::Chunk(chunk(&[
        (Op::Insert, [1, 10, 1]),
        (Op::Insert, [1, 20, 0]),
        (Op::Insert, [1, 30, 1]),
    ])));
    let msgs = op.handle_message(Message::Barrier(barrier(1, 2, None)));
    let rows = emitted_rows(&msgs);
    assert_eq!(rows, vec![(Op::Insert, vec![1, 3, 40])]);
}

#[test]
fn chunk_visibility_masks_rows() {
    let mut op = build_executor(false);
    op.handle_first_barrier(barrier(0, 1, None));
    let masked = Chunk {
        ops: vec![Op::Insert, Op::Insert],
        rows: vec![vec![1, 10, 100], vec![1, 99, 101]],
        visibility: Some(vec![true, false]),
    };
    op.handle_message(Message::Chunk(masked));
    let msgs = op.handle_message(Message::Barrier(barrier(1, 2, None)));
    let rows = emitted_rows(&msgs);
    assert_eq!(rows, vec![(Op::Insert, vec![1, 1, 10, 10, 10])]);
}

#[test]
fn chunks_split_at_the_chunk_size() {
    let agg_calls = vec![AggCall { kind: AggKind::Count, arg_col: 0, filter_col: None }];
    let storages = vec![AggStateStorage::ResultValue];
    let result_table = StateTable::new(10, vec![0], vec![true]);
    let mut op = HashAggExecutor::new(
        vec![1],
        vec![0],
        agg_calls,
        0,
        storages,
        result_table,
        2,
        false,
        1000,
    )
    .unwrap();
    op.handle_first_barrier(barrier(0, 1, None));
    let rows: Vec<(Op, [i64; 2])> = (0..5i64).map(|g| (Op::Insert, [g, g])).collect();
    let c = Chunk {
        ops: rows.iter().map(|(op2, _)| *op2).collect(),
        rows: rows.iter().map(|(_, r)| r.to_vec()).collect(),
        visibility: None,
    };
    op.handle_message(Message::Chunk(c));
    let msgs = op.handle_message(Message::Barrier(barrier(1, 2, None)));
    let mut chunk_sizes = Vec::new();
    for m in &msgs {
        if let Message::Chunk(c2) = m {
            chunk_sizes.push(c2.ops.len());
        }
    }
    assert_eq!(chunk_sizes, vec![2, 2, 1]);
}

#[test]
fn permuted_key_prefix_is_supported() {
    let agg_calls = vec![AggCall { kind: AggKind::Count, arg_col: 0, filter_col: None }];
    let storages = vec![AggStateStorage::ResultValue];
    // the table key is the group key in swapped order
    let result_table = StateTable::new(10, vec![1, 0], vec![true]);
    let mut op = HashAggExecutor::new(
        vec![2],
        vec![0, 1],
        agg_calls,
        0,
        storages,
        result_table,
        100,
        false,
        1000,
    )
    .expect("a permuted group-key prefix is a valid table key");
    op.handle_first_barrier(barrier(0, 1, None));
    let c = Chunk {
        ops: vec![Op::Insert, Op::Insert],
        rows: vec![vec![7, 8, 100], vec![7, 8, 101]],
        visibility: None,
    };
    op.handle_message(Message::Chunk(c));
    let msgs = op.handle_message(Message::Barrier(barrier(1, 2, None)));
    // result rows are `[g1, g2, count]` ...
    assert_eq!(emitted_rows(&msgs), vec![(Op::Insert, vec![7, 8, 2])]);
    // ... but the result table keys them as `(g2, g1)`
    assert!(op.result_table().get_committed(&vec![8, 7]).is_some());
    assert!(op.result_table().get_committed(&vec![7, 8]).is_none());
}

#[test]
fn invalid_key_prefixes_are_refused() {
    let mk = |pk: Vec<usize>| {
        let agg_calls = vec![AggCall { kind: AggKind::Count, arg_col: 0, filter_col: None }];
        let storages = vec![AggStateStorage::ResultValue];
        HashAggExecutor::new(
            vec![2],
            vec![0, 1],
            agg_calls,
            0,
            storages,
            StateTable::new(10, pk, vec![true]),
            100,
            false,
            1000,
        )
    };
    // a duplicated position, one outside the group key, and a short key
    assert!(mk(vec![0, 0]).is_err());
    assert!(mk(vec![0, 2]).is_err());
    assert!(mk(vec![0]).is_err());
}

#[test]
fn recovery_resumes_from_committed_state() {
    // persist one epoch's worth of state by hand, as a crashed operator
    // would have left it, then build a fresh operator over those tables:
    // it must resume exactly where the state says
    let mut result_table = StateTable::new(10, vec![0], vec![true]);
    result_table.init_epoch(EpochPair { prev: 0, curr: 1 });
    // group 1 so far: count 2, sum 14, min 4, max 10
    result_table.write_record(Op::Insert, vec![1, 2, 14, 4, 10]);
    let mut min_table = StateTable::new(11, vec![0, 1, 2], vec![true]);
    min_table.init_epoch(EpochPair { prev: 0, curr: 1 });
    min_table.write_record(Op::Insert, vec![1, 10, 100]);
    min_table.write_record(Op::Insert, vec![1, 4, 101]);
    let mut max_table = StateTable::new(12, vec![0, 1, 2], vec![true]);
    max_table.init_epoch(EpochPair { prev: 0, curr: 1 });
    max_table.write_record(Op::Insert, vec![1, 10, 100]);
    max_table.write_record(Op::Insert, vec![1, 4, 101]);
    let commit = EpochPair { prev: 1, curr: 2 };
    result_table.commit(commit);
    min_table.commit(commit);
    max_table.commit(commit);

    let agg_calls = vec![
        AggCall { kind: AggKind::Count, arg_col: 0, filter_col: None },
        AggCall { kind: AggKind::Sum, arg_col: 1, filter_col: None },
        AggCall { kind: AggKind::Min, arg_col: 1, filter_col: None },
        AggCall { kind: AggKind::Max, arg_col: 1, filter_col: None },
    ];
    let storages = vec![
        AggStateStorage::ResultValue,
        AggStateStorage::ResultValue,
        AggStateStorage::MaterializedInput(min_table),
        AggStateStorage::MaterializedInput(max_table),
    ];
    let mut op = HashAggExecutor::new(
        vec![2],
        vec![0],
        agg_calls,
        0,
        storages,
        result_table,
        100,
        false,
        1000,
    )
    .unwrap();
    // deleting the previous minimum must reveal 10, resuming count and sum
    // from the persisted row
    op.handle_message(Message::Chunk(chunk(&[(Op::Delete, [1, 4, 101])])));
    let msgs = op.handle_message(Message::Barrier(barrier(2, 3, None)));
    let rows = emitted_rows(&msgs);
    assert_eq!(rows.len(), 2);
    assert_eq!(rows[0], (Op::UpdateDelete, vec![1, 2, 14, 4, 10]));
    assert_eq!(rows[1], (Op::UpdateInsert, vec![1, 1, 10, 10, 10]));
}
