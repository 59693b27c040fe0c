//! Scenarios for the create-materialized-view progress tracker.

use stream_core::progress::{BackfillState, Progress};
use stream_core::tracker::{
    BarrierKind, Command, CommandContext, CreateMviewProgress, CreateStreamingJobCommand,
    CreateType, DdlType, HummockVersionStats, MetadataManager, Notifier, TrackingCommand,
    TrackingJob,
};
use stream_core::{CreateMviewProgressTracker, VecMap};

fn stats(entries: &[(u32, u64)]) -> HummockVersionStats {
    let mut table_stats = VecMap::new();
    for (k, v) in entries {
        table_stats.insert(*k, *v);
    }
    HummockVersionStats { table_stats }
}

fn create_command(
    table_id: u32,
    actors: &[u32],
    upstream: &[(u32, Vec<u32>)],
    dispatchers: &[(u32, u32)],
    ddl_type: DdlType,
    create_type: CreateType,
    kind: BarrierKind,
) -> TrackingCommand {
    TrackingCommand {
        context: CommandContext {
            kind,
            command: Command::CreateStreamingJob(CreateStreamingJobCommand {
                table_id,
                dispatchers: dispatchers.to_vec(),
                upstream_root_actors: upstream.to_vec(),
                actors_to_track: actors.to_vec(),
                definition: String::from("create materialized view v as select 1"),
                ddl_type,
                create_type,
            }),
            metadata_manager: MetadataManager { id: 1 },
        },
        notifiers: vec![Notifier { id: 10 }],
    }
}

fn progress_string(tracker: &CreateMviewProgressTracker, table_id: u32) -> String {
    let ddl = tracker.gen_ddl_progress();
    ddl.get(table_id).expect("tracked job").progress.clone()
}

#[test]
fn instant_done_job() {
    let mut tracker = CreateMviewProgressTracker::new();
    let command = create_command(
        9,
        &[],
        &[],
        &[],
        DdlType::MaterializedView,
        CreateType::Foreground,
        BarrierKind::Checkpoint,
    );
    let finished = tracker.add(command, &stats(&[]));
    assert!(finished.is_some());
    assert_eq!(tracker.gen_ddl_progress().len(), 0);
}

#[test]
fn single_actor_single_report() {
    let mut tracker = CreateMviewProgressTracker::new();
    // upstream mv 100 appears twice: one root actor with two dispatchers
    let command = create_command(
        1,
        &[7],
        &[(100, vec![1])],
        &[(1, 2)],
        DdlType::MaterializedView,
        CreateType::Foreground,
        BarrierKind::Checkpoint,
    );
    let version_stats = stats(&[(100, 50)]);
    let pending = tracker.add(command, &version_stats);
    assert!(pending.is_none());
    assert_eq!(progress_string(&tracker, 1), "0.00%");

    let report = CreateMviewProgress {
        backfill_actor_id: 7,
        done: false,
        consumed_epoch: 5,
        consumed_rows: 25,
    };
    let done = tracker.update(&report, &version_stats);
    assert!(done.is_none());
    // denominator is 2 * 50 = 100, so 25 rows is one quarter
    assert_eq!(progress_string(&tracker, 1), "25.00%");

    let report = CreateMviewProgress {
        backfill_actor_id: 7,
        done: true,
        consumed_epoch: 9,
        consumed_rows: 100,
    };
    let done = tracker.update(&report, &version_stats);
    assert!(done.is_some());
    // the actor is unregistered with its job
    let report = CreateMviewProgress {
        backfill_actor_id: 7,
        done: false,
        consumed_epoch: 10,
        consumed_rows: 10,
    };
    assert!(tracker.update(&report, &version_stats).is_none());
    assert_eq!(tracker.gen_ddl_progress().len(), 0);
}

#[test]
fn double_report_regression() {
    let mut tracker = CreateMviewProgressTracker::new();
    let command = create_command(
        1,
        &[7, 8],
        &[(100, vec![1])],
        &[(1, 2)],
        DdlType::MaterializedView,
        CreateType::Foreground,
        BarrierKind::Checkpoint,
    );
    let version_stats = stats(&[(100, 50)]);
    assert!(tracker.add(command, &version_stats).is_none());

    let report = CreateMviewProgress {
        backfill_actor_id: 7,
        done: true,
        consumed_epoch: 5,
        consumed_rows: 50,
    };
    assert!(tracker.update(&report, &version_stats).is_none());
    assert_eq!(progress_string(&tracker, 1), "50.00%");

    // a second done report for the same actor must be rejected
    let report = CreateMviewProgress {
        backfill_actor_id: 7,
        done: true,
        consumed_epoch: 6,
        consumed_rows: 60,
    };
    assert!(tracker.update(&report, &version_stats).is_none());
    assert_eq!(progress_string(&tracker, 1), "50.00%");
}

#[test]
fn sink_background_job_is_decoupled() {
    let mut tracker = CreateMviewProgressTracker::new();
    let command = create_command(
        3,
        &[11],
        &[(100, vec![1])],
        &[(1, 1)],
        DdlType::Sink,
        CreateType::Background,
        BarrierKind::Checkpoint,
    );
    let finished = tracker.add(command, &stats(&[(100, 50)]));
    assert!(finished.is_some());
    assert_eq!(tracker.gen_ddl_progress().len(), 0);
}

#[test]
fn unknown_actor_report_is_ignored() {
    let mut tracker = CreateMviewProgressTracker::new();
    let report = CreateMviewProgress {
        backfill_actor_id: 42,
        done: false,
        consumed_epoch: 1,
        consumed_rows: 1,
    };
    assert!(tracker.update(&report, &stats(&[])).is_none());
}

#[test]
fn cancel_command_purges_job() {
    let mut tracker = CreateMviewProgressTracker::new();
    let command = create_command(
        5,
        &[21, 22],
        &[(100, vec![1])],
        &[(1, 2)],
        DdlType::MaterializedView,
        CreateType::Foreground,
        BarrierKind::Checkpoint,
    );
    let version_stats = stats(&[(100, 50)]);
    assert!(tracker.add(command, &version_stats).is_none());
    assert_eq!(tracker.gen_ddl_progress().len(), 1);
    tracker.cancel_command(5);
    assert_eq!(tracker.gen_ddl_progress().len(), 0);
    // reports for the cancelled job's actors are now ignored
    let report = CreateMviewProgress {
        backfill_actor_id: 21,
        done: false,
        consumed_epoch: 1,
        consumed_rows: 1,
    };
    assert!(tracker.update(&report, &version_stats).is_none());
}

#[test]
fn finish_jobs_respects_checkpoint() {
    let mut tracker = CreateMviewProgressTracker::new();
    let checkpoint_job = TrackingJob::New(create_command(
        6,
        &[],
        &[],
        &[],
        DdlType::MaterializedView,
        CreateType::Foreground,
        BarrierKind::Checkpoint,
    ));
    tracker.stash_command_to_finish(checkpoint_job);
    // a job from a checkpoint command must wait for a checkpoint barrier
    let (drained, pending) = tracker.finish_jobs(false);
    assert_eq!(drained.len(), 0);
    assert!(pending);
    let (drained, pending) = tracker.finish_jobs(true);
    assert_eq!(drained.len(), 1);
    assert!(!pending);
    assert_eq!(drained[0].pre_finish(), Some(6));
    let notifiers = drained.into_iter().next().unwrap().notify_finished();
    assert_eq!(notifiers.len(), 1);
    assert_eq!(notifiers[0].id, 10);
}

#[test]
fn abort_all_returns_every_job() {
    let mut tracker = CreateMviewProgressTracker::new();
    let command = create_command(
        7,
        &[31],
        &[(100, vec![1])],
        &[(1, 1)],
        DdlType::MaterializedView,
        CreateType::Foreground,
        BarrierKind::Checkpoint,
    );
    assert!(tracker.add(command, &stats(&[(100, 50)])).is_none());
    let stashed = TrackingJob::New(create_command(
        8,
        &[],
        &[],
        &[],
        DdlType::MaterializedView,
        CreateType::Foreground,
        BarrierKind::NonCheckpoint,
    ));
    tracker.stash_command_to_finish(stashed);
    let jobs = tracker.abort_all();
    assert_eq!(jobs.len(), 2);
    assert_eq!(tracker.gen_ddl_progress().len(), 0);
}

#[test]
fn recover_rebuilds_all_jobs() {
    let mut table_map = VecMap::new();
    table_map.insert(1u32, vec![7u32, 8u32]);
    let mut upstream_mv_counts = VecMap::new();
    let mut counts = VecMap::new();
    counts.insert(100u32, 2u64);
    upstream_mv_counts.insert(1u32, counts);
    let mut definitions = VecMap::new();
    definitions.insert(1u32, String::from("create materialized view v as select 1"));
    let mut finished_notifiers = VecMap::new();
    finished_notifiers.insert(1u32, Notifier { id: 77 });
    let mut fragments = VecMap::new();
    fragments.insert(
        1u32,
        stream_core::tracker::TableFragments { table_id: 1 },
    );
    let version_stats = stats(&[(100, 50)]);
    let mut tracker = CreateMviewProgressTracker::recover(
        table_map,
        upstream_mv_counts,
        definitions,
        &version_stats,
        finished_notifiers,
        fragments,
        MetadataManager { id: 1 },
    );
    // every actor restarts in consuming state with nothing consumed
    assert_eq!(progress_string(&tracker, 1), "0.00%");
    let report = CreateMviewProgress {
        backfill_actor_id: 7,
        done: false,
        consumed_epoch: 3,
        consumed_rows: 30,
    };
    assert!(tracker.update(&report, &version_stats).is_none());
    assert_eq!(progress_string(&tracker, 1), "30.00%");
}

#[test]
fn progress_is_clamped_below_one() {
    let mut upstream = VecMap::new();
    upstream.insert(100u32, 1u64);
    let mut p = Progress::new(vec![1u32], upstream, 10, String::from("create"));
    // consuming more rows than the upstream holds never reports done
    p.update(1, BackfillState::ConsumingUpstream(4, 100), 10);
    assert_eq!(p.calculate_progress(), 9900);
    assert!(!p.is_done());
    p.update(1, BackfillState::Done(100), 10);
    assert!(p.is_done());
    assert_eq!(p.calculate_progress(), 10000);
}

#[test]
fn progress_counts_consumed_rows() {
    let mut upstream = VecMap::new();
    upstream.insert(100u32, 1u64);
    let mut p = Progress::new(vec![1u32, 2u32], upstream, 100, String::from("create"));
    assert_eq!(p.consumed_rows(), 0);
    p.update(1, BackfillState::ConsumingUpstream(4, 30), 100);
    assert_eq!(p.consumed_rows(), 30);
    // a replayed report first subtracts the previously counted rows
    p.update(1, BackfillState::ConsumingUpstream(5, 20), 100);
    assert_eq!(p.consumed_rows(), 20);
    p.update(2, BackfillState::Done(5), 100);
    assert_eq!(p.consumed_rows(), 25);
    assert_eq!(p.calculate_progress(), 2500);
}
