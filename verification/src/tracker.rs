//! Tracks the progress of all creating materialized views on the meta side.
//!
//! Jobs are identified by the `TableId` of the materialized table they
//! produce; `actor_map` is the reverse index from a backfill actor to its
//! owning job. Catalog updates and notifier channels are outside work: the
//! mutating operations here return the jobs or notifiers the embedder must
//! act on, so every decision stays verified while the I/O stays out.

use vstd::prelude::*;

use crate::progress::{
    state_is_done, state_rows, sum_rows, ActorId, BackfillState, Progress, TableId,
};
use crate::text::{format_basis_points, percent_rep};
use crate::vec_map::{
    distinct_keys, lemma_map_of_index, map_of, seq_has_key, seq_key_index, VecMap,
};

verus! {

/// A handle to a completion channel of one DDL client; sending on it is the
/// embedder's work.
#[derive(Clone, Copy, Debug, PartialEq, Eq, Structural)]
pub struct Notifier {
    pub id: u32,
}

/// An error surfaced to the notifiers of a failed job.
#[derive(Clone, Debug)]
pub struct MetaError {
    pub message: String,
}

/// A handle to the catalog/metadata service of the meta node.
#[derive(Clone, Copy, Debug, PartialEq, Eq, Structural)]
pub struct MetadataManager {
    pub id: u32,
}

/// The persisted fragment metadata of one streaming job.
#[derive(Clone, Copy, Debug, PartialEq, Eq, Structural)]
pub struct TableFragments {
    pub table_id: TableId,
}

#[derive(Clone, Copy, Debug, PartialEq, Eq, Structural)]
pub enum DdlType {
    MaterializedView,
    Sink,
    Table,
    Index,
    Source,
}

#[derive(Clone, Copy, Debug, PartialEq, Eq, Structural)]
pub enum CreateType {
    Foreground,
    Background,
}

/// The kind of the barrier a command was injected with.
#[derive(Clone, Copy, Debug, PartialEq, Eq, Structural)]
pub enum BarrierKind {
    Initial,
    Checkpoint,
    NonCheckpoint,
}

/// The payload of a create-streaming-job command, reduced to what progress
/// tracking reads.
pub struct CreateStreamingJobCommand {
    /// The id of the materialized table the job creates.
    pub table_id: TableId,
    /// For each upstream actor, how many dispatchers it feeds into this job.
    pub dispatchers: Vec<(ActorId, u32)>,
    /// For each upstream materialized view, its root actors.
    pub upstream_root_actors: Vec<(TableId, Vec<ActorId>)>,
    /// The actors that run backfill for this job.
    pub actors_to_track: Vec<ActorId>,
    /// The DDL statement.
    pub definition: String,
    pub ddl_type: DdlType,
    pub create_type: CreateType,
}

pub enum Command {
    CreateStreamingJob(CreateStreamingJobCommand),
    Plain,
}

/// The context a tracked command was issued under.
pub struct CommandContext {
    pub kind: BarrierKind,
    pub command: Command,
    pub metadata_manager: MetadataManager,
}

/// The command tracked by the [`CreateMviewProgressTracker`].
pub struct TrackingCommand {
    pub context: CommandContext,
    /// Notified when the command is finished.
    pub notifiers: Vec<Notifier>,
}

/// A job recovered from persisted fragment metadata after a meta restart.
pub struct RecoveredTrackingJob {
    pub fragments: TableFragments,
    pub finished: Notifier,
    pub metadata_manager: MetadataManager,
}

/// A tracked job: `New` jobs carry the original command context, `Recovered`
/// jobs are rebuilt from persisted fragment metadata.
pub enum TrackingJob {
    New(TrackingCommand),
    Recovered(RecoveredTrackingJob),
}

/// The backfill actors a command wants tracked.
pub open spec fn spec_actors_to_track(context: &CommandContext) -> Seq<ActorId> {
    match context.command {
        Command::CreateStreamingJob(c) => c.actors_to_track@,
        Command::Plain => Seq::empty(),
    }
}

/// The table a job creates, if it creates one.
pub open spec fn spec_table_to_create(job: &TrackingJob) -> Option<TableId> {
    match job {
        TrackingJob::New(command) => match command.context.command {
            Command::CreateStreamingJob(c) => Some(c.table_id),
            Command::Plain => None,
        },
        TrackingJob::Recovered(recovered) => Some(recovered.fragments.table_id),
    }
}

/// Whether a job may only be finished on a checkpoint barrier.
pub open spec fn spec_is_checkpoint_required(job: &TrackingJob) -> bool {
    match job {
        TrackingJob::Recovered(_) => true,
        TrackingJob::New(command) => command.context.kind matches BarrierKind::Initial
            || command.context.kind matches BarrierKind::Checkpoint,
    }
}

/// The notifiers of a job, in order.
pub open spec fn spec_notifiers(job: &TrackingJob) -> Seq<Notifier> {
    match job {
        TrackingJob::New(command) => command.notifiers@,
        TrackingJob::Recovered(recovered) => seq![recovered.finished],
    }
}

impl TrackingJob {
    pub fn metadata_manager(&self) -> (r: &MetadataManager)
        ensures
            *r == match self {
                TrackingJob::New(command) => command.context.metadata_manager,
                TrackingJob::Recovered(recovered) => recovered.metadata_manager,
            },
    {
        match self {
            TrackingJob::New(command) => &command.context.metadata_manager,
            TrackingJob::Recovered(recovered) => &recovered.metadata_manager,
        }
    }

    /// Whether this job requires a checkpoint barrier to complete. Recovered
    /// jobs always do; new jobs do when their command was injected with an
    /// initial or checkpoint barrier.
    pub fn is_checkpoint_required(&self) -> (r: bool)
        ensures
            r == spec_is_checkpoint_required(self),
    {
        match self {
            TrackingJob::Recovered(_) => true,
            TrackingJob::New(command) => match command.context.kind {
                BarrierKind::Initial => true,
                BarrierKind::Checkpoint => true,
                BarrierKind::NonCheckpoint => false,
            },
        }
    }

    /// The catalog work that must run before the job can be finished: mark
    /// the fragments of the returned table as created and finish its
    /// streaming job in the catalog. The embedder performs that update.
    pub fn pre_finish(&self) -> (r: Option<TableId>)
        ensures
            r == spec_table_to_create(self),
    {
        self.table_to_create()
    }

    /// Consume the job, handing back the notifiers that must be told the job
    /// finished.
    pub fn notify_finished(self) -> (r: Vec<Notifier>)
        ensures
            r@ == spec_notifiers(&self),
    {
        match self {
            TrackingJob::New(command) => command.notifiers,
            TrackingJob::Recovered(recovered) => {
                let mut v: Vec<Notifier> = Vec::new();
                v.push(recovered.finished);
                proof {
                    assert(v@ =~= seq![recovered.finished]);
                }
                v
            },
        }
    }

    /// Consume the job, handing back the notifiers that must be told the job
    /// failed, paired with the error to send.
    pub fn notify_finish_failed(self, err: MetaError) -> (r: (Vec<Notifier>, MetaError))
        ensures
            r.0@ == spec_notifiers(&self),
            r.1 == err,
    {
        match self {
            TrackingJob::New(command) => (command.notifiers, err),
            TrackingJob::Recovered(recovered) => {
                let mut v: Vec<Notifier> = Vec::new();
                v.push(recovered.finished);
                proof {
                    assert(v@ =~= seq![recovered.finished]);
                }
                (v, err)
            },
        }
    }

    pub fn table_to_create(&self) -> (r: Option<TableId>)
        ensures
            r == spec_table_to_create(self),
    {
        match self {
            TrackingJob::New(command) => match &command.context.command {
                Command::CreateStreamingJob(c) => Some(c.table_id),
                Command::Plain => None,
            },
            TrackingJob::Recovered(recovered) => Some(recovered.fragments.table_id),
        }
    }
}

/// A progress report delivered in a barrier-complete response.
#[derive(Clone, Copy, Debug)]
pub struct CreateMviewProgress {
    pub backfill_actor_id: u32,
    pub done: bool,
    pub consumed_epoch: u64,
    pub consumed_rows: u64,
}

/// The backfill state a report stands for.
pub open spec fn report_state(r: CreateMviewProgress) -> BackfillState {
    if r.done {
        BackfillState::Done(r.consumed_rows)
    } else {
        BackfillState::ConsumingUpstream(r.consumed_epoch, r.consumed_rows)
    }
}

/// Per-table key-count statistics of the shared store.
pub struct HummockVersionStats {
    pub table_stats: VecMap<u64>,
}

/// A snapshot of one job's progress for DDL clients.
pub struct DdlProgress {
    pub id: u64,
    pub statement: String,
    pub progress: String,
}

/// `sum over (mv, count) of count * stats[mv]`, counting absent tables as 0.
pub open spec fn weighted_key_count(counts: Seq<(u32, u64)>, stats: Map<u32, u64>) -> int
    decreases counts.len(),
{
    if counts.len() == 0 {
        0
    } else {
        weighted_key_count(counts.drop_last(), stats) + counts.last().1 * (
        if stats.contains_key(counts.last().0) {
            stats[counts.last().0] as int
        } else {
            0
        })
    }
}

/// The weighted key count, saturated at `u64::MAX`.
pub open spec fn weighted_key_count_sat(counts: Seq<(u32, u64)>, stats: Map<u32, u64>) -> u64 {
    if weighted_key_count(counts, stats) > u64::MAX {
        u64::MAX
    } else {
        weighted_key_count(counts, stats) as u64
    }
}

proof fn lemma_weighted_key_count_push(counts: Seq<(u32, u64)>, stats: Map<u32, u64>, e: (u32, u64))
    ensures
        weighted_key_count(counts.push(e), stats) == weighted_key_count(counts, stats) + e.1 * (
        if stats.contains_key(e.0) {
            stats[e.0] as int
        } else {
            0
        }),
{
    assert(counts.push(e).drop_last() =~= counts);
    assert(counts.push(e).last() == e);
}

proof fn lemma_weighted_key_count_nonneg(counts: Seq<(u32, u64)>, stats: Map<u32, u64>)
    ensures
        0 <= weighted_key_count(counts, stats),
    decreases counts.len(),
{
    if counts.len() > 0 {
        lemma_weighted_key_count_nonneg(counts.drop_last(), stats);
        let e = counts.last();
        let w: int = if stats.contains_key(e.0) {
            stats[e.0] as int
        } else {
            0
        };
        assert(e.1 * w >= 0) by (nonlinear_arith)
            requires
                e.1 >= 0,
                w >= 0,
        ;
    }
}

/// Compute the weighted upstream key count of one job, saturating at
/// `u64::MAX`.
pub fn compute_weighted_key_count(counts: &VecMap<u64>, stats: &HummockVersionStats) -> (r: u64)
    requires
        counts.inv(),
        stats.table_stats.inv(),
    ensures
        r == weighted_key_count_sat(counts.entry_seq(), stats.table_stats@),
{
    let n = counts.len();
    let mut acc: u64 = 0;
    let mut i: usize = 0;
    while i < n
        invariant
            counts.inv(),
            stats.table_stats.inv(),
            n == counts.entry_seq().len(),
            0 <= i <= n,
            acc == weighted_key_count_sat(counts.entry_seq().subrange(0, i as int),
                stats.table_stats@),
        decreases n - i,
    {
        let ghost prefix = counts.entry_seq().subrange(0, i as int);
        let mv = counts.key_at(i);
        let count = *counts.value_at(i);
        let stat = match stats.table_stats.get(mv) {
            Some(s) => *s,
            None => 0,
        };
        let contribution = match count.checked_mul(stat) {
            Some(p) => p,
            None => u64::MAX,
        };
        let ghost w: int = if stats.table_stats@.contains_key(mv) {
            stats.table_stats@[mv] as int
        } else {
            0
        };
        proof {
            lemma_weighted_key_count_nonneg(prefix, stats.table_stats@);
            lemma_weighted_key_count_push(prefix, stats.table_stats@, (mv, count));
            assert(counts.entry_seq().subrange(0, i + 1) =~= prefix.push(
                counts.entry_seq()[i as int],
            ));
            assert(count * w >= 0) by (nonlinear_arith)
                requires
                    count >= 0,
                    w >= 0,
            ;
        }
        acc = acc.saturating_add(contribution);
        i = i + 1;
    }
    proof {
        assert(counts.entry_seq().subrange(0, n as int) =~= counts.entry_seq());
    }
    acc
}

} // verus!

verus! {

/// The jobs of a sequence of progress-map entries, in entry order.
pub open spec fn jobs_of_entries(s: Seq<(u32, (Progress, TrackingJob))>) -> Seq<TrackingJob> {
    s.map_values(|e: (u32, (Progress, TrackingJob))| e.1.1)
}

/// Every progress held in the entries is valid.
pub open spec fn progresses_valid(s: Seq<(u32, (Progress, TrackingJob))>) -> bool {
    forall|i: int| 0 <= i < s.len() ==> (#[trigger] s[i]).1.0.inv()
}

/// Every actor of every tracked progress is registered in the reverse index
/// under its job's table id.
pub open spec fn actors_registered(
    pm: Map<u32, (Progress, TrackingJob)>,
    am: Map<u32, u32>,
) -> bool {
    forall|t: u32, a: u32|
        #[trigger] pm.contains_key(t) && #[trigger] pm[t].0.states_map().contains_key(a)
            ==> am.contains_key(a) && am[a] == t
}

/// The reverse index points only at tracked jobs that do track the actor.
pub open spec fn actor_map_sound(pm: Map<u32, (Progress, TrackingJob)>, am: Map<u32, u32>) -> bool {
    forall|a: u32| #[trigger]
        am.contains_key(a) ==> pm.contains_key(am[a]) && pm[am[a]].0.states_map().contains_key(a)
}

/// `m` with every entry whose value is `t` dropped.
pub open spec fn map_without_value(m: Map<u32, u32>, t: u32) -> Map<u32, u32> {
    Map::new(|a: u32| m.contains_key(a) && m[a] != t, |a: u32| m[a])
}

proof fn lemma_filter_push<A>(s: Seq<A>, pred: spec_fn(A) -> bool, x: A)
    ensures
        s.push(x).filter(pred) == (if pred(x) {
            s.filter(pred).push(x)
        } else {
            s.filter(pred)
        }),
{
    reveal(Seq::filter);
    assert(s.push(x).drop_last() =~= s);
    assert(s.push(x).last() == x);
}

/// Tracks the progress of all creating materialized views. When a job's
/// backfill completes, its [`TrackingJob`] is handed back to the caller,
/// which runs the catalog update and the notifications.
pub struct CreateMviewProgressTracker {
    /// Per creating materialized view: its progress and its tracked job.
    progress_map: VecMap<(Progress, TrackingJob)>,
    /// From a backfill actor to the table id of its owning job.
    actor_map: VecMap<TableId>,
    /// Jobs whose backfill completed, waiting for a suitable barrier to be
    /// finished on.
    finished_jobs: Vec<TrackingJob>,
}

impl CreateMviewProgressTracker {
    pub closed spec fn spec_progress_map(&self) -> VecMap<(Progress, TrackingJob)> {
        self.progress_map
    }

    pub closed spec fn spec_actor_map(&self) -> VecMap<TableId> {
        self.actor_map
    }

    pub closed spec fn spec_finished_jobs(&self) -> Seq<TrackingJob> {
        self.finished_jobs@
    }

    pub open spec fn progress_entries(&self) -> Seq<(u32, (Progress, TrackingJob))> {
        self.spec_progress_map().entry_seq()
    }

    pub open spec fn progress_view(&self) -> Map<u32, (Progress, TrackingJob)> {
        map_of(self.progress_entries())
    }

    pub open spec fn actor_view(&self) -> Map<u32, u32> {
        self.spec_actor_map()@
    }

    /// Validity of the tracker: both indexes are maps, every tracked
    /// progress is valid, and the two indexes agree in both directions.
    pub open spec fn inv(&self) -> bool {
        &&& self.spec_progress_map().inv()
        &&& self.spec_actor_map().inv()
        &&& progresses_valid(self.progress_entries())
        &&& actors_registered(self.progress_view(), self.actor_view())
        &&& actor_map_sound(self.progress_view(), self.actor_view())
    }

    pub fn new() -> (r: Self)
        ensures
            r.inv(),
            r.progress_view() == Map::<u32, (Progress, TrackingJob)>::empty(),
            r.actor_view() == Map::<u32, u32>::empty(),
            r.spec_finished_jobs() == Seq::<TrackingJob>::empty(),
    {
        let r = CreateMviewProgressTracker {
            progress_map: VecMap::new(),
            actor_map: VecMap::new(),
            finished_jobs: Vec::new(),
        };
        proof {
            assert(r.progress_view() =~= Map::<u32, (Progress, TrackingJob)>::empty());
        }
        r
    }

    /// Every registered actor belongs to a tracked or finished job: the
    /// table it points at is tracked in the progress map (and hence in the
    /// union of the progress map and the finished jobs).
    pub proof fn lemma_actor_map_consistent(&self, a: ActorId)
        requires
            self.inv(),
            self.actor_view().contains_key(a),
        ensures
            self.progress_view().contains_key(self.actor_view()[a]),
            self.progress_view()[self.actor_view()[a]].0.states_map().contains_key(a),
    {
    }

    /// Stash a job to finish later, on a suitable barrier.
    pub fn stash_command_to_finish(&mut self, finished_job: TrackingJob)
        requires
            old(self).inv(),
        ensures
            final(self).inv(),
            final(self).spec_finished_jobs() == old(self).spec_finished_jobs().push(finished_job),
            final(self).progress_view() == old(self).progress_view(),
            final(self).actor_view() == old(self).actor_view(),
    {
        self.finished_jobs.push(finished_job);
    }

    /// Drain the stashed jobs that may be finished now: all of them on a
    /// checkpoint barrier, otherwise only those that do not require a
    /// checkpoint. Returns the drained jobs, in stash order, and whether
    /// stashed jobs remain. The caller must run `pre_finish` and
    /// `notify_finished` for each drained job, in order; the drained jobs
    /// leave the stash at once, so when a catalog update fails partway the
    /// caller holds the not-yet-finished jobs and fails their notifiers
    /// itself rather than finding them stashed again.
    pub fn finish_jobs(&mut self, checkpoint: bool) -> (r: (Vec<TrackingJob>, bool))
        requires
            old(self).inv(),
        ensures
            final(self).inv(),
            r.0@ == old(self).spec_finished_jobs().filter(
                |j: TrackingJob| checkpoint || !spec_is_checkpoint_required(&j),
            ),
            final(self).spec_finished_jobs() == old(self).spec_finished_jobs().filter(
                |j: TrackingJob| !(checkpoint || !spec_is_checkpoint_required(&j)),
            ),
            r.1 == (final(self).spec_finished_jobs().len() > 0),
            final(self).progress_view() == old(self).progress_view(),
            final(self).actor_view() == old(self).actor_view(),
    {
        let ghost pred = |j: TrackingJob| checkpoint || !spec_is_checkpoint_required(&j);
        let ghost orig = self.finished_jobs@;
        let mut rest: Vec<TrackingJob> = Vec::new();
        std::mem::swap(&mut rest, &mut self.finished_jobs);
        let mut drained: Vec<TrackingJob> = Vec::new();
        let mut kept: Vec<TrackingJob> = Vec::new();
        let ghost mut processed: Seq<TrackingJob> = Seq::empty();
        proof {
            assert(orig =~= processed + rest@);
            assert(processed.filter(pred) =~= Seq::<TrackingJob>::empty());
            assert(processed.filter(|j: TrackingJob| !pred(j)) =~= Seq::<TrackingJob>::empty());
        }
        while rest.len() > 0
            invariant
                orig == processed + rest@,
                drained@ == processed.filter(pred),
                kept@ == processed.filter(
                    (|j: TrackingJob| !(checkpoint || !spec_is_checkpoint_required(&j))),
                ),
                pred == (|j: TrackingJob| checkpoint || !spec_is_checkpoint_required(&j)),
            decreases rest.len(),
        {
            let job = rest.remove(0);
            let take = checkpoint || !job.is_checkpoint_required();
            proof {
                lemma_filter_push(processed, pred, job);
                lemma_filter_push(
                    processed,
                    (|j: TrackingJob| !(checkpoint || !spec_is_checkpoint_required(&j))),
                    job,
                );
            }
            if take {
                drained.push(job);
            } else {
                kept.push(job);
            }
            proof {
                processed = processed.push(job);
                assert(orig =~= processed + rest@);
            }
        }
        proof {
            assert(processed =~= orig);
        }
        self.finished_jobs = kept;
        let pending = self.finished_jobs.len() > 0;
        (drained, pending)
    }

    /// Forget everything about the job creating `id`: its progress entry,
    /// its reverse-index entries, and any stashed finish for it.
    pub fn cancel_command(&mut self, id: TableId)
        requires
            old(self).inv(),
        ensures
            final(self).inv(),
            final(self).progress_view() == old(self).progress_view().remove(id),
            final(self).actor_view() == map_without_value(old(self).actor_view(), id),
            final(self).spec_finished_jobs() == old(self).spec_finished_jobs().filter(
                |j: TrackingJob| spec_table_to_create(&j) != Some(id),
            ),
    {
        let _ = self.progress_map.remove(id);
        let ghost pred = |j: TrackingJob| spec_table_to_create(&j) != Some(id);
        let ghost orig = self.finished_jobs@;
        let mut rest: Vec<TrackingJob> = Vec::new();
        std::mem::swap(&mut rest, &mut self.finished_jobs);
        let mut kept: Vec<TrackingJob> = Vec::new();
        let ghost mut processed: Seq<TrackingJob> = Seq::empty();
        proof {
            assert(orig =~= processed + rest@);
            assert(processed.filter(pred) =~= Seq::<TrackingJob>::empty());
        }
        while rest.len() > 0
            invariant
                orig == processed + rest@,
                kept@ == processed.filter(pred),
                pred == (|j: TrackingJob| spec_table_to_create(&j) != Some(id)),
            decreases rest.len(),
        {
            let job = rest.remove(0);
            let keep = match job.table_to_create() {
                Some(t) => t != id,
                None => true,
            };
            proof {
                lemma_filter_push(processed, pred, job);
            }
            if keep {
                kept.push(job);
            }
            proof {
                processed = processed.push(job);
                assert(orig =~= processed + rest@);
            }
        }
        proof {
            assert(processed =~= orig);
        }
        self.finished_jobs = kept;

        // purge the reverse index of actors owned by `id`
        let keys = self.actor_map.keys();
        let ghost am_orig = self.actor_map@;
        let ghost am_entries = self.actor_map.entry_seq();
        let ghost pm_saved = self.spec_progress_map();
        let ghost fj_saved = self.spec_finished_jobs();
        let n = keys.len();
        let mut i: usize = 0;
        while i < n
            invariant
                self.spec_progress_map() == pm_saved,
                self.spec_finished_jobs() == fj_saved,
                self.actor_map.inv(),
                n == keys@.len(),
                0 <= i <= n,
                forall|a: u32| #[trigger]
                    self.actor_map@.contains_key(a) ==> am_orig.contains_key(a)
                        && self.actor_map@[a] == am_orig[a],
                forall|a: u32|
                    am_orig.contains_key(a) && am_orig[a] != id ==> #[trigger] self.actor_map@
                        .contains_key(a),
                forall|j: int|
                    0 <= j < i && #[trigger] self.actor_map@.contains_key(keys@[j])
                        ==> self.actor_map@[keys@[j]] != id,
            decreases n - i,
        {
            let a = keys[i];
            let is_target = match self.actor_map.get(a) {
                Some(t) => *t == id,
                None => false,
            };
            if is_target {
                let _ = self.actor_map.remove(a);
            }
            i = i + 1;
        }
        proof {
            let am_new = self.actor_map@;
            assert(am_new =~= map_without_value(am_orig, id)) by {
                assert forall|a: u32| #[trigger]
                    am_new.contains_key(a) implies am_orig.contains_key(a) && am_orig[a] != id
                    && am_new[a] == am_orig[a] by {
                    old(self).spec_actor_map().lemma_view();
                    assert(seq_has_key(am_entries, a));
                    let je = seq_key_index(am_entries, a);
                    assert(am_entries[je].0 == a);
                    assert(keys@[je] == a);
                }
            }
            // the progress map lost exactly the entry of `id`
            assert(self.progress_view() =~= old(self).progress_view().remove(id));
            // validity of the remaining entries
            let pm_old = old(self).progress_entries();
            let pm_new = self.progress_entries();
            old(self).spec_progress_map().lemma_view();
            assert(progresses_valid(pm_new)) by {
                assert forall|j: int| 0 <= j < pm_new.len() implies (
                #[trigger] pm_new[j]).1.0.inv() by {
                    if old(self).progress_view().contains_key(id) {
                        assert(seq_has_key(pm_old, id));
                        let idx = seq_key_index(pm_old, id);
                        assert(0 <= idx < pm_old.len() && pm_old[idx].0 == id);
                        assert(pm_new == pm_old.remove(idx));
                        let j0 = if j < idx {
                            j
                        } else {
                            j + 1
                        };
                        assert(pm_new[j] == pm_old[j0]);
                    } else {
                        assert(pm_new[j] == pm_old[j]);
                    }
                }
            }
        }
    }

    /// Fail every tracked and stashed job and clear all state. Returns the
    /// jobs, stashed ones first, each of which the caller must notify with
    /// the error via `notify_finish_failed`.
    pub fn abort_all(&mut self) -> (r: Vec<TrackingJob>)
        requires
            old(self).inv(),
        ensures
            final(self).inv(),
            r@ == old(self).spec_finished_jobs() + jobs_of_entries(old(self).progress_entries()),
            final(self).progress_view() == Map::<u32, (Progress, TrackingJob)>::empty(),
            final(self).actor_view() == Map::<u32, u32>::empty(),
            final(self).spec_finished_jobs() == Seq::<TrackingJob>::empty(),
    {
        self.actor_map.clear();
        let mut jobs: Vec<TrackingJob> = Vec::new();
        std::mem::swap(&mut jobs, &mut self.finished_jobs);
        let mut pm: VecMap<(Progress, TrackingJob)> = VecMap::new();
        std::mem::swap(&mut pm, &mut self.progress_map);
        let ghost entries = pm.entry_seq();
        let mut rest = pm.into_entries();
        let ghost mut taken: int = 0;
        while rest.len() > 0
            invariant
                0 <= taken <= entries.len(),
                rest@ == entries.subrange(taken, entries.len() as int),
                jobs@ == old(self).spec_finished_jobs() + jobs_of_entries(
                    entries.subrange(0, taken),
                ),
            decreases rest.len(),
        {
            let e = rest.remove(0);
            jobs.push(e.1.1);
            proof {
                assert(entries.subrange(taken, entries.len() as int)[0] == entries[taken]);
                taken = taken + 1;
                assert(rest@ =~= entries.subrange(taken, entries.len() as int));
                assert(jobs_of_entries(entries.subrange(0, taken)) =~= jobs_of_entries(
                    entries.subrange(0, taken - 1),
                ).push(entries[taken - 1].1.1));
                assert(jobs@ =~= old(self).spec_finished_jobs() + jobs_of_entries(
                    entries.subrange(0, taken),
                ));
            }
        }
        proof {
            assert(entries.subrange(0, entries.len() as int) =~= entries);
            assert(final(self).progress_view() =~= Map::<u32, (Progress, TrackingJob)>::empty());
        }
        jobs
    }

    /// A snapshot `{id, statement, progress}` of every tracked job, with the
    /// progress written as `"XX.XX%"`.
    pub fn gen_ddl_progress(&self) -> (r: VecMap<DdlProgress>)
        requires
            self.inv(),
        ensures
            r.inv(),
            r.entry_seq().len() == self.progress_entries().len(),
            forall|i: int|
                0 <= i < r.entry_seq().len() ==> {
                    let t = (#[trigger] self.progress_entries()[i]).0;
                    let p = self.progress_entries()[i].1.0;
                    &&& r.entry_seq()[i].0 == t
                    &&& r.entry_seq()[i].1.id == t as u64
                    &&& r.entry_seq()[i].1.statement@ == p.spec_definition()
                    &&& r.entry_seq()[i].1.progress@ == percent_rep(
                        crate::progress::spec_calculate_progress(&p),
                    )
                },
    {
        let n = self.progress_map.len();
        let mut r: VecMap<DdlProgress> = VecMap::new();
        let mut i: usize = 0;
        while i < n
            invariant
                self.inv(),
                n == self.progress_entries().len(),
                0 <= i <= n,
                r.inv(),
                r.entry_seq().len() == i,
                forall|j: int|
                    0 <= j < i ==> (#[trigger] r.entry_seq()[j]).0
                        == self.progress_entries()[j].0,
                forall|j: int|
                    0 <= j < i ==> {
                        let t = (#[trigger] self.progress_entries()[j]).0;
                        let p = self.progress_entries()[j].1.0;
                        &&& r.entry_seq()[j].1.id == t as u64
                        &&& r.entry_seq()[j].1.statement@ == p.spec_definition()
                        &&& r.entry_seq()[j].1.progress@ == percent_rep(
                            crate::progress::spec_calculate_progress(&p),
                        )
                    },
            decreases n - i,
        {
            let t = self.progress_map.key_at(i);
            let entry = self.progress_map.value_at(i);
            proof {
                assert(self.progress_entries()[i as int].1.0.inv());
                crate::progress::lemma_progress_in_unit_range(&entry.0);
                r.lemma_view();
                if r@.contains_key(t) {
                    let j = seq_key_index(r.entry_seq(), t);
                    assert(r.entry_seq()[j].0 == self.progress_entries()[j].0);
                    assert(self.progress_entries()[j].0 == self.progress_entries()[i as int].0);
                }
            }
            let bp = entry.0.calculate_progress();
            let ddl = DdlProgress {
                id: t as u64,
                statement: entry.0.definition().clone(),
                progress: format_basis_points(bp),
            };
            r.insert(t, ddl);
            i = i + 1;
        }
        r
    }
}

} // verus!

verus! {

/// How many dispatchers the actors in `roots` feed, summed over the
/// dispatcher table.
pub open spec fn dispatch_count(dispatchers: Seq<(u32, u32)>, roots: Seq<u32>) -> int
    decreases dispatchers.len(),
{
    if dispatchers.len() == 0 {
        0
    } else {
        dispatch_count(dispatchers.drop_last(), roots) + (
        if roots.contains(dispatchers.last().0) {
            dispatchers.last().1 as int
        } else {
            0
        })
    }
}

proof fn lemma_dispatch_count_push(dispatchers: Seq<(u32, u32)>, roots: Seq<u32>, e: (u32, u32))
    ensures
        dispatch_count(dispatchers.push(e), roots) == dispatch_count(dispatchers, roots) + (
        if roots.contains(e.0) {
            e.1 as int
        } else {
            0
        }),
{
    assert(dispatchers.push(e).drop_last() =~= dispatchers);
    assert(dispatchers.push(e).last() == e);
}

/// The create command inside a tracked command (meaningful only when the
/// command is a create-streaming-job command).
pub open spec fn the_create(command: &TrackingCommand) -> CreateStreamingJobCommand {
    match command.context.command {
        Command::CreateStreamingJob(c) => c,
        Command::Plain => arbitrary(),
    }
}

pub open spec fn is_create(command: &TrackingCommand) -> bool {
    command.context.command matches Command::CreateStreamingJob(_)
}

/// A background sink job is decoupled from backfill completion.
pub open spec fn is_decoupled_sink(command: &TrackingCommand) -> bool {
    is_create(command) && the_create(command).ddl_type == DdlType::Sink && the_create(
        command,
    ).create_type == CreateType::Background
}

/// Per upstream materialized view: how many times it appears in the job,
/// as `dispatch count / root actor count`.
pub open spec fn upstream_counts(c: CreateStreamingJobCommand) -> Seq<(u32, u64)> {
    c.upstream_root_actors@.map_values(
        |e: (u32, Vec<u32>)| (e.0, (dispatch_count(c.dispatchers@, e.1@) / e.1@.len() as int) as u64),
    )
}

fn copy_u32_vec(v: &Vec<u32>) -> (r: Vec<u32>)
    ensures
        r@ == v@,
{
    let n = v.len();
    let mut r: Vec<u32> = Vec::new();
    let mut i: usize = 0;
    while i < n
        invariant
            n == v@.len(),
            0 <= i <= n,
            r@ == v@.subrange(0, i as int),
        decreases n - i,
    {
        r.push(v[i]);
        proof {
            assert(r@ =~= v@.subrange(0, i + 1));
        }
        i = i + 1;
    }
    proof {
        assert(r@ =~= v@);
    }
    r
}

fn vec_contains_u32(v: &Vec<u32>, x: u32) -> (r: bool)
    ensures
        r == v@.contains(x),
{
    let n = v.len();
    let mut i: usize = 0;
    while i < n
        invariant
            n == v@.len(),
            0 <= i <= n,
            forall|j: int| 0 <= j < i ==> v@[j] != x,
        decreases n - i,
    {
        if v[i] == x {
            return true;
        }
        i = i + 1;
    }
    false
}

impl CreateMviewProgressTracker {
    /// Start tracking a create-streaming-job command.
    ///
    /// A command with no backfill actors is finished immediately: the job is
    /// handed back and nothing is recorded. A background sink job is handed
    /// back too, because sinks are decoupled from backfill completion.
    /// Anything else is entered into the progress map, with every backfill
    /// actor registered in the reverse index, and `None` is returned.
    pub fn add(&mut self, command: TrackingCommand, version_stats: &HummockVersionStats) -> (r:
        Option<TrackingJob>)
        requires
            old(self).inv(),
            version_stats.table_stats.inv(),
            spec_actors_to_track(&command.context).len() > 0 ==> is_create(&command),
            is_create(&command) ==> {
                let c = the_create(&command);
                &&& forall|i: int, j: int|
                    0 <= i < j < c.actors_to_track@.len() ==> c.actors_to_track@[i]
                        != c.actors_to_track@[j]
                &&& forall|i: int|
                    0 <= i < c.actors_to_track@.len() ==> !old(self).actor_view().contains_key(
                        #[trigger] c.actors_to_track@[i],
                    )
                &&& forall|i: int|
                    0 <= i < c.upstream_root_actors@.len() ==> (
                    #[trigger] c.upstream_root_actors@[i]).1@.len() > 0
                &&& forall|i: int, j: int|
                    0 <= i < j < c.upstream_root_actors@.len() ==> c.upstream_root_actors@[i].0
                        != c.upstream_root_actors@[j].0
                &&& c.dispatchers@.len() <= u32::MAX
                &&& (c.actors_to_track@.len() > 0 && !is_decoupled_sink(&command))
                    ==> !old(self).progress_view().contains_key(c.table_id)
            },
        ensures
            final(self).inv(),
            (spec_actors_to_track(&command.context).len() == 0 || is_decoupled_sink(&command))
                ==> {
                &&& r == Some(TrackingJob::New(command))
                &&& final(self).progress_view() == old(self).progress_view()
                &&& final(self).actor_view() == old(self).actor_view()
                &&& final(self).spec_finished_jobs() == old(self).spec_finished_jobs()
            },
            (spec_actors_to_track(&command.context).len() > 0 && !is_decoupled_sink(&command))
                ==> {
                let c = the_create(&command);
                let pv = final(self).progress_view();
                &&& r is None
                &&& pv.contains_key(c.table_id)
                &&& forall|t: u32|
                    t != c.table_id ==> #[trigger] pv.contains_key(t) == old(
                        self,
                    ).progress_view().contains_key(t) && (pv.contains_key(t) ==> pv[t] == old(
                        self,
                    ).progress_view()[t])
                &&& pv[c.table_id].1 == TrackingJob::New(command)
                &&& pv[c.table_id].0.states_seq() == c.actors_to_track@.map_values(
                    |a: u32| (a, BackfillState::Init),
                )
                &&& pv[c.table_id].0.spec_done_count() == 0
                &&& pv[c.table_id].0.spec_consumed_rows() == 0
                &&& pv[c.table_id].0.spec_upstream_mv_count().entry_seq() == upstream_counts(c)
                &&& pv[c.table_id].0.spec_upstream_total_key_count() == weighted_key_count_sat(
                    upstream_counts(c),
                    version_stats.table_stats@,
                )
                &&& pv[c.table_id].0.spec_definition() == c.definition@
                &&& final(self).spec_actor_map().entry_seq() == old(
                    self,
                ).spec_actor_map().entry_seq() + c.actors_to_track@.map_values(
                    |a: u32| (a, c.table_id),
                )
                &&& final(self).spec_finished_jobs() == old(self).spec_finished_jobs()
            },
    {
        let no_actors = match &command.context.command {
            Command::CreateStreamingJob(c) => c.actors_to_track.len() == 0,
            Command::Plain => true,
        };
        if no_actors {
            return Some(TrackingJob::New(command));
        }
        let ghost c_spec = the_create(&command);

        // compute how many times each upstream materialized view appears
        let (table_id, upstream, decoupled) = match &command.context.command {
            Command::CreateStreamingJob(c) => {
                let m = c.upstream_root_actors.len();
                let mut upstream: VecMap<u64> = VecMap::new();
                let mut i: usize = 0;
                while i < m
                    invariant
                        m == c.upstream_root_actors@.len(),
                        0 <= i <= m,
                        c == the_create(&command),
                        upstream.inv(),
                        upstream.entry_seq() == upstream_counts(*c).subrange(0, i as int),
                        forall|p: int, q: int|
                            0 <= p < q < c.upstream_root_actors@.len()
                                ==> c.upstream_root_actors@[p].0 != c.upstream_root_actors@[q].0,
                        forall|p: int|
                            0 <= p < c.upstream_root_actors@.len() ==> (
                            #[trigger] c.upstream_root_actors@[p]).1@.len() > 0,
                        c.dispatchers@.len() <= u32::MAX,
                    decreases m - i,
                {
                    let t = c.upstream_root_actors[i].0;
                    let roots = &c.upstream_root_actors[i].1;
                    let nd = c.dispatchers.len();
                    let mut dc: u64 = 0;
                    let mut j: usize = 0;
                    while j < nd
                        invariant
                            nd == c.dispatchers@.len(),
                            nd <= u32::MAX,
                            0 <= j <= nd,
                            roots == &c.upstream_root_actors@[i as int].1,
                            dc == dispatch_count(c.dispatchers@.subrange(0, j as int), roots@),
                            dc <= j * 0xffff_ffff,
                        decreases nd - j,
                    {
                        let ghost prefix = c.dispatchers@.subrange(0, j as int);
                        let ua = c.dispatchers[j].0;
                        let cnt = c.dispatchers[j].1;
                        proof {
                            lemma_dispatch_count_push(prefix, roots@, (ua, cnt));
                            assert(c.dispatchers@.subrange(0, j + 1) =~= prefix.push((ua, cnt)));
                        }
                        if vec_contains_u32(roots, ua) {
                            dc = dc + cnt as u64;
                        }
                        j = j + 1;
                    }
                    proof {
                        assert(c.dispatchers@.subrange(0, nd as int) =~= c.dispatchers@);
                    }
                    let count = dc / (roots.len() as u64);
                    let ghost prefix_uc = upstream_counts(*c).subrange(0, i as int);
                    proof {
                        vstd::arithmetic::div_mod::lemma_div_pos_is_pos(
                            dc as int,
                            roots@.len() as int,
                        );
                        upstream.lemma_view();
                        if upstream@.contains_key(t) {
                            let jj = seq_key_index(upstream.entry_seq(), t);
                            assert(upstream.entry_seq()[jj].0 == upstream_counts(*c)[jj].0);
                            assert(c.upstream_root_actors@[jj].0
                                == c.upstream_root_actors@[i as int].0);
                            assert(false);
                        }
                    }
                    upstream.insert(t, count);
                    proof {
                        assert(upstream.entry_seq() =~= upstream_counts(*c).subrange(0, i + 1));
                    }
                    i = i + 1;
                }
                proof {
                    assert(upstream.entry_seq() =~= upstream_counts(*c));
                }
                let decoupled = match (&c.ddl_type, &c.create_type) {
                    (DdlType::Sink, CreateType::Background) => true,
                    _ => false,
                };
                (c.table_id, upstream, decoupled)
            },
            Command::Plain => {
                proof {
                    assert(false);
                }
                (0u32, VecMap::new(), false)
            },
        };
        let upstream_total_key_count = compute_weighted_key_count(&upstream, version_stats);
        if decoupled {
            return Some(TrackingJob::New(command));
        }

        // register the backfill actors and the progress entry
        let (actors, definition) = match &command.context.command {
            Command::CreateStreamingJob(c) => (copy_u32_vec(&c.actors_to_track), c.definition.clone()),
            Command::Plain => {
                proof {
                    assert(false);
                }
                (Vec::new(), String::new())
            },
        };
        let ghost am_orig = self.spec_actor_map().entry_seq();
        let ghost am_target = am_orig + c_spec.actors_to_track@.map_values(
            |a: u32| (a, c_spec.table_id),
        );
        let n = actors.len();
        let mut i: usize = 0;
        while i < n
            invariant
                old(self).inv(),
                n == actors@.len(),
                0 <= i <= n,
                actors@ == c_spec.actors_to_track@,
                table_id == c_spec.table_id,
                forall|p: int, q: int|
                    0 <= p < q < actors@.len() ==> actors@[p] != actors@[q],
                forall|p: int|
                    0 <= p < actors@.len() ==> !map_of(am_orig).contains_key(
                        #[trigger] actors@[p],
                    ),
                am_orig == old(self).spec_actor_map().entry_seq(),
                self.spec_progress_map() == old(self).spec_progress_map(),
                self.spec_finished_jobs() == old(self).spec_finished_jobs(),
                self.actor_map.inv(),
                self.actor_map.entry_seq() == am_orig + actors@.subrange(0, i as int).map_values(
                    (|a: u32| (a, c_spec.table_id)),
                ),
            decreases n - i,
        {
            proof {
                self.actor_map.lemma_view();
                if self.actor_map@.contains_key(actors@[i as int]) {
                    let jj = seq_key_index(self.actor_map.entry_seq(), actors@[i as int]);
                    if jj < am_orig.len() {
                        assert(seq_has_key(am_orig, actors@[i as int]));
                        old(self).spec_actor_map().lemma_view();
                    } else {
                        assert(self.actor_map.entry_seq()[jj] == actors@.subrange(
                            0,
                            i as int,
                        ).map_values((|a: u32| (a, c_spec.table_id)))[jj - am_orig.len()]);
                        assert(actors@[jj - am_orig.len()] == actors@[i as int]);
                    }
                    assert(false);
                }
            }
            self.actor_map.insert(actors[i], table_id);
            proof {
                assert(self.actor_map.entry_seq() =~= am_orig + actors@.subrange(
                    0,
                    i + 1,
                ).map_values((|a: u32| (a, c_spec.table_id))));
            }
            i = i + 1;
        }
        proof {
            assert(actors@.subrange(0, n as int) =~= actors@);
            assert(self.actor_map.entry_seq() =~= am_target);
        }
        let progress = Progress::new(actors, upstream, upstream_total_key_count, definition);
        proof {
            old(self).spec_progress_map().lemma_view();
        }
        self.progress_map.insert(table_id, (progress, TrackingJob::New(command)));
        proof {
            let pm_old = old(self).progress_entries();
            let pm_new = self.progress_entries();
            let am_new = self.actor_map@;
            let po = progress;
            let states = po.states_seq();
            self.actor_map.lemma_view();
            self.progress_map.lemma_view();
            old(self).spec_actor_map().lemma_view();
            assert(pm_new == pm_old.push((c_spec.table_id, (po, TrackingJob::New(command)))));
            // the new reverse index, seen as a map
            assert forall|x: u32| #[trigger]
                am_new.contains_key(x) implies (map_of(am_orig).contains_key(x) && am_new[x]
                == map_of(am_orig)[x]) || (c_spec.actors_to_track@.contains(x) && am_new[x]
                == c_spec.table_id) by {
                let jj = seq_key_index(am_target, x);
                if jj < am_orig.len() {
                    assert(seq_has_key(am_orig, x));
                    lemma_map_of_index(am_orig, jj);
                } else {
                    assert(am_target[jj] == c_spec.actors_to_track@.map_values(
                        |a: u32| (a, c_spec.table_id),
                    )[jj - am_orig.len()]);
                    assert(c_spec.actors_to_track@[jj - am_orig.len()] == x);
                }
            }
            assert forall|x: u32|
                map_of(am_orig).contains_key(x) implies #[trigger] am_new.contains_key(x) by {
                let jj = seq_key_index(am_orig, x);
                assert(am_target[jj] == am_orig[jj]);
                assert(seq_has_key(am_target, x));
            }
            assert forall|k: int|
                0 <= k < c_spec.actors_to_track@.len() implies #[trigger] am_new.contains_key(
                c_spec.actors_to_track@[k]) by {
                assert(am_target[am_orig.len() + k] == (c_spec.actors_to_track@[k],
                c_spec.table_id));
                assert(seq_has_key(am_target, c_spec.actors_to_track@[k]));
            }
            // validity of every tracked progress
            assert(progresses_valid(pm_new)) by {
                assert forall|k: int| 0 <= k < pm_new.len() implies (
                #[trigger] pm_new[k]).1.0.inv() by {
                    if k < pm_old.len() {
                        assert(pm_new[k] == pm_old[k]);
                    }
                }
            }
            // both directions of the index agreement
            assert(actors_registered(self.progress_view(), am_new)) by {
                assert forall|t: u32, a: u32|
                    #[trigger] self.progress_view().contains_key(t)
                        && #[trigger] self.progress_view()[t].0.states_map().contains_key(a)
                        implies am_new.contains_key(a) && am_new[a] == t by {
                    if t == c_spec.table_id {
                        assert(seq_has_key(states, a));
                        let k = seq_key_index(states, a);
                        assert(states[k] == c_spec.actors_to_track@.map_values(
                            |x: u32| (x, BackfillState::Init),
                        )[k]);
                        assert(c_spec.actors_to_track@[k] == a);
                        assert(am_target[am_orig.len() + k] == (a, c_spec.table_id));
                        assert(seq_has_key(am_target, a));
                        let jj = seq_key_index(am_target, a);
                        if jj < am_orig.len() {
                            assert(seq_has_key(am_orig, a));
                            lemma_map_of_index(am_orig, jj);
                            assert(map_of(am_orig).contains_key(a));
                            assert(false);
                        } else {
                            assert(am_target[jj] == c_spec.actors_to_track@.map_values(
                                |x: u32| (x, c_spec.table_id),
                            )[jj - am_orig.len()]);
                        }
                    } else {
                        assert(old(self).progress_view().contains_key(t));
                        assert(old(self).progress_view()[t] == self.progress_view()[t]);
                        assert(map_of(am_orig).contains_key(a) && map_of(am_orig)[a] == t);
                        let jj = seq_key_index(am_orig, a);
                        assert(am_target[jj] == am_orig[jj]);
                        assert(seq_has_key(am_target, a));
                        let kk = seq_key_index(am_target, a);
                        lemma_map_of_index(am_target, kk);
                        lemma_map_of_index(am_target, jj);
                    }
                }
            }
            assert(actor_map_sound(self.progress_view(), am_new)) by {
                assert forall|a: u32| #[trigger]
                    am_new.contains_key(a) implies self.progress_view().contains_key(am_new[a])
                    && self.progress_view()[am_new[a]].0.states_map().contains_key(a) by {
                    if map_of(am_orig).contains_key(a) && !c_spec.actors_to_track@.contains(a) {
                        let t0 = map_of(am_orig)[a];
                        assert(old(self).progress_view().contains_key(t0));
                        assert(t0 != c_spec.table_id);
                    } else {
                        let k = choose|k: int|
                            0 <= k < c_spec.actors_to_track@.len() && c_spec.actors_to_track@[k]
                                == a;
                        assert(states[k] == c_spec.actors_to_track@.map_values(
                            |x: u32| (x, BackfillState::Init),
                        )[k]);
                        assert(seq_has_key(states, a));
                        lemma_map_of_index(states, seq_key_index(states, a));
                        assert(po.states_map().contains_key(a));
                        assert(am_new[a] == c_spec.table_id);
                    }
                }
            }
        }
        None
    }
}

} // verus!

verus! {

/// The outcome of applying one progress report to the tracker: `pre` is
/// the tracker before, `post` after, `r` the returned job.
pub open spec fn spec_update_outcome(
    pre: CreateMviewProgressTracker,
    post: CreateMviewProgressTracker,
    progress: CreateMviewProgress,
    stats: HummockVersionStats,
    r: Option<TrackingJob>,
) -> bool {
    let a = progress.backfill_actor_id;
    if !pre.actor_view().contains_key(a) {
        post == pre && r is None
    } else {
        let t = pre.actor_view()[a];
        let p = pre.progress_view()[t].0;
        let cur = p.states_map()[a];
        let ns = report_state(progress);
        let becomes_done = state_is_done(ns) && p.spec_done_count() + 1 == p.states_seq().len();
        if state_is_done(cur) {
            // a second report for a finished actor is ignored
            post == pre && r is None
        } else if sum_rows(p.states_seq()) - state_rows(cur) + progress.consumed_rows
            > u64::MAX {
            // a report that would overflow the counter is ignored
            post == pre && r is None
        } else if becomes_done {
            &&& r == Some(pre.progress_view()[t].1)
            &&& post.progress_view() == pre.progress_view().remove(t)
            &&& post.actor_view() == map_without_value(pre.actor_view(), t)
        } else {
            let pv = post.progress_view();
            &&& r is None
            &&& post.actor_view() == pre.actor_view()
            &&& pv.contains_key(t)
            &&& forall|t2: u32|
                t2 != t ==> #[trigger] pv.contains_key(t2) == pre.progress_view().contains_key(t2)
                    && (pv.contains_key(t2) ==> pv[t2] == pre.progress_view()[t2])
            &&& pv[t].1 == pre.progress_view()[t].1
            &&& pv[t].0.states_map() == p.states_map().insert(a, ns)
            &&& pv[t].0.spec_consumed_rows() == sum_rows(p.states_seq()) - state_rows(cur)
                + progress.consumed_rows
            &&& pv[t].0.spec_done_count() == p.spec_done_count() + (
            if state_is_done(ns) {
                1int
            } else {
                0int
            })
            &&& pv[t].0.spec_upstream_total_key_count() == weighted_key_count_sat(
                p.spec_upstream_mv_count().entry_seq(),
                stats.table_stats@,
            )
            &&& pv[t].0.spec_upstream_mv_count() == p.spec_upstream_mv_count()
            &&& pv[t].0.spec_definition() == p.spec_definition()
        }
    }
}

impl CreateMviewProgressTracker {
    /// Apply one per-actor progress report.
    ///
    /// Reports for unknown actors are ignored: after a restart, backfill
    /// always notifies the tracker, even when the whole job already
    /// finished. A report for an actor already `Done` is a protocol error
    /// and is ignored too, as is a report whose rows would overflow the
    /// job's consumed-row counter. Otherwise the owning job's progress is
    /// updated, with the upstream total key count refreshed from
    /// `version_stats`; if that completes the job, it is removed from both
    /// indexes and handed back.
    pub fn update(&mut self, progress: &CreateMviewProgress, version_stats: &HummockVersionStats)
        -> (r: Option<TrackingJob>)
        requires
            old(self).inv(),
            version_stats.table_stats.inv(),
        ensures
            final(self).inv(),
            final(self).spec_finished_jobs() == old(self).spec_finished_jobs(),
            spec_update_outcome(*old(self), *final(self), *progress, *version_stats, r),
    {
        let actor = progress.backfill_actor_id;
        let table_id = match self.actor_map.get(actor) {
            Some(t) => *t,
            None => {
                return None;
            },
        };
        proof {
            self.lemma_actor_map_consistent(actor);
        }
        let ghost pm_entries = self.progress_entries();
        let ghost p_old = self.progress_view()[table_id].0;

        // read-only guards: double-done and counter overflow
        let mut cur_is_done = false;
        let mut cur_rows: u64 = 0;
        let mut consumed: u64 = 0;
        match self.progress_map.get(table_id) {
            Some(entry) => {
                match entry.0.state_of(actor) {
                    Some(s) => {
                        match s {
                            BackfillState::Init => {},
                            BackfillState::ConsumingUpstream(_, r0) => {
                                cur_rows = r0;
                            },
                            BackfillState::Done(r0) => {
                                cur_is_done = true;
                                cur_rows = r0;
                            },
                        }
                    },
                    None => {
                        proof {
                            assert(false);
                        }
                    },
                }
                consumed = entry.0.consumed_rows();
            },
            None => {
                proof {
                    assert(false);
                }
            },
        }
        if cur_is_done {
            return None;
        }
        proof {
            let s = p_old.states_seq();
            p_old.states().lemma_view();
            assert(seq_has_key(s, actor));
            let idx = seq_key_index(s, actor);
            assert(0 <= idx < s.len() && s[idx].0 == actor);
            lemma_map_of_index(s, idx);
            crate::progress::lemma_sum_rows_remove(s, idx);
            crate::progress::lemma_sum_rows_nonneg(s.remove(idx));
            crate::progress::lemma_count_done_remove(s, idx);
            crate::progress::lemma_count_done_bounds(s.remove(idx));
        }
        let delta = consumed - cur_rows;
        match delta.checked_add(progress.consumed_rows) {
            Some(_) => {},
            None => {
                return None;
            },
        }

        // refresh the upstream total key count
        let upstream_total_key_count = match self.progress_map.get(table_id) {
            Some(entry) => compute_weighted_key_count(entry.0.upstream_mv_count(), version_stats),
            None => {
                proof {
                    assert(false);
                }
                0
            },
        };

        let new_state = if progress.done {
            BackfillState::Done(progress.consumed_rows)
        } else {
            BackfillState::ConsumingUpstream(progress.consumed_epoch, progress.consumed_rows)
        };

        let pair = match self.progress_map.remove(table_id) {
            Some(pair) => pair,
            None => {
                proof {
                    assert(false);
                }
                return None;
            },
        };
        let mut p = pair.0;
        let job = pair.1;
        p.update(actor, new_state, upstream_total_key_count);
        let done_now = p.is_done();
        if done_now {
            // unregister the job's actors and hand the job back
            let actors = p.actors();
            let ghost am_orig = old(self).actor_view();
            let ghost pm_saved = self.spec_progress_map();
            let ghost fj_saved = self.spec_finished_jobs();
            proof {
                p.states().lemma_view();
                p_old.states().lemma_view();
                assert(p.states_map().dom() =~= p_old.states_map().dom());
            }
            let n = actors.len();
            let mut i: usize = 0;
            while i < n
                invariant
                    self.spec_progress_map() == pm_saved,
                    self.spec_finished_jobs() == fj_saved,
                    self.actor_map.inv(),
                    n == actors@.len(),
                    0 <= i <= n,
                    forall|x: u32| #[trigger]
                        self.actor_map@.contains_key(x) ==> am_orig.contains_key(x)
                            && self.actor_map@[x] == am_orig[x],
                    forall|x: u32|
                        am_orig.contains_key(x) && !actors@.contains(x) ==> #[trigger] self
                            .actor_map@.contains_key(x),
                    forall|j: int| 0 <= j < i ==> !self.actor_map@.contains_key(
                        #[trigger] actors@[j],
                    ),
                decreases n - i,
            {
                let _ = self.actor_map.remove(actors[i]);
                i = i + 1;
            }
            proof {
                let am_new = self.actor_map@;
                // the set of removed keys is exactly the set of keys owned by
                // this job
                assert(am_new =~= map_without_value(am_orig, table_id)) by {
                    assert forall|x: u32| #[trigger]
                        am_new.contains_key(x) implies am_orig.contains_key(x) && am_orig[x]
                        != table_id && am_new[x] == am_orig[x] by {
                        if am_orig[x] == table_id {
                            assert(p_old.states_map().contains_key(x));
                            assert(seq_has_key(p.states_seq(), x));
                            let k = seq_key_index(p.states_seq(), x);
                            assert(p.states().key_seq()[k] == x);
                            assert(actors@[k] == x);
                        }
                    }
                    assert forall|x: u32|
                        am_orig.contains_key(x) && am_orig[x] != table_id
                            implies #[trigger] am_new.contains_key(x) by {
                        if actors@.contains(x) {
                            let k = choose|k: int| 0 <= k < actors@.len() && actors@[k] == x;
                            assert(p.states().key_seq()[k] == x);
                            assert(p.states_seq()[k].0 == x);
                            assert(seq_has_key(p.states_seq(), x));
                            assert(p.states_map().contains_key(x));
                            assert(p_old.states_map().contains_key(x));
                            assert(am_orig[x] == table_id);
                        }
                    }
                }
                assert(self.progress_view() =~= old(self).progress_view().remove(table_id));
                // validity of the remaining entries
                let pm_new = self.progress_entries();
                old(self).spec_progress_map().lemma_view();
                assert(progresses_valid(pm_new)) by {
                    assert forall|k: int| 0 <= k < pm_new.len() implies (
                    #[trigger] pm_new[k]).1.0.inv() by {
                        assert(seq_has_key(pm_entries, table_id));
                        let idx = seq_key_index(pm_entries, table_id);
                        let k0 = if k < idx {
                            k
                        } else {
                            k + 1
                        };
                        assert(pm_new[k] == pm_entries[k0]);
                    }
                }
            }
            Some(job)
        } else {
            self.progress_map.insert(table_id, (p, job));
            proof {
                let pm_new = self.progress_entries();
                assert(self.progress_view() == old(self).progress_view().remove(table_id).insert(
                    table_id,
                    (p, job),
                ));
                assert(self.progress_view() =~= old(self).progress_view().insert(
                    table_id,
                    (p, job),
                ));
                // the actor set of the job did not change, so both index
                // directions still agree
                p.states().lemma_view();
                p_old.states().lemma_view();
                assert(p.states_map().dom() =~= p_old.states_map().dom());
                old(self).spec_progress_map().lemma_view();
                assert(progresses_valid(pm_new)) by {
                    assert forall|k: int| 0 <= k < pm_new.len() implies (
                    #[trigger] pm_new[k]).1.0.inv() by {
                        assert(seq_has_key(pm_entries, table_id));
                        let idx = seq_key_index(pm_entries, table_id);
                        if k < pm_new.len() - 1 {
                            let k0 = if k < idx {
                                k
                            } else {
                                k + 1
                            };
                            assert(pm_new[k] == pm_entries.remove(idx)[k]);
                            assert(pm_new[k] == pm_entries[k0]);
                        }
                    }
                }
                assert(actors_registered(self.progress_view(), self.actor_view())) by {
                    assert forall|t2: u32, x: u32|
                        #[trigger] self.progress_view().contains_key(t2)
                            && #[trigger] self.progress_view()[t2].0.states_map().contains_key(x)
                            implies self.actor_view().contains_key(x) && self.actor_view()[x]
                        == t2 by {
                        if t2 == table_id {
                            assert(p_old.states_map().contains_key(x));
                        }
                    }
                }
                assert(actor_map_sound(self.progress_view(), self.actor_view())) by {
                    assert forall|x: u32| #[trigger]
                        self.actor_view().contains_key(x) implies self.progress_view()
                        .contains_key(self.actor_view()[x]) && self.progress_view()[self
                        .actor_view()[x]].0.states_map().contains_key(x) by {
                        if self.actor_view()[x] == table_id {
                            assert(p_old.states_map().contains_key(x));
                        }
                    }
                }
            }
            None
        }
    }
}

} // verus!

verus! {

/// The reverse-index entries induced by a table-to-actors sequence: one
/// `(actor, table)` pair per actor, tables in order.
pub open spec fn reg_pairs(s: Seq<(u32, Vec<u32>)>) -> Seq<(u32, u32)>
    decreases s.len(),
{
    if s.len() == 0 {
        Seq::empty()
    } else {
        reg_pairs(s.drop_last()) + s.last().1@.map_values(|a: u32| (a, s.last().0))
    }
}

proof fn lemma_reg_pairs_push(s: Seq<(u32, Vec<u32>)>, e: (u32, Vec<u32>))
    ensures
        reg_pairs(s.push(e)) == reg_pairs(s) + e.1@.map_values(|a: u32| (a, e.0)),
{
    assert(s.push(e).drop_last() =~= s);
    assert(s.push(e).last() == e);
}

/// Every entry of `reg_pairs(s)` is `(actor, table)` for some table of `s`
/// and some actor of that table.
proof fn lemma_reg_pairs_elem(s: Seq<(u32, Vec<u32>)>, k: int)
    requires
        0 <= k < reg_pairs(s).len(),
    ensures
        exists|j: int, p: int|
            0 <= j < s.len() && 0 <= p < s[j].1@.len() && reg_pairs(s)[k] == (
            #[trigger] s[j].1@[p],
            s[j].0,
            ),
    decreases s.len(),
{
    let head = reg_pairs(s.drop_last());
    if k < head.len() {
        lemma_reg_pairs_elem(s.drop_last(), k);
        let (j, p) = choose|j: int, p: int|
            0 <= j < s.drop_last().len() && 0 <= p < s.drop_last()[j].1@.len() && reg_pairs(
                s.drop_last(),
            )[k] == (#[trigger] s.drop_last()[j].1@[p], s.drop_last()[j].0);
        assert(s.drop_last()[j] == s[j]);
        assert(0 <= j < s.len() && 0 <= p < s[j].1@.len() && reg_pairs(s)[k] == (s[j].1@[p],
        s[j].0));
    } else {
        let p = k - head.len();
        let j = s.len() - 1;
        assert(reg_pairs(s)[k] == s.last().1@.map_values(|a: u32| (a, s.last().0))[p]);
        assert(0 <= j < s.len() && 0 <= p < s[j].1@.len() && reg_pairs(s)[k] == (s[j].1@[p],
        s[j].0));
    }
}

/// Conversely, every actor of every table of `s` appears in `reg_pairs(s)`.
proof fn lemma_reg_pairs_index(s: Seq<(u32, Vec<u32>)>, j: int, p: int)
    requires
        0 <= j < s.len(),
        0 <= p < s[j].1@.len(),
    ensures
        reg_pairs(s).contains((s[j].1@[p], s[j].0)),
    decreases s.len(),
{
    let head = reg_pairs(s.drop_last());
    if j == s.len() - 1 {
        assert(reg_pairs(s)[head.len() + p] == s.last().1@.map_values(
            |a: u32| (a, s.last().0),
        )[p]);
    } else {
        lemma_reg_pairs_index(s.drop_last(), j, p);
        assert(s.drop_last()[j] == s[j]);
        let k = choose|k: int|
            0 <= k < head.len() && head[k] == (s[j].1@[p], s[j].0);
        assert(reg_pairs(s)[k] == head[k]);
    }
}

impl CreateMviewProgressTracker {
    /// Rebuild the tracker from state persisted on the meta side. Every
    /// actor starts in `ConsumingUpstream` at epoch 0 with 0 rows; the done
    /// and consumed counters fill in once the first barrier carries real
    /// reports. The auxiliary maps are consumed: each tracked table takes
    /// its upstream counts, definition, notifier and fragments out of them.
    pub fn recover(
        table_map: VecMap<Vec<ActorId>>,
        upstream_mv_counts: VecMap<VecMap<u64>>,
        definitions: VecMap<String>,
        version_stats: &HummockVersionStats,
        finished_notifiers: VecMap<Notifier>,
        table_fragment_map: VecMap<TableFragments>,
        metadata_manager: MetadataManager,
    ) -> (r: Self)
        requires
            table_map.inv(),
            upstream_mv_counts.inv(),
            definitions.inv(),
            finished_notifiers.inv(),
            table_fragment_map.inv(),
            version_stats.table_stats.inv(),
            forall|t: u32| #[trigger]
                upstream_mv_counts@.contains_key(t) ==> upstream_mv_counts@[t].inv(),
            forall|i: int|
                0 <= i < table_map.entry_seq().len() ==> {
                    let t = (#[trigger] table_map.entry_seq()[i]).0;
                    &&& upstream_mv_counts@.contains_key(t)
                    &&& definitions@.contains_key(t)
                    &&& finished_notifiers@.contains_key(t)
                    &&& table_fragment_map@.contains_key(t)
                },
            forall|i: int|
                0 <= i < table_map.entry_seq().len() ==> (
                #[trigger] table_map.entry_seq()[i]).1@.len() > 0,
            forall|i: int, p: int, q: int|
                0 <= i < table_map.entry_seq().len() && 0 <= p < q
                    < table_map.entry_seq()[i].1@.len() ==> #[trigger] table_map.entry_seq()[i]
                    .1@[p] != #[trigger] table_map.entry_seq()[i].1@[q],
            forall|i: int, j: int, p: int, q: int|
                0 <= i < j < table_map.entry_seq().len() && 0 <= p
                    < table_map.entry_seq()[i].1@.len() && 0 <= q
                    < table_map.entry_seq()[j].1@.len() ==> #[trigger] table_map.entry_seq()[i]
                    .1@[p] != #[trigger] table_map.entry_seq()[j].1@[q],
        ensures
            r.inv(),
            r.spec_finished_jobs() == Seq::<TrackingJob>::empty(),
            r.progress_entries().len() == table_map.entry_seq().len(),
            forall|i: int|
                0 <= i < r.progress_entries().len() ==> {
                    let t = (#[trigger] table_map.entry_seq()[i]).0;
                    let actors = table_map.entry_seq()[i].1;
                    &&& r.progress_entries()[i].0 == t
                    &&& r.progress_entries()[i].1.1 == TrackingJob::Recovered(
                        RecoveredTrackingJob {
                            fragments: table_fragment_map@[t],
                            finished: finished_notifiers@[t],
                            metadata_manager: metadata_manager,
                        },
                    )
                    &&& r.progress_entries()[i].1.0.states_seq() == actors@.map_values(
                        |a: u32| (a, BackfillState::ConsumingUpstream(0, 0)),
                    )
                    &&& r.progress_entries()[i].1.0.spec_done_count() == 0
                    &&& r.progress_entries()[i].1.0.spec_consumed_rows() == 0
                    &&& r.progress_entries()[i].1.0.spec_upstream_mv_count().entry_seq()
                        == upstream_mv_counts@[t].entry_seq()
                    &&& r.progress_entries()[i].1.0.spec_upstream_total_key_count()
                        == weighted_key_count_sat(
                        upstream_mv_counts@[t].entry_seq(),
                        version_stats.table_stats@,
                    )
                    &&& r.progress_entries()[i].1.0.spec_definition() == definitions@[t]@
                },
    {
        let ghost tm = table_map.entry_seq();
        let ghost umc0 = upstream_mv_counts@;
        let ghost defs0 = definitions@;
        let ghost fins0 = finished_notifiers@;
        let ghost tfm0 = table_fragment_map@;
        let mut upstream_mv_counts = upstream_mv_counts;
        let mut definitions = definitions;
        let mut finished_notifiers = finished_notifiers;
        let mut table_fragment_map = table_fragment_map;
        let mut progress_map: VecMap<(Progress, TrackingJob)> = VecMap::new();
        let mut actor_map: VecMap<TableId> = VecMap::new();
        let n = table_map.len();
        let mut i: usize = 0;
        while i < n
            invariant
                table_map.inv(),
                version_stats.table_stats.inv(),
                tm == table_map.entry_seq(),
                n == tm.len(),
                0 <= i <= n,
                upstream_mv_counts.inv(),
                definitions.inv(),
                finished_notifiers.inv(),
                table_fragment_map.inv(),
                forall|t: u32| #[trigger]
                    upstream_mv_counts@.contains_key(t) ==> upstream_mv_counts@[t].inv(),
                forall|j: int|
                    i <= j < n ==> {
                        let t = (#[trigger] tm[j]).0;
                        &&& upstream_mv_counts@.contains_key(t) && upstream_mv_counts@[t]
                            == umc0[t]
                        &&& definitions@.contains_key(t) && definitions@[t] == defs0[t]
                        &&& finished_notifiers@.contains_key(t) && finished_notifiers@[t]
                            == fins0[t]
                        &&& table_fragment_map@.contains_key(t) && table_fragment_map@[t]
                            == tfm0[t]
                    },
                forall|j: int| 0 <= j < n ==> (#[trigger] tm[j]).1@.len() > 0,
                forall|j: int, p: int, q: int|
                    0 <= j < n && 0 <= p < q < tm[j].1@.len() ==> #[trigger] tm[j].1@[p]
                        != #[trigger] tm[j].1@[q],
                forall|j: int, j2: int, p: int, q: int|
                    0 <= j < j2 < n && 0 <= p < tm[j].1@.len() && 0 <= q < tm[j2].1@.len()
                        ==> #[trigger] tm[j].1@[p] != #[trigger] tm[j2].1@[q],
                progress_map.inv(),
                actor_map.inv(),
                actor_map.entry_seq() == reg_pairs(tm.subrange(0, i as int)),
                progress_map.entry_seq().len() == i,
                forall|j: int|
                    0 <= j < i ==> {
                        let t = (#[trigger] tm[j]).0;
                        let actors = tm[j].1;
                        &&& progress_map.entry_seq()[j].0 == t
                        &&& progress_map.entry_seq()[j].1.0.inv()
                        &&& progress_map.entry_seq()[j].1.1 == TrackingJob::Recovered(
                            RecoveredTrackingJob {
                                fragments: tfm0[t],
                                finished: fins0[t],
                                metadata_manager: metadata_manager,
                            },
                        )
                        &&& progress_map.entry_seq()[j].1.0.states_seq() == actors@.map_values(
                            |a: u32| (a, BackfillState::ConsumingUpstream(0, 0)),
                        )
                        &&& progress_map.entry_seq()[j].1.0.spec_done_count() == 0
                        &&& progress_map.entry_seq()[j].1.0.spec_consumed_rows() == 0
                        &&& progress_map.entry_seq()[j].1.0.spec_upstream_mv_count().entry_seq()
                            == umc0[t].entry_seq()
                        &&& progress_map.entry_seq()[j].1.0.spec_upstream_total_key_count()
                            == weighted_key_count_sat(
                            umc0[t].entry_seq(),
                            version_stats.table_stats@,
                        )
                        &&& progress_map.entry_seq()[j].1.0.spec_definition() == defs0[t]@
                    },
            decreases n - i,
        {
            let creating_table_id = table_map.key_at(i);
            let actors = copy_u32_vec(table_map.value_at(i));
            let upstream_mv_count = match upstream_mv_counts.remove(creating_table_id) {
                Some(u) => u,
                None => {
                    proof {
                        assert(false);
                    }
                    VecMap::new()
                },
            };
            let definition = match definitions.remove(creating_table_id) {
                Some(d) => d,
                None => {
                    proof {
                        assert(false);
                    }
                    String::new()
                },
            };
            let finished = match finished_notifiers.remove(creating_table_id) {
                Some(f) => f,
                None => {
                    proof {
                        assert(false);
                    }
                    Notifier { id: 0 }
                },
            };
            let fragments = match table_fragment_map.remove(creating_table_id) {
                Some(f) => f,
                None => {
                    proof {
                        assert(false);
                    }
                    TableFragments { table_id: 0 }
                },
            };
            let upstream_total_key_count = compute_weighted_key_count(
                &upstream_mv_count,
                version_stats,
            );

            // register the actors of this table
            let ghost am_before = actor_map.entry_seq();
            let na = actors.len();
            let mut k: usize = 0;
            while k < na
                invariant
                    na == actors@.len(),
                    0 <= k <= na,
                    0 <= i < n,
                    n == tm.len(),
                    actors@ == (#[trigger] tm[i as int]).1@,
                    creating_table_id == tm[i as int].0,
                    am_before == reg_pairs(tm.subrange(0, i as int)),
                    forall|j: int, p: int, q: int|
                        0 <= j < n && 0 <= p < q < tm[j].1@.len() ==> #[trigger] tm[j].1@[p]
                            != #[trigger] tm[j].1@[q],
                    forall|j: int, j2: int, p: int, q: int|
                        0 <= j < j2 < n && 0 <= p < tm[j].1@.len() && 0 <= q < tm[j2].1@.len()
                            ==> #[trigger] tm[j].1@[p] != #[trigger] tm[j2].1@[q],
                    actor_map.inv(),
                    actor_map.entry_seq() == am_before + actors@.subrange(0, k as int).map_values(
                        (|a: u32| (a, tm[i as int].0)),
                    ),
                decreases na - k,
            {
                proof {
                    actor_map.lemma_view();
                    if actor_map@.contains_key(actors@[k as int]) {
                        let kk = seq_key_index(actor_map.entry_seq(), actors@[k as int]);
                        if kk < am_before.len() {
                            lemma_reg_pairs_elem(tm.subrange(0, i as int), kk);
                            let (j, p) = choose|j: int, p: int|
                                0 <= j < tm.subrange(0, i as int).len() && 0 <= p < tm.subrange(
                                    0,
                                    i as int,
                                )[j].1@.len() && reg_pairs(tm.subrange(0, i as int))[kk] == (
                                #[trigger] tm.subrange(0, i as int)[j].1@[p],
                                tm.subrange(0, i as int)[j].0,
                                );
                            assert(tm[j].1@[p] == actors@[k as int]);
                            assert(tm[j].1@[p] != tm[i as int].1@[k as int]);
                        } else {
                            assert(actor_map.entry_seq()[kk] == actors@.subrange(
                                0,
                                k as int,
                            ).map_values((|a: u32| (a, tm[i as int].0)))[kk - am_before.len()]);
                            assert(actors@[kk - am_before.len()] == actors@[k as int]);
                        }
                        assert(false);
                    }
                }
                actor_map.insert(actors[k], creating_table_id);
                proof {
                    assert(actor_map.entry_seq() =~= am_before + actors@.subrange(
                        0,
                        k + 1,
                    ).map_values((|a: u32| (a, tm[i as int].0))));
                }
                k = k + 1;
            }
            proof {
                assert(actors@.subrange(0, na as int) =~= actors@);
                lemma_reg_pairs_push(tm.subrange(0, i as int), tm[i as int]);
                assert(tm.subrange(0, i + 1) =~= tm.subrange(0, i as int).push(tm[i as int]));
                assert(actor_map.entry_seq() =~= reg_pairs(tm.subrange(0, i + 1)));
            }

            let progress = Progress::with_initial_state(
                actors,
                BackfillState::ConsumingUpstream(0, 0),
                upstream_mv_count,
                upstream_total_key_count,
                definition,
            );
            let tracking_job = TrackingJob::Recovered(
                RecoveredTrackingJob {
                    fragments,
                    finished,
                    metadata_manager: metadata_manager.clone(),
                },
            );
            proof {
                progress_map.lemma_view();
                if progress_map@.contains_key(creating_table_id) {
                    let jj = seq_key_index(progress_map.entry_seq(), creating_table_id);
                    assert(progress_map.entry_seq()[jj].0 == tm[jj].0);
                    assert(false);
                }
            }
            progress_map.insert(creating_table_id, (progress, tracking_job));
            i = i + 1;
        }
        proof {
            assert(tm.subrange(0, n as int) =~= tm);
        }
        let r = CreateMviewProgressTracker { progress_map, actor_map, finished_jobs: Vec::new() };
        proof {
            let pm = r.progress_view();
            let am = r.actor_view();
            let pe = r.progress_entries();
            r.spec_progress_map().lemma_view();
            r.spec_actor_map().lemma_view();
            assert(progresses_valid(pe)) by {
                assert forall|j: int| 0 <= j < pe.len() implies (#[trigger] pe[j]).1.0.inv() by {
                    assert((#[trigger] tm[j]).1@.len() > 0);
                }
            }
            assert(actors_registered(pm, am)) by {
                assert forall|t: u32, x: u32|
                    #[trigger] pm.contains_key(t) && #[trigger] pm[t].0.states_map().contains_key(
                        x,
                    ) implies am.contains_key(x) && am[x] == t by {
                    let j = seq_key_index(pe, t);
                    assert(pe[j].0 == t);
                    let states = pe[j].1.0.states_seq();
                    assert(seq_has_key(states, x));
                    let p = seq_key_index(states, x);
                    assert(states[p] == tm[j].1@.map_values(
                        |a: u32| (a, BackfillState::ConsumingUpstream(0, 0)),
                    )[p]);
                    assert(tm[j].1@[p] == x);
                    lemma_reg_pairs_index(tm, j, p);
                    let kk = choose|kk: int|
                        0 <= kk < reg_pairs(tm).len() && reg_pairs(tm)[kk] == (tm[j].1@[p],
                        tm[j].0);
                    lemma_map_of_index(r.spec_actor_map().entry_seq(), kk);
                }
            }
            assert(actor_map_sound(pm, am)) by {
                assert forall|x: u32| #[trigger]
                    am.contains_key(x) implies pm.contains_key(am[x])
                    && pm[am[x]].0.states_map().contains_key(x) by {
                    let kk = seq_key_index(r.spec_actor_map().entry_seq(), x);
                    lemma_reg_pairs_elem(tm, kk);
                    let (j, p) = choose|j: int, p: int|
                        0 <= j < tm.len() && 0 <= p < tm[j].1@.len() && reg_pairs(tm)[kk] == (
                        #[trigger] tm[j].1@[p],
                        tm[j].0,
                        );
                    lemma_map_of_index(r.spec_actor_map().entry_seq(), kk);
                    assert(am[x] == tm[j].0);
                    lemma_map_of_index(pe, j);
                    assert(pm.contains_key(tm[j].0));
                    let states = pe[j].1.0.states_seq();
                    assert(states[p] == tm[j].1@.map_values(
                        |a: u32| (a, BackfillState::ConsumingUpstream(0, 0)),
                    )[p]);
                    assert(states[p].0 == x);
                    assert(seq_has_key(states, x));
                }
            }
        }
        r
    }
}

} // verus!
