//! Per-job backfill progress: one `BackfillState` per actor, plus the
//! aggregated counters the tracker reports to DDL clients.

use vstd::prelude::*;

use crate::vec_map::{map_of, seq_has_key, seq_key_index, lemma_map_of_index, VecMap};

verus! {

pub type ActorId = u32;

pub type TableId = u32;

pub type ConsumedRows = u64;

/// Backfill progress of one actor of a creating materialized view.
///
/// Transitions go `Init -> ConsumingUpstream -> Done`; a transition out of
/// `Done` is a protocol error and is refused by the callers of `update`.
#[derive(Clone, Copy, Debug)]
pub enum BackfillState {
    Init,
    /// The epoch the actor has consumed up to, and the rows consumed so far.
    ConsumingUpstream(u64, ConsumedRows),
    Done(ConsumedRows),
}

/// The rows recorded in one backfill state.
pub open spec fn state_rows(s: BackfillState) -> int {
    match s {
        BackfillState::Init => 0,
        BackfillState::ConsumingUpstream(_, r) => r as int,
        BackfillState::Done(r) => r as int,
    }
}

pub open spec fn state_is_done(s: BackfillState) -> bool {
    s matches BackfillState::Done(_)
}

/// The rows recorded over a whole per-actor state sequence.
pub open spec fn sum_rows(s: Seq<(u32, BackfillState)>) -> int
    decreases s.len(),
{
    if s.len() == 0 {
        0
    } else {
        sum_rows(s.drop_last()) + state_rows(s.last().1)
    }
}

/// How many states of the sequence are `Done`.
pub open spec fn count_done(s: Seq<(u32, BackfillState)>) -> int
    decreases s.len(),
{
    if s.len() == 0 {
        0
    } else {
        count_done(s.drop_last()) + if state_is_done(s.last().1) {
            1int
        } else {
            0int
        }
    }
}

pub proof fn lemma_sum_rows_push(s: Seq<(u32, BackfillState)>, e: (u32, BackfillState))
    ensures
        sum_rows(s.push(e)) == sum_rows(s) + state_rows(e.1),
{
    assert(s.push(e).drop_last() =~= s);
    assert(s.push(e).last() == e);
}

pub proof fn lemma_count_done_push(s: Seq<(u32, BackfillState)>, e: (u32, BackfillState))
    ensures
        count_done(s.push(e)) == count_done(s) + if state_is_done(e.1) {
            1int
        } else {
            0int
        },
{
    assert(s.push(e).drop_last() =~= s);
    assert(s.push(e).last() == e);
}

pub proof fn lemma_sum_rows_nonneg(s: Seq<(u32, BackfillState)>)
    ensures
        0 <= sum_rows(s),
    decreases s.len(),
{
    if s.len() > 0 {
        lemma_sum_rows_nonneg(s.drop_last());
    }
}

pub proof fn lemma_count_done_bounds(s: Seq<(u32, BackfillState)>)
    ensures
        0 <= count_done(s) <= s.len(),
    decreases s.len(),
{
    if s.len() > 0 {
        lemma_count_done_bounds(s.drop_last());
    }
}

/// Removing entry `i` removes exactly its rows from the sum.
pub proof fn lemma_sum_rows_remove(s: Seq<(u32, BackfillState)>, i: int)
    requires
        0 <= i < s.len(),
    ensures
        sum_rows(s) == sum_rows(s.remove(i)) + state_rows(s[i].1),
    decreases s.len(),
{
    if i == s.len() - 1 {
        assert(s.remove(i) =~= s.drop_last());
    } else {
        assert(s.remove(i).drop_last() =~= s.drop_last().remove(i));
        assert(s.remove(i).last() == s.last());
        lemma_sum_rows_remove(s.drop_last(), i);
    }
}

/// Removing entry `i` removes exactly its done-flag from the count.
pub proof fn lemma_count_done_remove(s: Seq<(u32, BackfillState)>, i: int)
    requires
        0 <= i < s.len(),
    ensures
        count_done(s) == count_done(s.remove(i)) + if state_is_done(s[i].1) {
            1int
        } else {
            0int
        },
    decreases s.len(),
{
    if i == s.len() - 1 {
        assert(s.remove(i) =~= s.drop_last());
    } else {
        assert(s.remove(i).drop_last() =~= s.drop_last().remove(i));
        assert(s.remove(i).last() == s.last());
        lemma_count_done_remove(s.drop_last(), i);
    }
}

/// Progress of all actors containing backfill executors while creating one
/// materialized view.
pub struct Progress {
    states: VecMap<BackfillState>,
    done_count: usize,
    /// How many times each upstream materialized view appears in this job.
    upstream_mv_count: VecMap<u64>,
    /// Total key count over the upstream materialized views, weighted by
    /// `upstream_mv_count`.
    upstream_total_key_count: u64,
    consumed_rows: u64,
    /// The DDL statement this job runs.
    definition: String,
}

impl Progress {
    pub closed spec fn states(&self) -> VecMap<BackfillState> {
        self.states
    }

    pub open spec fn states_seq(&self) -> Seq<(u32, BackfillState)> {
        self.states().entry_seq()
    }

    pub open spec fn states_map(&self) -> Map<u32, BackfillState> {
        map_of(self.states_seq())
    }

    pub closed spec fn spec_done_count(&self) -> int {
        self.done_count as int
    }

    pub closed spec fn spec_upstream_mv_count(&self) -> VecMap<u64> {
        self.upstream_mv_count
    }

    pub closed spec fn spec_upstream_total_key_count(&self) -> u64 {
        self.upstream_total_key_count
    }

    pub closed spec fn spec_consumed_rows(&self) -> u64 {
        self.consumed_rows
    }

    pub closed spec fn spec_definition(&self) -> Seq<char> {
        self.definition@
    }

    /// Validity: the per-actor map is a map, there is at least one actor,
    /// and the two aggregated counters agree with the per-actor states.
    pub open spec fn inv(&self) -> bool {
        &&& self.states().inv()
        &&& self.spec_upstream_mv_count().inv()
        &&& self.states_seq().len() > 0
        &&& self.spec_done_count() == count_done(self.states_seq())
        &&& self.spec_consumed_rows() == sum_rows(self.states_seq())
    }

    /// All backfill executors are done.
    pub open spec fn spec_is_done(&self) -> bool {
        self.spec_done_count() == self.states_seq().len()
    }

    /// Create a [`Progress`] for some creating materialized view, with all
    /// `actors` containing the backfill executors, each starting in `Init`.
    pub fn new(
        actors: Vec<ActorId>,
        upstream_mv_count: VecMap<u64>,
        upstream_total_key_count: u64,
        definition: String,
    ) -> (r: Self)
        requires
            actors@.len() > 0,
            forall|i: int, j: int| 0 <= i < j < actors@.len() ==> actors@[i] != actors@[j],
            upstream_mv_count.inv(),
        ensures
            r.inv(),
            r.states_seq() == actors@.map_values(|a: u32| (a, BackfillState::Init)),
            r.spec_done_count() == 0,
            r.spec_consumed_rows() == 0,
            r.spec_upstream_mv_count() == upstream_mv_count,
            r.spec_upstream_total_key_count() == upstream_total_key_count,
            r.spec_definition() == definition@,
    {
        Self::with_initial_state(
            actors,
            BackfillState::Init,
            upstream_mv_count,
            upstream_total_key_count,
            definition,
        )
    }

    /// Create a [`Progress`] with every actor in the given zero-row state:
    /// `Init` for a fresh job, `ConsumingUpstream(0, 0)` for a recovered one.
    pub fn with_initial_state(
        actors: Vec<ActorId>,
        initial: BackfillState,
        upstream_mv_count: VecMap<u64>,
        upstream_total_key_count: u64,
        definition: String,
    ) -> (r: Self)
        requires
            actors@.len() > 0,
            forall|i: int, j: int| 0 <= i < j < actors@.len() ==> actors@[i] != actors@[j],
            upstream_mv_count.inv(),
            state_rows(initial) == 0,
            !state_is_done(initial),
        ensures
            r.inv(),
            r.states_seq() == actors@.map_values(|a: u32| (a, initial)),
            r.spec_done_count() == 0,
            r.spec_consumed_rows() == 0,
            r.spec_upstream_mv_count() == upstream_mv_count,
            r.spec_upstream_total_key_count() == upstream_total_key_count,
            r.spec_definition() == definition@,
    {
        let ghost target = actors@.map_values(|a: u32| (a, initial));
        let mut states: VecMap<BackfillState> = VecMap::new();
        let n = actors.len();
        let mut i: usize = 0;
        while i < n
            invariant
                n == actors@.len(),
                0 <= i <= n,
                forall|p: int, q: int| 0 <= p < q < actors@.len() ==> actors@[p] != actors@[q],
                states.inv(),
                state_rows(initial) == 0,
                !state_is_done(initial),
                states.entry_seq() == actors@.map_values(|a: u32| (a, initial)).subrange(
                    0,
                    i as int,
                ),
                count_done(states.entry_seq()) == 0,
                sum_rows(states.entry_seq()) == 0,
            decreases n - i,
        {
            let ghost s_before = states.entry_seq();
            proof {
                states.lemma_view();
                if states@.contains_key(actors@[i as int]) {
                    assert(seq_has_key(s_before, actors@[i as int]));
                    let j = seq_key_index(s_before, actors@[i as int]);
                    assert(0 <= j < s_before.len() && s_before[j].0 == actors@[i as int]);
                    assert(s_before[j] == actors@.map_values(
                        |a: u32| (a, initial),
                    ).subrange(0, i as int)[j]);
                    assert(actors@[j] == actors@[i as int]);
                    assert(false);
                }
            }
            states.insert(actors[i], initial);
            proof {
                lemma_sum_rows_push(
                    s_before,
                    (actors@[i as int], initial),
                );
                lemma_count_done_push(
                    s_before,
                    (actors@[i as int], initial),
                );
                assert(states.entry_seq() =~= actors@.map_values(
                    |a: u32| (a, initial),
                ).subrange(0, i + 1));
            }
            i = i + 1;
        }
        proof {
            assert(states.entry_seq() =~= target);
        }
        Progress {
            states,
            done_count: 0,
            upstream_mv_count,
            upstream_total_key_count,
            consumed_rows: 0,
            definition,
        }
    }

    /// Update the progress of `actor`. The previously consumed rows of the
    /// actor are subtracted before the newly reported rows are added, which
    /// unifies consuming-state reports and done reports. The upstream total
    /// key count is refreshed to the freshest value supplied.
    pub fn update(&mut self, actor: ActorId, new_state: BackfillState, upstream_total_key_count: u64)
        requires
            old(self).inv(),
            old(self).states_map().contains_key(actor),
            !state_is_done(old(self).states_map()[actor]),
            sum_rows(old(self).states_seq()) - state_rows(old(self).states_map()[actor])
                + state_rows(new_state) <= u64::MAX,
        ensures
            final(self).inv(),
            final(self).states_map() == old(self).states_map().insert(actor, new_state),
            final(self).states_seq().len() == old(self).states_seq().len(),
            final(self).spec_consumed_rows() == sum_rows(old(self).states_seq()) - state_rows(
                old(self).states_map()[actor],
            ) + state_rows(new_state),
            final(self).spec_done_count() == old(self).spec_done_count() + (
            if state_is_done(new_state) {
                1int
            } else {
                0int
            }),
            final(self).spec_upstream_total_key_count() == upstream_total_key_count,
            final(self).spec_upstream_mv_count() == old(self).spec_upstream_mv_count(),
            final(self).spec_definition() == old(self).spec_definition(),
    {
        self.upstream_total_key_count = upstream_total_key_count;
        let total_actors = self.states.len();
        let ghost s_old = self.states.entry_seq();
        let ghost i = seq_key_index(s_old, actor);
        proof {
            self.states.lemma_view();
            assert(seq_has_key(s_old, actor));
            assert(0 <= i < s_old.len() && s_old[i].0 == actor);
            lemma_map_of_index(s_old, i);
            lemma_sum_rows_remove(s_old, i);
            lemma_count_done_remove(s_old, i);
            lemma_sum_rows_nonneg(s_old.remove(i));
            lemma_count_done_bounds(s_old.remove(i));
        }
        let old_state = self.states.remove(actor).unwrap();
        let ghost s_mid = self.states.entry_seq();
        match old_state {
            BackfillState::Init => {},
            BackfillState::ConsumingUpstream(_, old_consumed_rows) => {
                self.consumed_rows = self.consumed_rows - old_consumed_rows;
            },
            BackfillState::Done(_) => {
                // excluded by the precondition
                proof {
                    assert(false);
                }
            },
        }
        match &new_state {
            BackfillState::Init => {},
            BackfillState::ConsumingUpstream(_, new_consumed_rows) => {
                self.consumed_rows = self.consumed_rows + *new_consumed_rows;
            },
            BackfillState::Done(new_consumed_rows) => {
                self.consumed_rows = self.consumed_rows + *new_consumed_rows;
                proof {
                    lemma_count_done_bounds(s_mid);
                    assert(count_done(s_old) <= s_mid.len() < total_actors);
                }
                self.done_count = self.done_count + 1;
            },
        }
        proof {
            assert(!self.states@.contains_key(actor));
        }
        self.states.insert(actor, new_state);
        proof {
            lemma_sum_rows_push(s_mid, (actor, new_state));
            lemma_count_done_push(s_mid, (actor, new_state));
            assert(self.states_map() =~= old(self).states_map().insert(actor, new_state));
        }
    }

    /// Whether all backfill executors are done.
    pub fn is_done(&self) -> (r: bool)
        requires
            self.inv(),
        ensures
            r == self.spec_is_done(),
    {
        proof {
            lemma_count_done_bounds(self.states_seq());
        }
        self.done_count == self.states.len()
    }

    /// The ids of all actors containing the backfill executors for the
    /// materialized view tracked by this [`Progress`].
    pub fn actors(&self) -> (r: Vec<ActorId>)
        requires
            self.inv(),
        ensures
            r@ == self.states().key_seq(),
            forall|i: int| 0 <= i < r@.len() ==> self.states_map().contains_key(#[trigger] r@[i]),
    {
        self.states.keys()
    }

    /// The backfill state of one actor, if it is tracked here.
    pub fn state_of(&self, actor: ActorId) -> (r: Option<BackfillState>)
        requires
            self.inv(),
        ensures
            match r {
                Some(s) => self.states_map().contains_key(actor) && s == self.states_map()[actor],
                None => !self.states_map().contains_key(actor),
            },
    {
        match self.states.get(actor) {
            Some(s) => Some(*s),
            None => None,
        }
    }

    /// The number of tracked actors.
    pub fn actor_count(&self) -> (r: usize)
        ensures
            r == self.states_seq().len(),
    {
        self.states.len()
    }

    pub fn upstream_mv_count(&self) -> (r: &VecMap<u64>)
        ensures
            *r == self.spec_upstream_mv_count(),
    {
        &self.upstream_mv_count
    }

    pub fn consumed_rows(&self) -> (r: u64)
        ensures
            r == self.spec_consumed_rows(),
    {
        self.consumed_rows
    }

    pub fn upstream_total_key_count(&self) -> (r: u64)
        ensures
            r == self.spec_upstream_total_key_count(),
    {
        self.upstream_total_key_count
    }

    pub fn definition(&self) -> (r: &String)
        ensures
            r@ == self.spec_definition(),
    {
        &self.definition
    }

    /// The fraction `consumed_rows / upstream_total_key_count`, in basis
    /// points (hundredths of a percent, 0 ..= 10000). A job that is done, or
    /// has no actors, reports 10000; any other job reports at most 9900.
    pub fn calculate_progress(&self) -> (r: u64)
        requires
            self.inv(),
        ensures
            r == spec_calculate_progress(self),
    {
        if self.is_done() || self.states.is_empty() {
            return 10000;
        }
        let denom: u64 = if self.upstream_total_key_count == 0 {
            1
        } else {
            self.upstream_total_key_count
        };
        let scaled: u128 = (self.consumed_rows as u128) * 10000 / (denom as u128);
        if scaled >= 9900 {
            9900
        } else {
            scaled as u64
        }
    }
}

/// `min(consumed * 10000 / max(total, 1), 9900)`: the progress fraction in
/// basis points for a job that is not yet done.
pub open spec fn spec_progress_basis_points(consumed: u64, total: u64) -> int {
    let denom = if total == 0 {
        1int
    } else {
        total as int
    };
    let scaled = consumed * 10000 / denom;
    if scaled >= 9900 {
        9900int
    } else {
        scaled
    }
}

/// The progress fraction of a job in basis points: 10000 when the job is
/// done or has no actors, `spec_progress_basis_points` otherwise.
pub open spec fn spec_calculate_progress(p: &Progress) -> int {
    if p.spec_is_done() || p.states_seq().len() == 0 {
        10000
    } else {
        spec_progress_basis_points(p.spec_consumed_rows(), p.spec_upstream_total_key_count())
    }
}

/// The reported progress of a valid [`Progress`] lies in the unit interval
/// (scaled to basis points); it is exactly 1 if and only if the job is done
/// or has no actors, and it never exceeds 0.99 otherwise.
pub proof fn lemma_progress_in_unit_range(p: &Progress)
    requires
        p.inv(),
    ensures
        0 <= spec_calculate_progress(p) <= 10000,
        (spec_calculate_progress(p) == 10000) <==> (p.spec_is_done() || p.states_seq().len() == 0),
        !(p.spec_is_done() || p.states_seq().len() == 0) ==> spec_calculate_progress(p) <= 9900,
{
    if !(p.spec_is_done() || p.states_seq().len() == 0) {
        let consumed = p.spec_consumed_rows();
        let total = p.spec_upstream_total_key_count();
        let denom: int = if total == 0 {
            1int
        } else {
            total as int
        };
        let scaled = consumed * 10000 / denom;
        assert(consumed * 10000 >= 0) by (nonlinear_arith)
            requires
                consumed >= 0,
        ;
        vstd::arithmetic::div_mod::lemma_div_pos_is_pos(consumed * 10000, denom);
    }
}

/// The consumed-row counter of a valid [`Progress`] equals the sum of the
/// rows recorded in its per-actor backfill states.
pub proof fn lemma_progress_consumed_rows_is_sum(p: &Progress)
    requires
        p.inv(),
    ensures
        p.spec_consumed_rows() == sum_rows(p.states_seq()),
{
}

} // verus!
