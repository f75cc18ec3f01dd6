//! The step loop that the gradient runs share.
//!
//! A run measures its state, records the measurement, and decides whether to
//! apply the pending update. [`StepLoop`] makes the decisions and keeps the state
//! and the records; the caller measures, polls, and computes the next state.

use crate::double::{comparisons_are_numeric, Double};
use vstd::prelude::*;

verus! {

/// Why a run's step loop ended.
#[derive(Clone, Copy, Debug, PartialEq, Eq, Structural)]
pub enum Outcome {
    /// The relative update fell to the tolerance or below.
    Converged,
    /// The step budget was used up.
    StepLimit,
    /// The caller asked the run to stop.
    Stopped,
}

/// What a step loop reads of a record.
pub trait Record: Sized {
    /// The number of updates applied before the recorded state.
    spec fn step_number(&self) -> nat;

    /// The relative size of the update pending from the recorded state.
    spec fn pending_update(&self) -> Double;

    /// The number of updates applied before the recorded state.
    fn step(&self) -> (step: usize)
        ensures
            step == self.step_number(),
    ;

    /// The relative size of the update pending from the recorded state.
    fn relative_update(&self) -> (update: Double)
        ensures
            update == self.pending_update(),
    ;
}

/// What a step loop waits for.
#[derive(Clone, Copy, Debug, PartialEq, Eq, Structural)]
pub enum Phase {
    /// The record of the current state.
    Measure,
    /// The answer whether to stop before the pending update.
    Poll,
    /// Nothing: the loop has ended.
    Ended(Outcome),
}

/// The records number the steps from 0 on.
pub open spec fn numbered_records<R: Record>(records: Seq<R>) -> bool {
    forall|k: int| 0 <= k < records.len() ==> (#[trigger] records[k]).step_number() == k
}

/// The record's pending update is small enough to count as converged. A NaN is
/// not.
pub open spec fn settled<R: Record>(record: R, tolerance: Double) -> bool {
    tolerance.greater_or_same(record.pending_update())
}

/// The records, the applied updates and the outcome of a run that has ended:
/// one record per state, numbered from 0, none but the last settled; no more
/// updates than the budget; and the outcome that the last record and the budget
/// call for.
pub open spec fn run_ended<R: Record>(
    records: Seq<R>,
    steps: nat,
    outcome: Outcome,
    max_steps: nat,
    tolerance: Double,
) -> bool {
    &&& records.len() == steps + 1
    &&& numbered_records(records)
    &&& steps <= max_steps
    &&& forall|k: int| 0 <= k < steps ==> !settled(#[trigger] records[k], tolerance)
    &&& outcome is Converged <==> settled(records[steps as int], tolerance)
    &&& outcome is StepLimit <==> !settled(records[steps as int], tolerance) && steps
        == max_steps
    &&& outcome is Stopped ==> steps < max_steps
}

/// A step loop: the state that it is at, the records so far, and what it waits
/// for.
pub struct StepLoop<S, R: Record> {
    state: S,
    records: Vec<R>,
    steps: usize,
    max_steps: usize,
    tolerance: Double,
    phase: Phase,
    seen: Ghost<Seq<S>>,
}

impl<S, R: Record> StepLoop<S, R> {
    /// The state that the loop is at.
    pub closed spec fn current(self) -> S {
        self.state
    }

    /// The states that were measured, in order.
    pub closed spec fn measured(self) -> Seq<S> {
        self.seen@
    }

    /// The records so far.
    pub closed spec fn history(self) -> Seq<R> {
        self.records@
    }

    /// The updates applied so far.
    pub closed spec fn applied(self) -> nat {
        self.steps as nat
    }

    /// The update budget.
    pub closed spec fn budget(self) -> nat {
        self.max_steps as nat
    }

    /// The relative update at or below which the run has converged.
    pub closed spec fn bound(self) -> Double {
        self.tolerance
    }

    /// What the loop waits for.
    pub closed spec fn waits_for(self) -> Phase {
        self.phase
    }

    /// The invariant: one record per state that was measured, numbered from 0,
    /// none but a last one settled; no more updates than the budget; and, once
    /// a state has been measured, that state until an update is applied.
    pub open spec fn wf(self) -> bool {
        &&& numbered_records(self.history())
        &&& self.measured().len() == self.history().len()
        &&& !(self.waits_for() is Measure) ==> self.measured().last() == self.current()
        &&& self.applied() <= self.budget() <= usize::MAX
        &&& forall|k: int|
            0 <= k < self.applied() ==> !settled(#[trigger] self.history()[k], self.bound())
        &&& match self.waits_for() {
            Phase::Measure => self.history().len() == self.applied(),
            Phase::Poll => self.history().len() == self.applied() + 1 && self.applied()
                < self.budget() && !settled(
                self.history()[self.applied() as int],
                self.bound(),
            ),
            Phase::Ended(outcome) => run_ended(
                self.history(),
                self.applied(),
                outcome,
                self.budget(),
                self.bound(),
            ),
        }
    }

    /// A loop at its initial state, before its first measurement.
    pub fn new(max_steps: usize, tolerance: Double, state: S) -> (made: StepLoop<S, R>)
        ensures
            made.wf(),
            made.waits_for() == Phase::Measure,
            made.current() == state,
            made.measured().len() == 0,
            made.history().len() == 0,
            made.applied() == 0,
            made.budget() == max_steps,
            made.bound() == tolerance,
    {
        StepLoop {
            state,
            records: Vec::new(),
            steps: 0,
            max_steps,
            tolerance,
            phase: Phase::Measure,
            seen: Ghost(Seq::empty()),
        }
    }

    /// The state that the loop is at.
    pub fn state(&self) -> (state: &S)
        ensures
            *state == self.current(),
    {
        &self.state
    }

    /// The number of applied updates.
    pub fn steps(&self) -> (steps: usize)
        ensures
            steps == self.applied(),
    {
        self.steps
    }

    /// What the loop waits for.
    pub fn phase(&self) -> (phase: Phase)
        ensures
            phase == self.waits_for(),
    {
        self.phase
    }

    /// Takes the record of the current state. The loop ends as converged where
    /// the relative update is at most the tolerance, else at the step limit
    /// where the budget is used up, and else waits for a poll.
    pub fn record(&mut self, record: R)
        requires
            old(self).wf(),
            old(self).waits_for() == Phase::Measure,
            record.step_number() == old(self).applied(),
        ensures
            final(self).wf(),
            recorded(*old(self), record, *final(self)),
    {
        let converged: bool = self.tolerance.reaches(record.relative_update());
        self.records.push(record);
        self.seen = Ghost(self.seen@.push(self.state));
        if converged {
            self.phase = Phase::Ended(Outcome::Converged);
        } else if self.steps >= self.max_steps {
            self.phase = Phase::Ended(Outcome::StepLimit);
        } else {
            self.phase = Phase::Poll;
        }
    }

    /// Takes the answer of a poll and the state after the pending update. On
    /// `stop` the loop ends as stopped, at the state that was measured last;
    /// otherwise it moves on to `next`, counts the update as applied, and waits
    /// for the next record.
    pub fn polled(&mut self, stop: bool, next: S)
        requires
            old(self).wf(),
            old(self).waits_for() == Phase::Poll,
        ensures
            final(self).wf(),
            answered(*old(self), stop, next, *final(self)),
    {
        if stop {
            self.phase = Phase::Ended(Outcome::Stopped);
        } else {
            self.state = next;
            self.steps = self.steps + 1;
            self.phase = Phase::Measure;
        }
    }

    /// The state and the records.
    pub fn into_parts(self) -> (parts: (S, Vec<R>))
        ensures
            parts.0 == self.current(),
            parts.1@ == self.history(),
    {
        (self.state, self.records)
    }
}

/// How taking the record of the current state changes a loop: the state is
/// counted as measured and kept, and the loop ends as converged where the
/// relative update is at most the tolerance, else at the step limit where the
/// budget is used up, and else waits for a poll.
pub open spec fn recorded<S, R: Record>(
    before: StepLoop<S, R>,
    record: R,
    after: StepLoop<S, R>,
) -> bool {
    &&& after.current() == before.current()
    &&& after.measured() == before.measured().push(before.current())
    &&& after.history() == before.history().push(record)
    &&& after.applied() == before.applied()
    &&& after.budget() == before.budget()
    &&& after.bound() == before.bound()
    &&& after.waits_for() == if settled(record, before.bound()) {
        Phase::Ended(Outcome::Converged)
    } else if before.applied() >= before.budget() {
        Phase::Ended(Outcome::StepLimit)
    } else {
        Phase::Poll
    }
}

/// How the answer of a poll changes a loop: on `stop` it ends as stopped and
/// keeps its state, and otherwise it moves on to `next`, counts the update as
/// applied and waits for the next record.
pub open spec fn answered<S, R: Record>(
    before: StepLoop<S, R>,
    stop: bool,
    next: S,
    after: StepLoop<S, R>,
) -> bool {
    &&& after.measured() == before.measured()
    &&& after.history() == before.history()
    &&& after.budget() == before.budget()
    &&& after.bound() == before.bound()
    &&& if stop {
        &&& after.waits_for() == Phase::Ended(Outcome::Stopped)
        &&& after.applied() == before.applied()
        &&& after.current() == before.current()
    } else {
        &&& after.waits_for() == Phase::Measure
        &&& after.applied() == before.applied() + 1
        &&& after.current() == next
    }
}

/// The outcome of a run is determined by its last record, its number of updates
/// and its parameters: a stop is what is left where the last state has not
/// settled and the budget is not used up.
pub proof fn outcomes_are_determined<R: Record>(
    records: Seq<R>,
    steps: nat,
    first: Outcome,
    second: Outcome,
    max_steps: nat,
    tolerance: Double,
)
    requires
        run_ended(records, steps, first, max_steps, tolerance),
        run_ended(records, steps, second, max_steps, tolerance),
    ensures
        first == second,
        first is Stopped <==> !settled(records[steps as int], tolerance) && steps < max_steps,
{
}

/// On every outcome a loop is at the state that it measured last, and its last
/// record is the one of that measurement: the record after all the updates that
/// were applied.
pub proof fn final_state_is_the_one_measured_last<S, R: Record>(ended: StepLoop<S, R>)
    requires
        ended.wf(),
        ended.waits_for() is Ended,
    ensures
        ended.measured().len() == ended.history().len(),
        ended.history().len() == ended.applied() + 1,
        ended.measured().last() == ended.current(),
        ended.history().last().step_number() == ended.applied(),
{
}

/// The state that `count` steps from `start` lead to.
pub open spec fn iterated<S>(step: spec_fn(S) -> S, start: S, count: nat) -> S
    decreases count,
{
    if count == 0 {
        start
    } else {
        step(iterated(step, start, (count - 1) as nat))
    }
}

/// State `k` is one step from the state before it.
pub open spec fn stepped<S>(states: Seq<S>, step: spec_fn(S) -> S, k: int) -> bool {
    states[k] == step(states[k - 1])
}

/// The course of the loop is a function of its first state: each later state is
/// `step` of the one before, and each record is `measure` of its state and
/// number.
pub open spec fn follows<S, R: Record>(
    course: StepLoop<S, R>,
    step: spec_fn(S) -> S,
    measure: spec_fn(S, nat) -> R,
) -> bool {
    &&& forall|k: int|
        0 < k < course.measured().len() ==> #[trigger] stepped(course.measured(), step, k)
    &&& forall|k: int|
        0 <= k < course.history().len() ==> #[trigger] course.history()[k] == measure(
            course.measured()[k],
            k as nat,
        )
}

/// The loop has ended, and not on a stop.
pub open spec fn ran_out<S, R: Record>(course: StepLoop<S, R>) -> bool {
    course.waits_for() is Ended && course.waits_for() != Phase::Ended(Outcome::Stopped)
}

proof fn lemma_states_are_iterates<S>(states: Seq<S>, step: spec_fn(S) -> S, k: int)
    requires
        0 <= k < states.len(),
        forall|n: int| 0 < n < states.len() ==> #[trigger] stepped(states, step, n),
    ensures
        states[k] == iterated(step, states[0], k as nat),
    decreases k,
{
    if k > 0 {
        lemma_states_are_iterates(states, step, k - 1);
        assert(stepped(states, step, k));
    }
}

/// A run that steps and measures by functions ends at the state that its applied
/// updates lead to from its first one; every record measures the state of its
/// number, so the last one measures the final state.
pub proof fn runs_iterate_their_step<S, R: Record>(
    ended: StepLoop<S, R>,
    step: spec_fn(S) -> S,
    measure: spec_fn(S, nat) -> R,
)
    requires
        ended.wf(),
        ended.waits_for() is Ended,
        follows(ended, step, measure),
    ensures
        ended.current() == iterated(step, ended.measured()[0], ended.applied()),
        ended.history().last() == measure(ended.current(), ended.applied()),
        forall|k: int|
            0 <= k < ended.history().len() ==> #[trigger] ended.history()[k] == measure(
                iterated(step, ended.measured()[0], k as nat),
                k as nat,
            ),
{
    let states = ended.measured();
    assert forall|k: int| 0 <= k < ended.history().len() implies #[trigger] ended.history()[k]
        == measure(iterated(step, states[0], k as nat), k as nat) by {
        lemma_states_are_iterates(states, step, k);
    }
    lemma_states_are_iterates(states, step, states.len() - 1);
}

/// Two loops of the same first state, step, measure and bound, of which the
/// second has at least the first's budget: the second applies at least the
/// first's updates.
proof fn lemma_larger_budget_runs_longer<S, R: Record>(
    first: StepLoop<S, R>,
    second: StepLoop<S, R>,
    step: spec_fn(S) -> S,
    measure: spec_fn(S, nat) -> R,
)
    requires
        first.wf(),
        second.wf(),
        first.waits_for() is Ended,
        ran_out(second),
        follows(first, step, measure),
        follows(second, step, measure),
        first.measured()[0] == second.measured()[0],
        first.bound() == second.bound(),
        first.budget() <= second.budget(),
    ensures
        first.applied() <= second.applied(),
{
    if second.applied() < first.applied() {
        let k = second.applied() as int;
        runs_iterate_their_step(first, step, measure);
        runs_iterate_their_step(second, step, measure);
        assert(first.history()[k] == second.history()[k]);
        assert(!settled(first.history()[k], first.bound()));
    }
}

/// A repeated run reproduces its course. Of two runs that step and measure by
/// the same functions from the same first state under the same bound, and that
/// nothing stops, the one with the smaller budget has a history that the other
/// one's starts with. Where the budgets are equal, or the smaller one sufficed to
/// converge, the two agree in their records, states, updates and outcomes.
pub proof fn runs_are_reproducible<S, R: Record>(
    first: StepLoop<S, R>,
    second: StepLoop<S, R>,
    step: spec_fn(S) -> S,
    measure: spec_fn(S, nat) -> R,
)
    requires
        first.wf(),
        second.wf(),
        ran_out(first),
        ran_out(second),
        follows(first, step, measure),
        follows(second, step, measure),
        first.measured()[0] == second.measured()[0],
        first.bound() == second.bound(),
        first.budget() <= second.budget(),
    ensures
        first.history().is_prefix_of(second.history()),
        first.measured().is_prefix_of(second.measured()),
        first.budget() == second.budget() || first.waits_for() == Phase::Ended(Outcome::Converged)
            ==> {
            &&& first.history() == second.history()
            &&& first.measured() == second.measured()
            &&& first.applied() == second.applied()
            &&& first.current() == second.current()
            &&& first.waits_for() == second.waits_for()
        },
{
    lemma_larger_budget_runs_longer(first, second, step, measure);
    runs_iterate_their_step(first, step, measure);
    runs_iterate_their_step(second, step, measure);
    let (short, long) = (first.history(), second.history());
    assert forall|k: int| 0 <= k < short.len() implies short[k] == long[k] by {}
    assert(short =~= long.subrange(0, short.len() as int));
    let (early, all) = (first.measured(), second.measured());
    assert forall|k: int| 0 <= k < early.len() implies early[k] == all[k] by {
        lemma_states_are_iterates(early, step, k);
        lemma_states_are_iterates(all, step, k);
    }
    assert(early =~= all.subrange(0, early.len() as int));
    if first.budget() == second.budget() {
        lemma_larger_budget_runs_longer(second, first, step, measure);
    }
    let last = first.applied() as int;
    assert(short[last] == long[last]);
    if first.waits_for() == Phase::Ended(Outcome::Converged) && last < second.applied() {
        assert(!settled(long[last], second.bound()));
    }
    if first.applied() == second.applied() {
        assert(short =~= long);
        assert(early =~= all);
    }
}

/// How a run ends is decided by numbers. A run has converged exactly where its
/// last relative update is no NaN and at most the tolerance, whatever its step;
/// it is at its step limit exactly where it has not converged and has used up
/// its budget; and otherwise it was stopped with budget left. No update before
/// the last was small enough, and there is one record per state, numbered from
/// 0.
pub proof fn run_ends_are_exact<R: Record>(
    records: Seq<R>,
    steps: nat,
    outcome: Outcome,
    max_steps: nat,
    tolerance: Double,
)
    requires
        run_ended(records, steps, outcome, max_steps, tolerance),
    ensures
        records.len() == steps + 1,
        steps <= max_steps,
        forall|k: int| 0 <= k < records.len() ==> (#[trigger] records[k]).step_number() == k,
        outcome == Outcome::Converged <==> !records.last().pending_update().nan()
            && !tolerance.nan() && records.last().pending_update().rank() <= tolerance.rank(),
        tolerance.finite() && records.last().pending_update().finite() ==> (outcome
            == Outcome::Converged <==> records.last().pending_update().scaled_value()
            <= tolerance.scaled_value()),
        outcome == Outcome::StepLimit <==> steps == max_steps && (
        records.last().pending_update().nan() || tolerance.nan()
            || records.last().pending_update().rank() > tolerance.rank()),
        outcome == Outcome::Stopped <==> steps < max_steps && (
        records.last().pending_update().nan() || tolerance.nan()
            || records.last().pending_update().rank() > tolerance.rank()),
        forall|k: int|
            0 <= k < steps ==> (#[trigger] records[k]).pending_update().nan() || tolerance.nan()
                || records[k].pending_update().rank() > tolerance.rank(),
{
    let last = records[steps as int];
    assert(records.last() == last);
    comparisons_are_numeric(tolerance, last.pending_update());
    match outcome {
        Outcome::Converged => {},
        Outcome::StepLimit => {},
        Outcome::Stopped => {},
    }
    assert forall|k: int| 0 <= k < steps implies (#[trigger] records[k]).pending_update().nan()
        || tolerance.nan() || records[k].pending_update().rank() > tolerance.rank() by {
        assert(!settled(records[k], tolerance));
    }
}

/// The loop that a run comes from ends as [`run_ends_are_exact`] says, at the
/// state that its last record is of.
pub proof fn loop_ends_are_exact<S, R: Record>(ended: StepLoop<S, R>, outcome: Outcome)
    requires
        ended.wf(),
        ended.waits_for() == Phase::Ended(outcome),
    ensures
        ended.history().len() == ended.applied() + 1,
        ended.applied() <= ended.budget(),
        ended.measured().len() == ended.history().len(),
        ended.measured().last() == ended.current(),
        forall|k: int|
            0 <= k < ended.history().len() ==> (#[trigger] ended.history()[k]).step_number() == k,
        outcome == Outcome::Converged <==> !ended.history().last().pending_update().nan()
            && !ended.bound().nan() && ended.history().last().pending_update().rank()
            <= ended.bound().rank(),
        outcome == Outcome::StepLimit <==> ended.applied() == ended.budget() && (
        ended.history().last().pending_update().nan() || ended.bound().nan()
            || ended.history().last().pending_update().rank() > ended.bound().rank()),
        outcome == Outcome::Stopped <==> ended.applied() < ended.budget() && (
        ended.history().last().pending_update().nan() || ended.bound().nan()
            || ended.history().last().pending_update().rank() > ended.bound().rank()),
        forall|k: int|
            0 <= k < ended.applied() ==> (#[trigger] ended.history()[k]).pending_update().nan()
                || ended.bound().nan() || ended.history()[k].pending_update().rank()
                > ended.bound().rank(),
{
    run_ends_are_exact(
        ended.history(),
        ended.applied(),
        outcome,
        ended.budget(),
        ended.bound(),
    );
}

/// Taking a record decides by the record's update and the budget alone: the loop
/// ends as converged, ends at its limit, or goes on to a poll. It keeps its
/// state and its count and adds the one record, and it is never stopped here.
pub proof fn records_decide_by_their_update<S, R: Record>(
    before: StepLoop<S, R>,
    record: R,
    after: StepLoop<S, R>,
)
    requires
        before.wf(),
        before.waits_for() == Phase::Measure,
        recorded(before, record, after),
    ensures
        after.waits_for() == Phase::Ended(Outcome::Converged) <==> !record.pending_update().nan()
            && !before.bound().nan() && record.pending_update().rank() <= before.bound().rank(),
        after.waits_for() == Phase::Ended(Outcome::StepLimit) <==> before.applied()
            == before.budget() && (record.pending_update().nan() || before.bound().nan()
            || record.pending_update().rank() > before.bound().rank()),
        after.waits_for() == Phase::Poll <==> before.applied() < before.budget() && (
        record.pending_update().nan() || before.bound().nan() || record.pending_update().rank()
            > before.bound().rank()),
        after.waits_for() != Phase::Ended(Outcome::Stopped),
        after.waits_for() != Phase::Measure,
        after.current() == before.current(),
        after.applied() == before.applied(),
        after.budget() == before.budget(),
        after.bound() == before.bound(),
        after.history() == before.history().push(record),
        after.measured() == before.measured().push(before.current()),
{
    comparisons_are_numeric(before.bound(), record.pending_update());
}

/// A poll decides by its answer alone: a stop ends the loop where it is, and
/// otherwise the next state is taken, counted once, and to be measured. No
/// record comes or goes.
pub proof fn polls_decide_by_their_answer<S, R: Record>(
    before: StepLoop<S, R>,
    stop: bool,
    next: S,
    after: StepLoop<S, R>,
)
    requires
        answered(before, stop, next, after),
    ensures
        stop ==> after.waits_for() == Phase::Ended(Outcome::Stopped) && after.current()
            == before.current() && after.applied() == before.applied(),
        !stop ==> after.waits_for() == Phase::Measure && after.current() == next
            && after.applied() == before.applied() + 1,
        after.history() == before.history(),
        after.measured() == before.measured(),
        after.budget() == before.budget(),
        after.bound() == before.bound(),
{
}

} // verus!
