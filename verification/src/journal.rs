//! A step loop together with the text of its history.
//!
//! [`Journal`] writes a line for every record that it takes, under a header, so
//! that the text of a run is a document of one complete line per record at every
//! point of the run.

use crate::double::Double;
use crate::progress::{
    answered, follows, ran_out, recorded, runs_are_reproducible, Outcome, Phase, Record, StepLoop,
};
use crate::text::{decimal, document, document_grows, line};
use vstd::prelude::*;

verus! {

/// A record that is written as one line under a header.
pub trait Logged: Record {
    /// The texts of a record's measurements.
    type Cells;

    /// The cells of the header after `step`, for a graph of `order` vertices.
    spec fn header(order: nat) -> Seq<Seq<char>>;

    /// The cells of a line after the step number, in the header's order.
    spec fn row(cells: Self::Cells) -> Seq<Seq<char>>;

    /// There is one text per stored value, and one value per column of the
    /// header for `order` vertices.
    spec fn complete(&self, cells: Self::Cells, order: nat) -> bool;

    /// A complete line has a cell for every column of the header.
    proof fn complete_rows_match_the_header(&self, cells: Self::Cells, order: nat)
        requires
            self.complete(cells, order),
        ensures
            Self::row(cells).len() == Self::header(order).len(),
    ;

    /// Appends the header.
    fn log_header(sink: &mut String, order: usize)
        ensures
            final(sink)@ == old(sink)@ + line("step"@, Self::header(order as nat)),
    ;

    /// Appends the record's line.
    fn log_row(&self, sink: &mut String, cells: &Self::Cells, order: usize)
        requires
            self.complete(*cells, order as nat),
        ensures
            final(sink)@ == old(sink)@ + line(
                decimal(self.step_number()),
                Self::row(*cells),
            ),
    ;
}

/// A step loop and the text of its history.
pub struct Journal<S, R: Logged> {
    course: StepLoop<S, R>,
    order: usize,
    pending: String,
    handed: Ghost<Seq<char>>,
    written: Ghost<Seq<(Seq<char>, Seq<Seq<char>>)>>,
}

impl<S, R: Logged> Journal<S, R> {
    /// The step loop.
    pub closed spec fn progress(self) -> StepLoop<S, R> {
        self.course
    }

    /// The vertex count that the header is for.
    pub closed spec fn vertices(self) -> nat {
        self.order as nat
    }

    /// The text that was handed over so far.
    pub closed spec fn handed_text(self) -> Seq<char> {
        self.handed@
    }

    /// The text that is still to be handed over.
    pub closed spec fn pending_text(self) -> Seq<char> {
        self.pending@
    }

    /// The whole text of the history.
    pub open spec fn text(self) -> Seq<char> {
        self.handed_text() + self.pending_text()
    }

    /// The lines of the text, each by its first cell and the others.
    pub closed spec fn lines(self) -> Seq<(Seq<char>, Seq<Seq<char>>)> {
        self.written@
    }

    /// The invariant: the text is a document of the header and one line per
    /// record, which opens with the record's step number and has a cell for
    /// every column of the header.
    pub open spec fn wf(self) -> bool {
        &&& self.progress().wf()
        &&& self.text() == document(self.lines())
        &&& self.lines().len() == self.progress().history().len() + 1
        &&& self.lines()[0] == ("step"@, R::header(self.vertices()))
        &&& forall|k: int|
            1 <= k < self.lines().len() ==> (#[trigger] self.lines()[k]).0 == decimal(
                self.progress().history()[k - 1].step_number(),
            ) && self.lines()[k].1.len() == R::header(self.vertices()).len()
    }

    /// A journal at its initial state, with the header written.
    pub fn new(max_steps: usize, tolerance: Double, order: usize, state: S) -> (made: Journal<
        S,
        R,
    >)
        ensures
            made.wf(),
            made.progress().waits_for() == Phase::Measure,
            made.progress().current() == state,
            made.progress().measured().len() == 0,
            made.progress().history().len() == 0,
            made.progress().applied() == 0,
            made.progress().budget() == max_steps,
            made.progress().bound() == tolerance,
            made.vertices() == order,
            made.handed_text().len() == 0,
            made.pending_text() == line("step"@, R::header(order as nat)),
    {
        let mut pending: String = String::new();
        R::log_header(&mut pending, order);
        let ghost header = ("step"@, R::header(order as nat));
        let ghost lines = Seq::empty().push(header);
        let journal = Journal {
            course: StepLoop::new(max_steps, tolerance, state),
            order,
            pending,
            handed: Ghost(Seq::empty()),
            written: Ghost(lines),
        };
        proof {
            document_grows(Seq::empty(), header);
            assert(journal.text() =~= document(journal.lines()));
        }
        journal
    }

    /// The state that the loop is at.
    pub fn state(&self) -> (state: &S)
        ensures
            *state == self.progress().current(),
    {
        self.course.state()
    }

    /// The number of applied updates.
    pub fn steps(&self) -> (steps: usize)
        ensures
            steps == self.progress().applied(),
    {
        self.course.steps()
    }

    /// What the loop waits for.
    pub fn phase(&self) -> (phase: Phase)
        ensures
            phase == self.progress().waits_for(),
    {
        self.course.phase()
    }

    /// Takes the record of the current state as [`StepLoop::record`] does, and
    /// writes its line.
    pub fn record(&mut self, record: R, cells: &R::Cells)
        requires
            old(self).wf(),
            old(self).progress().waits_for() == Phase::Measure,
            record.step_number() == old(self).progress().applied(),
            record.complete(*cells, old(self).vertices()),
        ensures
            final(self).wf(),
            final(self).vertices() == old(self).vertices(),
            final(self).lines() == old(self).lines().push(
                (decimal(record.step_number()), R::row(*cells)),
            ),
            final(self).handed_text() == old(self).handed_text(),
            final(self).pending_text() == old(self).pending_text() + line(
                decimal(record.step_number()),
                R::row(*cells),
            ),
            recorded(old(self).progress(), record, final(self).progress()),
    {
        let ghost row = (decimal(record.step_number()), R::row(*cells));
        let ghost before = *self;
        proof {
            record.complete_rows_match_the_header(*cells, self.order as nat);
        }
        record.log_row(&mut self.pending, cells, self.order);
        self.course.record(record);
        self.written = Ghost(self.written@.push(row));
        proof {
            document_grows(before.lines(), row);
            assert(self.text() =~= document(self.lines()));
        }
    }

    /// Takes the answer of a poll and the state after the pending update, as
    /// [`StepLoop::polled`] does.
    pub fn polled(&mut self, stop: bool, next: S)
        requires
            old(self).wf(),
            old(self).progress().waits_for() == Phase::Poll,
        ensures
            final(self).wf(),
            final(self).vertices() == old(self).vertices(),
            final(self).lines() == old(self).lines(),
            final(self).handed_text() == old(self).handed_text(),
            final(self).pending_text() == old(self).pending_text(),
            answered(old(self).progress(), stop, next, final(self).progress()),
    {
        self.course.polled(stop, next);
    }

    /// Hands over the text that was written since the last time.
    pub fn take_text(&mut self) -> (text: String)
        requires
            old(self).wf(),
        ensures
            final(self).wf(),
            text@ == old(self).pending_text(),
            final(self).pending_text().len() == 0,
            final(self).handed_text() == old(self).handed_text() + text@,
            final(self).vertices() == old(self).vertices(),
            final(self).lines() == old(self).lines(),
            final(self).progress() == old(self).progress(),
    {
        let text: String = self.pending.clone();
        self.pending = String::new();
        self.handed = Ghost(self.handed@ + text@);
        assert(self.text() =~= old(self).text());
        text
    }

    /// The step loop of the journal.
    pub fn into_progress(self) -> (course: StepLoop<S, R>)
        ensures
            course == self.progress(),
    {
        self.course
    }
}

/// The text of a history is a document at every point of a run: the header and
/// one complete line per record, each opening with its record's step number,
/// whatever was handed over so far.
pub proof fn histories_are_documents<S, R: Logged>(journal: Journal<S, R>)
    requires
        journal.wf(),
    ensures
        journal.handed_text() + journal.pending_text() == document(journal.lines()),
        journal.lines().len() == journal.progress().history().len() + 1,
        journal.lines()[0] == ("step"@, R::header(journal.vertices())),
        forall|k: int|
            1 <= k < journal.lines().len() ==> (#[trigger] journal.lines()[k]).0 == decimal(
                (k - 1) as nat,
            ) && journal.lines()[k].1.len() == journal.lines()[0].1.len(),
{
}

/// Every line's measurements are written by `write` from its record.
pub open spec fn writes_by<S, R: Logged>(
    journal: Journal<S, R>,
    write: spec_fn(R) -> Seq<Seq<char>>,
) -> bool {
    forall|k: int|
        1 <= k < journal.lines().len() ==> (#[trigger] journal.lines()[k]).1 == write(
            journal.progress().history()[k - 1],
        )
}

/// A repeated run writes its text again. Of two runs as in
/// [`runs_are_reproducible`] that write their lines by the same function, the one
/// with the smaller budget has lines that the other one's start with; and where
/// the budgets are equal, or the smaller one sufficed to converge, the texts are
/// the same.
pub proof fn texts_are_reproducible<S, R: Logged>(
    first: Journal<S, R>,
    second: Journal<S, R>,
    step: spec_fn(S) -> S,
    measure: spec_fn(S, nat) -> R,
    write: spec_fn(R) -> Seq<Seq<char>>,
)
    requires
        first.wf(),
        second.wf(),
        first.vertices() == second.vertices(),
        writes_by(first, write),
        writes_by(second, write),
        ran_out(first.progress()),
        ran_out(second.progress()),
        follows(first.progress(), step, measure),
        follows(second.progress(), step, measure),
        first.progress().measured()[0] == second.progress().measured()[0],
        first.progress().bound() == second.progress().bound(),
        first.progress().budget() <= second.progress().budget(),
    ensures
        first.lines().is_prefix_of(second.lines()),
        first.progress().budget() == second.progress().budget() || first.progress().waits_for()
            == Phase::Ended(Outcome::Converged) ==> first.text() == second.text(),
{
    runs_are_reproducible(first.progress(), second.progress(), step, measure);
    let (short, long) = (first.progress().history(), second.progress().history());
    assert forall|k: int| 0 <= k < first.lines().len() implies first.lines()[k]
        == second.lines()[k] by {
        if k > 0 {
            assert(short[k - 1] == long.subrange(0, short.len() as int)[k - 1]);
            assert(first.lines()[k].1 == second.lines()[k].1);
        }
    }
    assert(first.lines() =~= second.lines().subrange(0, first.lines().len() as int));
    if short == long {
        assert(first.lines() =~= second.lines());
    }
}

} // verus!
