//! The second phase of a run: the queued records are written one at a
//! time, in order, and the run halts at the first write that fails.
//!
//! The writes themselves happen elsewhere. This module decides, from the
//! answer to each write, what comes next, and keeps the number of records
//! that were written before a failure: writes are not undone, so a report
//! of a failure always says how many records it left updated.

use vstd::prelude::*;

verus! {

/// The answer to one write.
#[derive(Clone, Copy, PartialEq, Eq, Structural, Debug)]
pub enum WriteOutcome {
    /// The store accepted the record.
    Written,
    /// The store refused the record because a guarded field had changed.
    Conflict,
    /// The write failed for any other reason.
    Failed,
}

/// How a run ended, with the number of records written.
#[derive(Clone, Copy, PartialEq, Eq, Structural, Debug)]
pub enum Report {
    /// Every queued record was written.
    Updated(usize),
    /// A write met a concurrent modification after so many were written.
    Conflict(usize),
    /// A write failed otherwise after so many were written.
    Failed(usize),
}

/// What a run does next.
#[derive(Clone, Copy, PartialEq, Eq, Structural, Debug)]
pub enum Step {
    /// Write the queued record of this index.
    Write(usize),
    /// Stop, and report.
    Halt(Report),
}

/// The first step of a run over `total` queued records.
pub open spec fn first_step(total: usize) -> Step {
    if total == 0 {
        Step::Halt(Report::Updated(0))
    } else {
        Step::Write(0)
    }
}

/// The step that follows the answer to the write of record `index`.
pub open spec fn next_step(index: usize, total: usize, outcome: WriteOutcome) -> Step {
    match outcome {
        WriteOutcome::Written => {
            if index + 1 < total {
                Step::Write((index + 1) as usize)
            } else {
                Step::Halt(Report::Updated(total))
            }
        },
        WriteOutcome::Conflict => Step::Halt(Report::Conflict(index)),
        WriteOutcome::Failed => Step::Halt(Report::Failed(index)),
    }
}

/// The number of records that a report counts as written.
pub open spec fn written(report: Report) -> usize {
    match report {
        Report::Updated(n) => n,
        Report::Conflict(n) => n,
        Report::Failed(n) => n,
    }
}

/// The report of the run that stands at `step`, if the write of record `i`
/// is answered by `answers[i]`.
pub open spec fn run_from(step: Step, total: usize, answers: Seq<WriteOutcome>) -> Report
    decreases
        (match step {
            Step::Write(i) => total - i + 1,
            Step::Halt(_) => 0,
        }),
{
    match step {
        Step::Halt(report) => report,
        Step::Write(i) => {
            if i < total && i < answers.len() {
                run_from(next_step(i, total, answers[i as int]), total, answers)
            } else {
                Report::Updated(i)
            }
        },
    }
}

/// The report of a whole run over `total` queued records.
pub open spec fn run(total: usize, answers: Seq<WriteOutcome>) -> Report {
    run_from(first_step(total), total, answers)
}

/// What a report says of the answers: every write before the count that
/// it gives was accepted; a report of success counts all records; a report
/// of a failure counts up to the write that was refused or failed.
pub open spec fn report_matches(report: Report, total: usize, answers: Seq<WriteOutcome>) -> bool {
    &&& forall|j: int| 0 <= j < written(report) ==> answers[j] == WriteOutcome::Written
    &&& match report {
        Report::Updated(n) => n == total,
        Report::Conflict(n) => n < total && answers[n as int] == WriteOutcome::Conflict,
        Report::Failed(n) => n < total && answers[n as int] == WriteOutcome::Failed,
    }
}

/// The run from the write of record `i` on, all writes before it accepted.
proof fn lemma_run_from(i: usize, total: usize, answers: Seq<WriteOutcome>)
    requires
        i < total <= answers.len(),
        forall|j: int| 0 <= j < i ==> answers[j] == WriteOutcome::Written,
    ensures
        report_matches(run_from(Step::Write(i), total, answers), total, answers),
    decreases total - i,
{
    reveal_with_fuel(run_from, 3);
    if answers[i as int] == WriteOutcome::Written && i + 1 < total {
        lemma_run_from((i + 1) as usize, total, answers);
    }
}

/// A run reports exactly the writes that were accepted before the first
/// one that was not.
pub proof fn lemma_run_counts_accepted_writes(total: usize, answers: Seq<WriteOutcome>)
    requires
        total <= answers.len(),
    ensures
        report_matches(run(total, answers), total, answers),
{
    if total > 0 {
        lemma_run_from(0, total, answers);
    }
}

/// The run from the write of record `i` on does not depend on the answers
/// behind the one at which it halts.
proof fn lemma_run_from_ignores_later(
    i: usize,
    total: usize,
    answers: Seq<WriteOutcome>,
    others: Seq<WriteOutcome>,
)
    requires
        i < total <= answers.len(),
        total <= others.len(),
        forall|j: int| 0 <= j < i ==> answers[j] == WriteOutcome::Written,
        forall|j: int|
            0 <= j < total && j <= written(run_from(Step::Write(i), total, answers))
                ==> others[j] == answers[j],
    ensures
        run_from(Step::Write(i), total, others) == run_from(Step::Write(i), total, answers),
    decreases total - i,
{
    reveal_with_fuel(run_from, 3);
    lemma_run_from(i, total, answers);
    if answers[i as int] == WriteOutcome::Written && i + 1 < total {
        lemma_run_from((i + 1) as usize, total, answers);
        lemma_run_from_ignores_later((i + 1) as usize, total, answers, others);
    }
}

/// No write is attempted behind the first one that fails: whatever the
/// store would have answered to the later writes, the report is the same.
pub proof fn lemma_run_halts_at_first_failure(
    total: usize,
    answers: Seq<WriteOutcome>,
    others: Seq<WriteOutcome>,
)
    requires
        total <= answers.len(),
        total <= others.len(),
        forall|j: int|
            0 <= j < total && j <= written(run(total, answers)) ==> others[j] == answers[j],
    ensures
        run(total, others) == run(total, answers),
{
    if total > 0 {
        lemma_run_from_ignores_later(0, total, answers, others);
    }
}

/// The first step of a run over `total` queued records.
pub fn begin(total: usize) -> (step: Step)
    ensures
        step == first_step(total),
{
    if total == 0 {
        Step::Halt(Report::Updated(0))
    } else {
        Step::Write(0)
    }
}

/// The step that follows the answer to the write of record `index`.
pub fn after_write(index: usize, total: usize, outcome: WriteOutcome) -> (step: Step)
    requires
        index < total,
    ensures
        step == next_step(index, total, outcome),
{
    match outcome {
        WriteOutcome::Written => {
            if index + 1 < total {
                Step::Write(index + 1)
            } else {
                Step::Halt(Report::Updated(total))
            }
        },
        WriteOutcome::Conflict => Step::Halt(Report::Conflict(index)),
        WriteOutcome::Failed => Step::Halt(Report::Failed(index)),
    }
}

} // verus!
