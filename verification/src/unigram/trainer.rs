//! The schedule of Unigram training: rounds of `em_iterations` EM steps,
//! each round followed by a pruning step, while the vocabulary is larger
//! than the target; then a final round of EM steps.  The steps themselves
//! (EM and pruning) are floating-point work done by the caller; the
//! schedule decides, from the vocabulary size, which step comes next.

use vstd::prelude::*;

verus! {

/// What training does next.
pub enum Step {
    /// One EM step: Viterbi counts, then new probabilities.
    Em,
    /// One pruning step.
    Prune,
    /// Training is over.
    Done,
}

/// Where training stands.
pub enum Phase {
    /// About to test the vocabulary size against the target.
    Head,
    /// In a round, with this many EM steps of it done.
    Round(usize),
    /// In the final round, with this many EM steps of it done.
    Final(usize),
    /// Training is over.
    Finished,
}

/// The state of the schedule.
pub struct TrainingSchedule {
    /// The target vocabulary size.
    pub target: usize,
    /// EM steps per round.
    pub em_iterations: usize,
    /// Where training stands.
    pub phase: Phase,
}

/// The moves made without a step: at the head, a vocabulary above the
/// target starts a round and one at most the target starts the final round;
/// a finished round whose vocabulary is at most the target goes to the final
/// round.
pub open spec fn settle(target: nat, iters: nat, phase: Phase, size: nat) -> Phase {
    match phase {
        Phase::Head => if size > target {
            Phase::Round(0)
        } else {
            Phase::Final(0)
        },
        Phase::Round(k) => if k >= iters && size <= target {
            Phase::Final(0)
        } else {
            Phase::Round(k)
        },
        _ => phase,
    }
}

/// The next phase and step for the current vocabulary size: in a round,
/// EM until `iters` steps are done, then pruning and back to the head; in
/// the final round, EM until `iters` steps are done, then done.
pub open spec fn next_spec(target: nat, iters: nat, phase: Phase, size: nat) -> (Phase, Step) {
    match settle(target, iters, phase, size) {
        Phase::Round(k) => if k < iters {
            (Phase::Round((k + 1) as usize), Step::Em)
        } else {
            (Phase::Head, Step::Prune)
        },
        Phase::Final(k) => if k < iters {
            (Phase::Final((k + 1) as usize), Step::Em)
        } else {
            (Phase::Finished, Step::Done)
        },
        _ => (Phase::Finished, Step::Done),
    }
}

impl TrainingSchedule {
    /// A schedule at its start.
    pub fn new(target: usize, em_iterations: usize) -> (s: Self)
        ensures
            s.target == target,
            s.em_iterations == em_iterations,
            s.phase == Phase::Head,
    {
        TrainingSchedule { target, em_iterations, phase: Phase::Head }
    }

    /// The next step for the current vocabulary size.
    pub fn next(&mut self, vocab_size: usize) -> (step: Step)
        ensures
            (final(self).phase, step) == next_spec(
                old(self).target as nat,
                old(self).em_iterations as nat,
                old(self).phase,
                vocab_size as nat,
            ),
            final(self).target == old(self).target,
            final(self).em_iterations == old(self).em_iterations,
    {
        let settled = match self.phase {
            Phase::Head => if vocab_size > self.target {
                Phase::Round(0)
            } else {
                Phase::Final(0)
            },
            Phase::Round(k) => if k >= self.em_iterations && vocab_size <= self.target {
                Phase::Final(0)
            } else {
                Phase::Round(k)
            },
            Phase::Final(k) => Phase::Final(k),
            Phase::Finished => Phase::Finished,
        };
        let (phase, step) = match settled {
            Phase::Round(k) => if k < self.em_iterations {
                (Phase::Round(k + 1), Step::Em)
            } else {
                (Phase::Head, Step::Prune)
            },
            Phase::Final(k) => if k < self.em_iterations {
                (Phase::Final(k + 1), Step::Em)
            } else {
                (Phase::Finished, Step::Done)
            },
            _ => (Phase::Finished, Step::Done),
        };
        self.phase = phase;
        step
    }
}

/// Pruning happens only while the vocabulary is larger than the target.
pub proof fn law_prune_only_above_target(target: nat, iters: nat, phase: Phase, size: nat)
    requires
        next_spec(target, iters, phase, size).1 == Step::Prune,
    ensures
        size > target,
{
}

/// Once training is over it stays over.
pub proof fn law_done_is_final(target: nat, iters: nat, size: nat)
    ensures
        next_spec(target, iters, Phase::Finished, size) == (Phase::Finished, Step::Done),
{
}

/// A vocabulary at most the target at the head goes straight to the final
/// round: `iters` EM steps, then done, with no pruning.
pub proof fn law_small_vocab_only_final_round(target: nat, iters: nat, size: nat)
    requires
        size <= target,
        iters <= usize::MAX,
    ensures
        forall|k: usize|
            k < iters ==> #[trigger] next_spec(target, iters, Phase::Final(k), size) == (
                Phase::Final((k + 1) as usize),
                Step::Em,
            ),
        next_spec(target, iters, Phase::Head, size) == (if iters > 0 {
            (Phase::Final(1), Step::Em)
        } else {
            (Phase::Finished, Step::Done)
        }),
        next_spec(target, iters, Phase::Final(iters as usize), size) == (Phase::Finished, Step::Done),
{
}

/// What holds of every state the schedule reaches from its start: a round
/// or the final round has at most `iters` steps done.
pub open spec fn schedule_inv(iters: nat, phase: Phase) -> bool {
    match phase {
        Phase::Round(k) => k <= iters,
        Phase::Final(k) => k <= iters,
        _ => true,
    }
}

/// How far the schedule is from its end at a given vocabulary size: rounds
/// count by the vocabulary size, steps within a round or the final round
/// count down.
pub open spec fn schedule_measure(iters: nat, phase: Phase, size: nat) -> nat {
    let b = 2 * iters + 4;
    match phase {
        Phase::Finished => 0,
        Phase::Final(k) => (iters - k + 1) as nat,
        Phase::Round(k) => (size * b + (iters - k) + iters + 2) as nat,
        Phase::Head => (size * b + 2 * iters + 3) as nat,
    }
}

/// Training ends when every pruning step removes a token: from every
/// reachable state that is not over, if the vocabulary never grows and is
/// smaller after a pruning step, the next step keeps the invariant and
/// lowers the measure.  (When a pruning step removes nothing, the rounds
/// repeat without end, as training does.)
pub proof fn law_schedule_terminates(target: nat, iters: nat, phase: Phase, size: nat, size_after: nat)
    requires
        schedule_inv(iters, phase),
        phase != Phase::Finished,
        iters <= usize::MAX,
        size_after <= size,
        next_spec(target, iters, phase, size).1 == Step::Prune ==> size_after < size,
    ensures
        ({
            let r = next_spec(target, iters, phase, size);
            &&& schedule_inv(iters, r.0)
            &&& schedule_measure(iters, r.0, size_after) < schedule_measure(iters, phase, size)
        }),
{
    let b = 2 * iters + 4;
    assert(size_after * b <= size * b) by (nonlinear_arith)
        requires
            size_after <= size,
            b >= 0,
    ;
    if next_spec(target, iters, phase, size).1 == Step::Prune {
        assert(size_after * b + b <= size * b) by (nonlinear_arith)
            requires
                size_after < size,
                b >= 0,
        ;
    }
}

/// The schedule's start satisfies its invariant.
pub proof fn law_schedule_start(iters: nat)
    ensures
        schedule_inv(iters, Phase::Head),
{
}

} // verus!
