//! Decisions of the guided-local-search separation loop. The loop itself,
//! which runs the workers and adopts the best of them, feeds this state the
//! total overlap it reaches and asks it what to do next.
use vstd::prelude::*;

verus! {

/// Iterations without a new minimum that end a strike.
pub const N_ITER_NO_IMPROVEMENT: usize = 50;

/// Consecutive strikes without substantial improvement that end the separation.
pub const N_STRIKES: usize = 5;

/// A strike is substantial when its minimum falls to this many percent of the
/// overlap it started from, or below.
pub const STRIKE_IMPROVEMENT_PCT: u128 = 98;

/// The largest overlap value the loop handles.
pub const OVERLAP_MAX: u128 = 0x1_0000_0000_0000_0000_0000_0000;

/// What one iteration of the separation loop achieved.
#[derive(Clone, Copy, Debug, PartialEq, Eq, Structural)]
pub enum IterOutcome {
    /// No overlap is left: the layout is feasible.
    Separated,
    /// The overlap is the lowest seen so far; it becomes the rollback point.
    Improved,
    /// The overlap is not below the lowest seen so far.
    NotImproved,
}

/// Counters and the best overlap of one run of the separation loop.
pub struct StrikeState {
    /// Lowest non-zero overlap reached, if any iteration ran.
    pub min_overlap: Option<u128>,
    pub n_strikes: usize,
    pub n_iter_no_improvement: usize,
    /// Overlap when the current strike began.
    pub initial_strike_overlap: u128,
}

/// The strike that started at `initial` and reached `min` at best made no
/// substantial improvement.
pub open spec fn strike_fails(initial: int, min: Option<u128>) -> bool {
    match min {
        None => true,
        Some(m) => m * 100 > initial * STRIKE_IMPROVEMENT_PCT,
    }
}

impl StrikeState {
    pub open spec fn wf(&self) -> bool {
        &&& self.initial_strike_overlap <= OVERLAP_MAX
        &&& match self.min_overlap {
            Some(m) => m <= OVERLAP_MAX,
            None => true,
        }
    }

    /// State at the start of a separation: no minimum, no strikes.
    pub fn new() -> (r: StrikeState)
        ensures
            r.wf(),
            r.min_overlap is None,
            r.n_strikes == 0,
            r.n_iter_no_improvement == 0,
            r.initial_strike_overlap == 0,
    {
        StrikeState {
            min_overlap: None,
            n_strikes: 0,
            n_iter_no_improvement: 0,
            initial_strike_overlap: 0,
        }
    }

    /// The separation ends once this many strikes in a row failed.
    pub fn strikes_exhausted(&self) -> (r: bool)
        ensures
            r == (self.n_strikes >= N_STRIKES),
    {
        self.n_strikes >= N_STRIKES
    }

    /// A strike after the first starts from the best layout seen so far.
    pub fn should_roll_back(&self) -> (r: bool)
        ensures
            r == (self.min_overlap is Some),
    {
        self.min_overlap.is_some()
    }

    /// Starts a strike from a layout of total overlap `overlap`.
    pub fn begin_strike(&mut self, overlap: u128)
        requires
            old(self).wf(),
            overlap <= OVERLAP_MAX,
        ensures
            final(self).wf(),
            final(self).initial_strike_overlap == overlap,
            final(self).n_iter_no_improvement == 0,
            final(self).n_strikes == old(self).n_strikes,
            final(self).min_overlap == old(self).min_overlap,
    {
        self.initial_strike_overlap = overlap;
        self.n_iter_no_improvement = 0;
    }

    /// The strike ends after this many iterations in a row without a new minimum.
    pub fn improvement_exhausted(&self) -> (r: bool)
        ensures
            r == (self.n_iter_no_improvement >= N_ITER_NO_IMPROVEMENT),
    {
        self.n_iter_no_improvement >= N_ITER_NO_IMPROVEMENT
    }

    /// Takes the total overlap after one iteration. Zero overlap ends the
    /// separation; an overlap below every earlier one becomes the new minimum
    /// and restarts the count of iterations without improvement; anything else
    /// adds one to that count.
    pub fn record_iteration(&mut self, overlap: u128) -> (r: IterOutcome)
        requires
            old(self).wf(),
            overlap <= OVERLAP_MAX,
            old(self).n_iter_no_improvement < N_ITER_NO_IMPROVEMENT,
        ensures
            final(self).wf(),
            final(self).n_strikes == old(self).n_strikes,
            final(self).initial_strike_overlap == old(self).initial_strike_overlap,
            overlap == 0 ==> r == IterOutcome::Separated && *final(self) == *old(self),
            overlap > 0 && (old(self).min_overlap is None || overlap < old(self).min_overlap->0) ==> r
                == IterOutcome::Improved && final(self).min_overlap == Some(overlap)
                && final(self).n_iter_no_improvement == 0,
            overlap > 0 && (old(self).min_overlap is Some && overlap >= old(self).min_overlap->0) ==> r
                == IterOutcome::NotImproved && final(self).min_overlap == old(self).min_overlap
                && final(self).n_iter_no_improvement == old(self).n_iter_no_improvement + 1,
    {
        if overlap == 0 {
            return IterOutcome::Separated;
        }
        let improved = match self.min_overlap {
            None => true,
            Some(m) => overlap < m,
        };
        if improved {
            self.min_overlap = Some(overlap);
            self.n_iter_no_improvement = 0;
            IterOutcome::Improved
        } else {
            self.n_iter_no_improvement = self.n_iter_no_improvement + 1;
            IterOutcome::NotImproved
        }
    }

    /// Ends a strike: a strike whose minimum stayed above
    /// `STRIKE_IMPROVEMENT_PCT` percent of its starting overlap counts, any
    /// other resets the count.
    pub fn end_strike(&mut self)
        requires
            old(self).wf(),
            old(self).n_strikes < N_STRIKES,
        ensures
            final(self).wf(),
            final(self).min_overlap == old(self).min_overlap,
            final(self).n_iter_no_improvement == old(self).n_iter_no_improvement,
            final(self).initial_strike_overlap == old(self).initial_strike_overlap,
            final(self).n_strikes == if strike_fails(
                old(self).initial_strike_overlap as int,
                old(self).min_overlap,
            ) {
                old(self).n_strikes + 1
            } else {
                0
            },
    {
        let fails = match self.min_overlap {
            None => true,
            Some(m) => m * 100 > self.initial_strike_overlap * STRIKE_IMPROVEMENT_PCT,
        };
        if fails {
            self.n_strikes = self.n_strikes + 1;
        } else {
            self.n_strikes = 0;
        }
    }
}

} // verus!
