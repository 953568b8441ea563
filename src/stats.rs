use vstd::prelude::*;

verus! {

/// Counters reported by one separation pass of a worker.
#[derive(Clone, Copy, Debug, PartialEq, Eq, Structural)]
pub struct SepStats {
    pub total_moves: usize,
    pub total_evals: usize,
}

impl SepStats {
    /// The empty record: nothing moved, nothing evaluated.
    pub fn zero() -> (r: SepStats)
        ensures
            r.total_moves == 0,
            r.total_evals == 0,
    {
        SepStats { total_moves: 0, total_evals: 0 }
    }

    /// Adds the counters of `other` to `self`.
    pub fn add_assign(&mut self, other: SepStats)
        requires
            old(self).total_moves + other.total_moves <= usize::MAX,
            old(self).total_evals + other.total_evals <= usize::MAX,
        ensures
            final(self).total_moves == old(self).total_moves + other.total_moves,
            final(self).total_evals == old(self).total_evals + other.total_evals,
    {
        self.total_moves = self.total_moves + other.total_moves;
        self.total_evals = self.total_evals + other.total_evals;
    }
}

/// Moves counted by the first `k` records.
pub open spec fn moves_sum(s: Seq<SepStats>, k: int) -> int
    decreases k,
{
    if k <= 0 {
        0
    } else {
        moves_sum(s, k - 1) + s[k - 1].total_moves
    }
}

/// Evaluations counted by the first `k` records.
pub open spec fn evals_sum(s: Seq<SepStats>, k: int) -> int
    decreases k,
{
    if k <= 0 {
        0
    } else {
        evals_sum(s, k - 1) + s[k - 1].total_evals
    }
}

proof fn lemma_sums_monotone(s: Seq<SepStats>, j: int, k: int)
    requires
        0 <= j <= k <= s.len(),
    ensures
        moves_sum(s, j) <= moves_sum(s, k),
        evals_sum(s, j) <= evals_sum(s, k),
    decreases k - j,
{
    if j < k {
        lemma_sums_monotone(s, j, k - 1);
    }
}

impl SepStats {
    /// The counters of all `reports` added up.
    pub fn sum(reports: &Vec<SepStats>) -> (r: SepStats)
        requires
            moves_sum(reports@, reports@.len() as int) <= usize::MAX,
            evals_sum(reports@, reports@.len() as int) <= usize::MAX,
        ensures
            r.total_moves == moves_sum(reports@, reports@.len() as int),
            r.total_evals == evals_sum(reports@, reports@.len() as int),
    {
        let mut acc = SepStats::zero();
        let mut i: usize = 0;
        while i < reports.len()
            invariant
                i <= reports.len(),
                moves_sum(reports@, reports@.len() as int) <= usize::MAX,
                evals_sum(reports@, reports@.len() as int) <= usize::MAX,
                acc.total_moves == moves_sum(reports@, i as int),
                acc.total_evals == evals_sum(reports@, i as int),
            decreases reports.len() - i,
        {
            proof {
                lemma_sums_monotone(reports@, i as int + 1, reports@.len() as int);
            }
            acc.add_assign(reports[i]);
            i = i + 1;
        }
        acc
    }
}

} // verus!
