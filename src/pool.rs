//! The pool of infeasible local optima that exploration restarts from,
//! sorted by total overlap, lowest first.
use vstd::prelude::*;

verus! {

/// Number of entries of `s` whose overlap is below `o`.
pub open spec fn count_below<T>(s: Seq<(T, u128)>, o: u128) -> int
    decreases s.len(),
{
    if s.len() == 0 {
        0
    } else {
        count_below(s.drop_last(), o) + if s.last().1 < o { 1int } else { 0int }
    }
}

/// Overlaps never decrease along `s`.
pub open spec fn overlaps_sorted<T>(s: Seq<(T, u128)>) -> bool {
    forall|i: int, j: int| 0 <= i < j < s.len() ==> #[trigger] s[i].1 <= #[trigger] s[j].1
}

/// Solutions with their total overlap, lowest overlap first.
pub struct SolutionPool<T> {
    entries: Vec<(T, u128)>,
}

proof fn lemma_count_below_split<T>(s: Seq<(T, u128)>, o: u128, p: int)
    requires
        overlaps_sorted(s),
        0 <= p <= s.len(),
        forall|i: int| 0 <= i < p ==> #[trigger] s[i].1 < o,
        forall|i: int| p <= i < s.len() ==> #[trigger] s[i].1 >= o,
    ensures
        count_below(s, o) == p,
    decreases s.len(),
{
    if s.len() > 0 {
        if p == s.len() {
            lemma_count_below_split(s.drop_last(), o, p - 1);
        } else {
            lemma_count_below_split(s.drop_last(), o, p);
        }
    }
}

impl<T> SolutionPool<T> {
    pub closed spec fn view_entries(&self) -> Seq<(T, u128)> {
        self.entries@
    }

    pub open spec fn wf(&self) -> bool {
        overlaps_sorted(self.view_entries())
    }

    /// An empty pool.
    pub fn new() -> (r: SolutionPool<T>)
        ensures
            r.wf(),
            r.view_entries().len() == 0,
    {
        SolutionPool { entries: Vec::new() }
    }

    pub fn len(&self) -> (r: usize)
        ensures
            r == self.view_entries().len(),
    {
        self.entries.len()
    }

    /// Empties the pool.
    pub fn clear(&mut self)
        ensures
            final(self).wf(),
            final(self).view_entries().len() == 0,
    {
        self.entries.clear();
    }

    /// Adds `sol` of total overlap `overlap` after every entry of lower
    /// overlap and before every other entry.
    pub fn insert(&mut self, sol: T, overlap: u128)
        requires
            old(self).wf(),
        ensures
            final(self).wf(),
            final(self).view_entries() == old(self).view_entries().insert(
                count_below(old(self).view_entries(), overlap),
                (sol, overlap),
            ),
    {
        let ghost s = self.entries@;
        let mut lo: usize = 0;
        let mut hi: usize = self.entries.len();
        while lo < hi
            invariant
                0 <= lo <= hi <= s.len(),
                self.entries@ == s,
                overlaps_sorted(s),
                forall|i: int| 0 <= i < lo ==> #[trigger] s[i].1 < overlap,
                forall|i: int| hi <= i < s.len() ==> #[trigger] s[i].1 >= overlap,
            decreases hi - lo,
        {
            let mid = lo + (hi - lo) / 2;
            if self.entries[mid].1 < overlap {
                lo = mid + 1;
            } else {
                hi = mid;
            }
        }
        proof {
            lemma_count_below_split(s, overlap, lo as int);
        }
        self.entries.insert(lo, (sol, overlap));
        proof {
            let r = self.entries@;
            assert forall|i: int, j: int| 0 <= i < j < r.len() implies #[trigger] r[i].1 <= #[trigger] r[j].1 by {
                if j < lo {
                    assert(r[i] == s[i] && r[j] == s[j]);
                } else if j == lo {
                    assert(r[i] == s[i]);
                } else if i < lo {
                    assert(r[i] == s[i] && r[j] == s[j - 1]);
                } else if i == lo {
                    assert(r[j] == s[j - 1]);
                } else {
                    assert(r[i] == s[i - 1] && r[j] == s[j - 1]);
                }
            }
        }
    }

    /// The entry to restart from for a folded normal draw whose absolute
    /// value rounds down to `folded`: that index, clamped to the last entry.
    pub fn select_index(&self, folded: u64) -> (r: usize)
        requires
            self.view_entries().len() >= 1,
        ensures
            r == if folded < self.view_entries().len() {
                folded as int
            } else {
                self.view_entries().len() - 1
            },
    {
        if (folded as u128) < (self.entries.len() as u128) {
            folded as usize
        } else {
            self.entries.len() - 1
        }
    }

    /// The solution at index `i`.
    pub fn get(&self, i: usize) -> (r: &T)
        requires
            i < self.view_entries().len(),
        ensures
            *r == self.view_entries()[i as int].0,
    {
        &self.entries[i].0
    }

    /// The total overlap of the solution at index `i`.
    pub fn overlap_at(&self, i: usize) -> (r: u128)
        requires
            i < self.view_entries().len(),
        ensures
            r == self.view_entries()[i as int].1,
    {
        self.entries[i].1
    }
}

} // verus!
