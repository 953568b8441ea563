//! How moving one slot changes the total weighted overlap: by exactly the
//! change of that slot's own weighted overlap.
use vstd::prelude::*;
use crate::arith::weighted_prefix;
use crate::tracker::{TrackerModel, total_weighted_loss};

verus! {

/// Sum over the first `k` entries of `w[j] * (a[j] - b[j])`.
pub open spec fn weighted_diff(a: Seq<u32>, b: Seq<u32>, w: Seq<u64>, k: int) -> int
    decreases k,
{
    if k <= 0 {
        0
    } else {
        weighted_diff(a, b, w, k - 1) + w[k - 1] * (a[k - 1] - b[k - 1])
    }
}

/// Sum, over the first `k` rows below row `s`, of the weighted change of
/// their entry in column `s`.
pub open spec fn column_diff(after: TrackerModel, before: TrackerModel, s: int, k: int) -> int
    decreases k,
{
    if k <= 0 {
        0
    } else {
        column_diff(after, before, s, k - 1) + if k - 1 > s {
            before.weights[k - 1][s] * (after.losses[k - 1][s] - before.losses[k - 1][s])
        } else {
            0
        }
    }
}

/// `after` is `before` with the losses of slot `s` (its row, its column and
/// its exterior loss) replaced, and nothing else changed.
pub open spec fn differs_only_at(after: TrackerModel, before: TrackerModel, s: int) -> bool {
    &&& before.wf()
    &&& after.wf()
    &&& after.n() == before.n()
    &&& 0 <= s < before.n()
    &&& after.weights == before.weights
    &&& after.bin_weights == before.bin_weights
    &&& forall|i: int| 0 <= i < before.n() && i != s ==> #[trigger] after.bin_losses[i] == before.bin_losses[i]
    &&& forall|i: int, j: int| 0 <= i < before.n() && 0 <= j < before.n() && i != s && j != s
        ==> #[trigger] after.losses[i][j] == before.losses[i][j]
}

proof fn lemma_weighted_diff(a: Seq<u32>, b: Seq<u32>, w: Seq<u64>, k: int)
    requires
        0 <= k,
    ensures
        weighted_prefix(a, w, k) - weighted_prefix(b, w, k) == weighted_diff(a, b, w, k),
    decreases k,
{
    if k > 0 {
        lemma_weighted_diff(a, b, w, k - 1);
        let (x, y, z) = (w[k - 1] as int, a[k - 1] as int, b[k - 1] as int);
        assert(x * (y - z) == x * y - x * z) by (nonlinear_arith);
    }
}

/// Rows that agree but at index `s` differ by the weighted change there.
proof fn lemma_weighted_diff_single(a: Seq<u32>, b: Seq<u32>, w: Seq<u64>, s: int, k: int)
    requires
        0 <= k,
        0 <= s,
        forall|j: int| 0 <= j < k && j != s ==> #[trigger] a[j] == b[j],
    ensures
        weighted_diff(a, b, w, k) == if s < k { w[s] * (a[s] - b[s]) } else { 0 },
    decreases k,
{
    if k > 0 {
        lemma_weighted_diff_single(a, b, w, s, k - 1);
        if k - 1 != s {
            assert(a[k - 1] == b[k - 1]);
            assert(w[k - 1] * (a[k - 1] - b[k - 1]) == 0) by (nonlinear_arith)
                requires
                    a[k - 1] == b[k - 1],
            ;
        }
    }
}

/// Past the diagonal, the row of `s` changes as its column does.
proof fn lemma_row_is_column(after: TrackerModel, before: TrackerModel, s: int, k: int)
    requires
        differs_only_at(after, before, s),
        s + 1 <= k <= before.n(),
    ensures
        weighted_diff(after.losses[s], before.losses[s], before.weights[s], k) == weighted_diff(
            after.losses[s],
            before.losses[s],
            before.weights[s],
            s,
        ) + column_diff(after, before, s, k),
    decreases k,
{
    if k == s + 1 {
        assert(after.losses[s][s] == 0 && before.losses[s][s] == 0);
        assert(before.weights[s][s] * (after.losses[s][s] - before.losses[s][s]) == 0) by (nonlinear_arith)
            requires
                after.losses[s][s] == before.losses[s][s],
        ;
        lemma_column_diff_zero(after, before, s, k);
    } else {
        lemma_row_is_column(after, before, s, k - 1);
        assert(before.weights[s][k - 1] == before.weights[k - 1][s]);
        assert(after.losses[s][k - 1] == after.losses[k - 1][s]);
        assert(before.losses[s][k - 1] == before.losses[k - 1][s]);
    }
}

proof fn lemma_column_diff_zero(after: TrackerModel, before: TrackerModel, s: int, k: int)
    requires
        0 <= k <= s + 1,
    ensures
        column_diff(after, before, s, k) == 0,
    decreases k,
{
    if k > 0 {
        lemma_column_diff_zero(after, before, s, k - 1);
    }
}

proof fn lemma_total_diff(after: TrackerModel, before: TrackerModel, s: int, k: int)
    requires
        differs_only_at(after, before, s),
        0 <= k <= before.n(),
    ensures
        total_weighted_loss(after.losses, after.weights, after.bin_losses, after.bin_weights, k)
            - total_weighted_loss(before.losses, before.weights, before.bin_losses, before.bin_weights, k)
            == (if k > s {
            weighted_diff(after.losses[s], before.losses[s], before.weights[s], s) + before.bin_weights[s] * (
            after.bin_losses[s] - before.bin_losses[s])
        } else {
            0
        }) + column_diff(after, before, s, k),
    decreases k,
{
    if k > 0 {
        lemma_total_diff(after, before, s, k - 1);
        let i = k - 1;
        lemma_weighted_diff(after.losses[i], before.losses[i], before.weights[i], i);
        let (bw, b1, b0) = (before.bin_weights[i] as int, after.bin_losses[i] as int, before.bin_losses[i] as int);
        assert(bw * b1 - bw * b0 == bw * (b1 - b0)) by (nonlinear_arith);
        if i != s {
            assert forall|j: int| 0 <= j < i && j != s implies #[trigger] after.losses[i][j] == before.losses[i][j] by {
            }
            lemma_weighted_diff_single(after.losses[i], before.losses[i], before.weights[i], s, i);
            assert(after.bin_losses[i] == before.bin_losses[i]);
            assert(bw * (b1 - b0) == 0) by (nonlinear_arith)
                requires
                    b1 == b0,
            ;
        }
    }
}

/// Moving one slot changes the total weighted overlap by exactly the change
/// of that slot's own weighted overlap. So a move that does not raise the
/// moved item's weighted overlap does not raise the total: a separation pass
/// that accepts only such moves never worsens the total weighted overlap
/// while the weights stay fixed.
pub proof fn law_move_changes_total_by_own_change(after: TrackerModel, before: TrackerModel, s: int)
    requires
        differs_only_at(after, before, s),
    ensures
        after.total_weighted_overlap() - before.total_weighted_overlap() == after.weighted_overlap(s)
            - before.weighted_overlap(s),
        after.weighted_overlap(s) <= before.weighted_overlap(s) ==> after.total_weighted_overlap()
            <= before.total_weighted_overlap(),
{
    let n = before.n();
    lemma_total_diff(after, before, s, n);
    lemma_row_is_column(after, before, s, n);
    lemma_weighted_diff(after.losses[s], before.losses[s], before.weights[s], n);
    let (bw, b1, b0) = (before.bin_weights[s] as int, after.bin_losses[s] as int, before.bin_losses[s] as int);
    assert(bw * b1 - bw * b0 == bw * (b1 - b0)) by (nonlinear_arith);
}

proof fn lemma_pass_prefix(states: Seq<TrackerModel>, slots: Seq<int>, k: int)
    requires
        states.len() == slots.len() + 1,
        forall|m: int| 0 <= m < slots.len() ==> #[trigger] differs_only_at(states[m + 1], states[m], slots[m]),
        forall|m: int| 0 <= m < slots.len() ==> #[trigger] states[m + 1].weighted_overlap(slots[m])
            <= states[m].weighted_overlap(slots[m]),
        0 <= k < states.len(),
    ensures
        states[k].total_weighted_overlap() <= states[0].total_weighted_overlap(),
    decreases k,
{
    if k > 0 {
        lemma_pass_prefix(states, slots, k - 1);
        assert(differs_only_at(states[k - 1 + 1], states[k - 1], slots[k - 1]));
        assert(states[k - 1 + 1].weighted_overlap(slots[k - 1]) <= states[k - 1].weighted_overlap(slots[k - 1]));
        law_move_changes_total_by_own_change(states[k], states[k - 1], slots[k - 1]);
    }
}

/// A separation pass: `states[k + 1]` follows from `states[k]` by moving
/// slot `slots[k]` without raising that slot's weighted overlap, weights
/// frozen. The total weighted overlap never rises from one move to the
/// next, nor over the whole pass.
pub proof fn law_pass_never_worsens(states: Seq<TrackerModel>, slots: Seq<int>)
    requires
        states.len() == slots.len() + 1,
        forall|k: int| 0 <= k < slots.len() ==> #[trigger] differs_only_at(states[k + 1], states[k], slots[k]),
        forall|k: int| 0 <= k < slots.len() ==> #[trigger] states[k + 1].weighted_overlap(slots[k])
            <= states[k].weighted_overlap(slots[k]),
    ensures
        forall|k: int| 0 <= k < slots.len() ==> #[trigger] states[k + 1].total_weighted_overlap()
            <= states[k].total_weighted_overlap(),
        states.last().total_weighted_overlap() <= states[0].total_weighted_overlap(),
{
    assert forall|k: int| 0 <= k < slots.len() implies #[trigger] states[k + 1].total_weighted_overlap()
        <= states[k].total_weighted_overlap() by {
        assert(differs_only_at(states[k + 1], states[k], slots[k]));
        assert(states[k + 1].weighted_overlap(slots[k]) <= states[k].weighted_overlap(slots[k]));
        law_move_changes_total_by_own_change(states[k + 1], states[k], slots[k]);
    }
    lemma_pass_prefix(states, slots, states.len() - 1);
}

} // verus!
