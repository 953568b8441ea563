//! The overlap tracker: a symmetric table of pairwise overlap losses between
//! placement slots, the loss of each slot against the strip exterior, and the
//! guided-local-search penalty weight attached to each of them.
//!
//! A slot stands for one item of the instance for the whole run. Moving an
//! item replaces the losses of its slot and leaves every weight in place, so
//! penalties follow the pair of items across moves.
use vstd::prelude::*;
use crate::arith::{sum_prefix, weighted_prefix, max_prefix, lemma_sum_prefix_bound,
    lemma_weighted_prefix_bound, lemma_weighted_term_bound, lemma_max_prefix_bound};

verus! {

/// A weight of 1.0, in thousandths.
pub const WEIGHT_ONE: u64 = 1000;

/// The largest weight; increments saturate here.
pub const WEIGHT_MAX: u64 = 1_000_000_000_000;

/// Multiplier, in thousandths, applied to an overlapping pair of the smallest loss.
pub const OT_MIN_INCREASE: u64 = 1200;

/// Multiplier, in thousandths, applied to the overlapping pair of the largest loss.
pub const OT_MAX_INCREASE: u64 = 2000;

/// Multiplier, in thousandths, applied to a pair that does not overlap.
pub const OT_DECAY: u64 = 950;

/// Number of weight increments during which a slot that jumped may not jump again.
pub const JUMP_COOLDOWN: usize = 5;

/// The largest number of slots a tracker holds.
pub const MAX_SLOTS: usize = 1_048_576;

/// The mathematical content of a tracker.
pub ghost struct TrackerModel {
    pub losses: Seq<Seq<u32>>,
    pub weights: Seq<Seq<u64>>,
    pub bin_losses: Seq<u32>,
    pub bin_weights: Seq<u64>,
    pub cooldowns: Seq<usize>,
}

/// The weight that `increment_weights` gives an entry of weight `w` and loss `l`
/// when the largest loss in the table is `max_loss`.
pub open spec fn next_weight(w: int, l: int, max_loss: int) -> int {
    if l > 0 {
        let m = OT_MIN_INCREASE + (OT_MAX_INCREASE - OT_MIN_INCREASE) * l / max_loss;
        let grown = w * m / 1000;
        if grown > WEIGHT_MAX as int { WEIGHT_MAX as int } else { grown }
    } else {
        let decayed = w * OT_DECAY / 1000;
        if decayed < WEIGHT_ONE as int { WEIGHT_ONE as int } else { decayed }
    }
}

/// Sum, over the first `k` slots, of their losses against the slots before
/// them and against the exterior.
pub open spec fn total_loss(losses: Seq<Seq<u32>>, bins: Seq<u32>, k: int) -> int
    decreases k,
{
    if k <= 0 {
        0
    } else {
        total_loss(losses, bins, k - 1) + sum_prefix(losses[k - 1], k - 1) + bins[k - 1]
    }
}

/// Weighted counterpart of `total_loss`.
pub open spec fn total_weighted_loss(
    losses: Seq<Seq<u32>>,
    weights: Seq<Seq<u64>>,
    bins: Seq<u32>,
    bin_weights: Seq<u64>,
    k: int,
) -> int
    decreases k,
{
    if k <= 0 {
        0
    } else {
        total_weighted_loss(losses, weights, bins, bin_weights, k - 1)
            + weighted_prefix(losses[k - 1], weights[k - 1], k - 1)
            + bin_weights[k - 1] * bins[k - 1]
    }
}

impl TrackerModel {
    pub open spec fn n(self) -> int {
        self.losses.len() as int
    }

    pub open spec fn loss(self, i: int, j: int) -> int {
        self.losses[i][j] as int
    }

    pub open spec fn weight(self, i: int, j: int) -> int {
        self.weights[i][j] as int
    }

    /// Shapes agree, the tables are symmetric, a slot has no loss against
    /// itself, and every weight lies in `[WEIGHT_ONE, WEIGHT_MAX]`.
    pub open spec fn wf(self) -> bool {
        &&& self.n() <= MAX_SLOTS
        &&& self.weights.len() == self.n()
        &&& self.bin_losses.len() == self.n()
        &&& self.bin_weights.len() == self.n()
        &&& self.cooldowns.len() == self.n()
        &&& forall|i: int| 0 <= i < self.n() ==> #[trigger] self.losses[i].len() == self.n()
        &&& forall|i: int| 0 <= i < self.n() ==> #[trigger] self.weights[i].len() == self.n()
        &&& forall|i: int, j: int| 0 <= i < self.n() && 0 <= j < self.n()
            ==> #[trigger] self.losses[i][j] == self.losses[j][i]
        &&& forall|i: int, j: int| 0 <= i < self.n() && 0 <= j < self.n()
            ==> #[trigger] self.weights[i][j] == self.weights[j][i]
        &&& forall|i: int| 0 <= i < self.n() ==> #[trigger] self.losses[i][i] == 0
        &&& forall|i: int, j: int| 0 <= i < self.n() && 0 <= j < self.n()
            ==> WEIGHT_ONE <= #[trigger] self.weights[i][j] <= WEIGHT_MAX
        &&& forall|i: int| 0 <= i < self.n()
            ==> WEIGHT_ONE <= #[trigger] self.bin_weights[i] <= WEIGHT_MAX
    }

    /// Loss of slot `i` against all other slots and the exterior.
    pub open spec fn overlap(self, i: int) -> int {
        sum_prefix(self.losses[i], self.n()) + self.bin_losses[i]
    }

    /// Weighted loss of slot `i` against all other slots and the exterior.
    pub open spec fn weighted_overlap(self, i: int) -> int {
        weighted_prefix(self.losses[i], self.weights[i], self.n())
            + self.bin_weights[i] * self.bin_losses[i]
    }

    /// Every unordered pair counted once, plus every exterior loss.
    pub open spec fn total_overlap(self) -> int {
        total_loss(self.losses, self.bin_losses, self.n())
    }

    /// Every unordered pair counted once, each loss times its weight.
    pub open spec fn total_weighted_overlap(self) -> int {
        total_weighted_loss(self.losses, self.weights, self.bin_losses, self.bin_weights, self.n())
    }

    /// Largest loss over the first `k` rows.
    pub open spec fn rows_max(self, k: int) -> int
        decreases k,
    {
        if k <= 0 {
            0
        } else {
            let a = self.rows_max(k - 1);
            let b = max_prefix(self.losses[k - 1], self.n());
            if a >= b { a } else { b }
        }
    }

    /// Largest loss in the table, pairs and exterior together.
    pub open spec fn max_loss(self) -> int {
        let a = self.rows_max(self.n());
        let b = max_prefix(self.bin_losses, self.n());
        if a >= b { a } else { b }
    }

    /// No pair of slots and no slot against the exterior has any loss.
    pub open spec fn is_clear(self) -> bool {
        &&& forall|i: int, j: int| 0 <= i < self.n() && 0 <= j < self.n()
            ==> #[trigger] self.losses[i][j] == 0
        &&& forall|i: int| 0 <= i < self.n() ==> #[trigger] self.bin_losses[i] == 0
    }

    /// The loss of pair `(i, j)` after slot `s` was moved to where its
    /// losses against the other slots are `row`.
    pub open spec fn moved_loss(self, s: int, row: Seq<u32>, i: int, j: int) -> int {
        if i == s && j == s {
            0
        } else if i == s {
            row[j] as int
        } else if j == s {
            row[i] as int
        } else {
            self.loss(i, j)
        }
    }
}

/// A copy of the loss and weight tables of a tracker, restorable later.
pub struct OTSnapshot {
    pair_loss: Vec<Vec<u32>>,
    pair_weight: Vec<Vec<u64>>,
    bin_loss: Vec<u32>,
    bin_weight: Vec<u64>,
    jump_cooldown: Vec<usize>,
}

/// Symmetric pair-loss table with guided-local-search weights.
pub struct OverlapTracker {
    pair_loss: Vec<Vec<u32>>,
    pair_weight: Vec<Vec<u64>>,
    bin_loss: Vec<u32>,
    bin_weight: Vec<u64>,
    jump_cooldown: Vec<usize>,
}

pub open spec fn rows_view<T>(rows: Seq<Vec<T>>) -> Seq<Seq<T>> {
    rows.map_values(|r: Vec<T>| r@)
}

pub proof fn lemma_rows_view<T>(rows: Seq<Vec<T>>)
    ensures
        rows_view(rows).len() == rows.len(),
        forall|i: int| 0 <= i < rows.len() ==> #[trigger] rows_view(rows)[i] == rows[i]@,
{
}

impl View for OTSnapshot {
    type V = TrackerModel;

    closed spec fn view(&self) -> TrackerModel {
        TrackerModel {
            losses: rows_view(self.pair_loss@),
            weights: rows_view(self.pair_weight@),
            bin_losses: self.bin_loss@,
            bin_weights: self.bin_weight@,
            cooldowns: self.jump_cooldown@,
        }
    }
}

impl View for OverlapTracker {
    type V = TrackerModel;

    closed spec fn view(&self) -> TrackerModel {
        TrackerModel {
            losses: rows_view(self.pair_loss@),
            weights: rows_view(self.pair_weight@),
            bin_losses: self.bin_loss@,
            bin_weights: self.bin_weight@,
            cooldowns: self.jump_cooldown@,
        }
    }
}

fn filled_u32(n: usize, v: u32) -> (r: Vec<u32>)
    ensures
        r@ == Seq::new(n as nat, |_i: int| v),
{
    let mut r: Vec<u32> = Vec::new();
    let mut i: usize = 0;
    while i < n
        invariant
            i <= n,
            r@ == Seq::new(i as nat, |_i: int| v),
        decreases n - i,
    {
        r.push(v);
        i = i + 1;
        assert(r@ =~= Seq::new(i as nat, |_i: int| v));
    }
    r
}

fn filled_u64(n: usize, v: u64) -> (r: Vec<u64>)
    ensures
        r@ == Seq::new(n as nat, |_i: int| v),
{
    let mut r: Vec<u64> = Vec::new();
    let mut i: usize = 0;
    while i < n
        invariant
            i <= n,
            r@ == Seq::new(i as nat, |_i: int| v),
        decreases n - i,
    {
        r.push(v);
        i = i + 1;
        assert(r@ =~= Seq::new(i as nat, |_i: int| v));
    }
    r
}

fn copy_rows<T: Copy>(rows: &Vec<Vec<T>>) -> (r: Vec<Vec<T>>)
    ensures
        rows_view(r@) == rows_view(rows@),
{
    let mut r: Vec<Vec<T>> = Vec::new();
    let mut i: usize = 0;
    while i < rows.len()
        invariant
            i <= rows.len(),
            r@.len() == i,
            forall|k: int| 0 <= k < i ==> #[trigger] r@[k]@ == rows@[k]@,
        decreases rows.len() - i,
    {
        let row = copy_vec(&rows[i]);
        r.push(row);
        i = i + 1;
    }
    proof {
        lemma_rows_view(r@);
        lemma_rows_view(rows@);
    }
    assert(rows_view(r@) =~= rows_view(rows@));
    r
}

fn copy_vec<T: Copy>(v: &Vec<T>) -> (r: Vec<T>)
    ensures
        r@ == v@,
{
    let mut r: Vec<T> = Vec::new();
    let mut i: usize = 0;
    while i < v.len()
        invariant
            i <= v.len(),
            r@ == v@.take(i as int),
        decreases v.len() - i,
    {
        r.push(v[i]);
        i = i + 1;
        assert(r@ =~= v@.take(i as int));
    }
    assert(r@ =~= v@);
    r
}

impl OverlapTracker {
    /// A tracker of `n` slots with no loss and every weight at `WEIGHT_ONE`.
    pub fn new(n: usize) -> (r: OverlapTracker)
        requires
            n <= MAX_SLOTS,
        ensures
            r@.wf(),
            r@.n() == n,
            r@.is_clear(),
            forall|i: int, j: int| 0 <= i < n && 0 <= j < n ==> #[trigger] r@.weights[i][j] == WEIGHT_ONE,
            forall|i: int| 0 <= i < n ==> #[trigger] r@.bin_weights[i] == WEIGHT_ONE,
            forall|i: int| 0 <= i < n ==> #[trigger] r@.cooldowns[i] == 0,
    {
        let mut pair_loss: Vec<Vec<u32>> = Vec::new();
        let mut pair_weight: Vec<Vec<u64>> = Vec::new();
        let mut i: usize = 0;
        while i < n
            invariant
                i <= n,
                pair_loss@.len() == i,
                pair_weight@.len() == i,
                forall|a: int| 0 <= a < i ==> #[trigger] pair_loss@[a]@ == Seq::new(n as nat, |_i: int| 0u32),
                forall|a: int| 0 <= a < i ==> #[trigger] pair_weight@[a]@ == Seq::new(n as nat, |_i: int| WEIGHT_ONE),
            decreases n - i,
        {
            pair_loss.push(filled_u32(n, 0));
            pair_weight.push(filled_u64(n, WEIGHT_ONE));
            i = i + 1;
        }
        let r = OverlapTracker {
            pair_loss,
            pair_weight,
            bin_loss: filled_u32(n, 0),
            bin_weight: filled_u64(n, WEIGHT_ONE),
            jump_cooldown: filled_usize(n),
        };
        r
    }

    /// Number of slots.
    pub fn n_slots(&self) -> (r: usize)
        requires
            self@.wf(),
        ensures
            r == self@.n(),
    {
        self.pair_loss.len()
    }

    /// Loss between slots `i` and `j`.
    pub fn get_pair_loss(&self, i: usize, j: usize) -> (r: u32)
        requires
            self@.wf(),
            i < self@.n(),
            j < self@.n(),
        ensures
            r == self@.loss(i as int, j as int),
    {
        proof {
            lemma_rows_view(self.pair_loss@);
        }
        assert(self@.losses[i as int].len() == self@.n());
        self.pair_loss[i][j]
    }

    /// Weight of the pair of slots `i` and `j`.
    pub fn get_pair_weight(&self, i: usize, j: usize) -> (r: u64)
        requires
            self@.wf(),
            i < self@.n(),
            j < self@.n(),
        ensures
            r == self@.weight(i as int, j as int),
    {
        proof {
            lemma_rows_view(self.pair_weight@);
        }
        assert(self@.weights[i as int].len() == self@.n());
        self.pair_weight[i][j]
    }

    /// Loss of slot `i` against the strip exterior.
    pub fn get_bin_loss(&self, i: usize) -> (r: u32)
        requires
            self@.wf(),
            i < self@.n(),
        ensures
            r == self@.bin_losses[i as int],
    {
        self.bin_loss[i]
    }

    /// Weight of slot `i` against the strip exterior.
    pub fn get_bin_weight(&self, i: usize) -> (r: u64)
        requires
            self@.wf(),
            i < self@.n(),
        ensures
            r == self@.bin_weights[i as int],
    {
        self.bin_weight[i]
    }
}

fn filled_usize(n: usize) -> (r: Vec<usize>)
    ensures
        r@ == Seq::new(n as nat, |_i: int| 0usize),
{
    let mut r: Vec<usize> = Vec::new();
    let mut i: usize = 0;
    while i < n
        invariant
            i <= n,
            r@ == Seq::new(i as nat, |_i: int| 0usize),
        decreases n - i,
    {
        r.push(0);
        i = i + 1;
        assert(r@ =~= Seq::new(i as nat, |_i: int| 0usize));
    }
    r
}

fn row_sum(row: &Vec<u32>, k: usize) -> (r: u64)
    requires
        k <= row.len(),
        k <= MAX_SLOTS,
    ensures
        r == sum_prefix(row@, k as int),
{
    let mut acc: u64 = 0;
    let mut j: usize = 0;
    while j < k
        invariant
            j <= k,
            k <= row.len(),
            k <= MAX_SLOTS,
            acc == sum_prefix(row@, j as int),
        decreases k - j,
    {
        proof {
            lemma_sum_prefix_bound(row@, j as int + 1);
            assert((j as int + 1) * (u32::MAX as int) <= MAX_SLOTS * (u32::MAX as int))
                by (nonlinear_arith)
                requires
                    j as int + 1 <= MAX_SLOTS,
            ;
        }
        acc = acc + row[j] as u64;
        j = j + 1;
    }
    acc
}

fn row_weighted_sum(l: &Vec<u32>, w: &Vec<u64>, k: usize) -> (r: u128)
    requires
        k <= l.len(),
        k <= w.len(),
        k <= MAX_SLOTS,
        forall|i: int| 0 <= i < k ==> #[trigger] w@[i] <= WEIGHT_MAX,
    ensures
        r == weighted_prefix(l@, w@, k as int),
{
    let mut acc: u128 = 0;
    let mut j: usize = 0;
    while j < k
        invariant
            j <= k,
            k <= l.len(),
            k <= w.len(),
            k <= MAX_SLOTS,
            forall|i: int| 0 <= i < k ==> #[trigger] w@[i] <= WEIGHT_MAX,
            acc == weighted_prefix(l@, w@, j as int),
        decreases k - j,
    {
        proof {
            lemma_weighted_prefix_bound(l@, w@, j as int + 1);
            lemma_weighted_term_bound(w@[j as int] as int, l@[j as int] as int);
            assert((j as int + 1) * 0x100_0000_0000 * (u32::MAX as int) <= MAX_SLOTS
                * 0x100_0000_0000 * (u32::MAX as int)) by (nonlinear_arith)
                requires
                    j as int + 1 <= MAX_SLOTS,
            ;
        }
        acc = acc + (w[j] as u128) * (l[j] as u128);
        j = j + 1;
    }
    acc
}

proof fn lemma_total_loss_bound(losses: Seq<Seq<u32>>, bins: Seq<u32>, k: int)
    requires
        0 <= k <= losses.len(),
        k <= bins.len(),
        forall|i: int| 0 <= i < k ==> #[trigger] losses[i].len() >= k,
    ensures
        0 <= total_loss(losses, bins, k) <= k * (k + 1) * (u32::MAX as int),
    decreases k,
{
    if k > 0 {
        lemma_total_loss_bound(losses, bins, k - 1);
        lemma_sum_prefix_bound(losses[k - 1], k - 1);
        assert(total_loss(losses, bins, k) <= k * (k + 1) * (u32::MAX as int)) by (nonlinear_arith)
            requires
                total_loss(losses, bins, k) == total_loss(losses, bins, k - 1) + sum_prefix(
                    losses[k - 1],
                    k - 1,
                ) + bins[k - 1],
                total_loss(losses, bins, k - 1) <= (k - 1) * k * (u32::MAX as int),
                sum_prefix(losses[k - 1], k - 1) <= (k - 1) * (u32::MAX as int),
                bins[k - 1] <= u32::MAX,
                k >= 1,
        ;
    }
}

proof fn lemma_total_weighted_loss_bound(
    losses: Seq<Seq<u32>>,
    weights: Seq<Seq<u64>>,
    bins: Seq<u32>,
    bin_weights: Seq<u64>,
    k: int,
)
    requires
        0 <= k <= losses.len(),
        k <= weights.len(),
        k <= bins.len(),
        k <= bin_weights.len(),
        forall|i: int| 0 <= i < k ==> #[trigger] losses[i].len() >= k,
        forall|i: int| 0 <= i < k ==> #[trigger] weights[i].len() >= k,
        forall|i: int, j: int| 0 <= i < k && 0 <= j < k ==> #[trigger] weights[i][j] <= WEIGHT_MAX,
        forall|i: int| 0 <= i < k ==> #[trigger] bin_weights[i] <= WEIGHT_MAX,
    ensures
        0 <= total_weighted_loss(losses, weights, bins, bin_weights, k) <= k * (k + 1)
            * 0x100_0000_0000 * (u32::MAX as int),
    decreases k,
{
    if k > 0 {
        lemma_total_weighted_loss_bound(losses, weights, bins, bin_weights, k - 1);
        assert forall|j: int| 0 <= j < k - 1 implies #[trigger] weights[k - 1][j] <= 0x100_0000_0000 by {
            assert(weights[k - 1][j] <= WEIGHT_MAX);
        }
        lemma_weighted_prefix_bound(losses[k - 1], weights[k - 1], k - 1);
        lemma_weighted_term_bound(bin_weights[k - 1] as int, bins[k - 1] as int);
        let t = total_weighted_loss(losses, weights, bins, bin_weights, k);
        let p = total_weighted_loss(losses, weights, bins, bin_weights, k - 1);
        let r = weighted_prefix(losses[k - 1], weights[k - 1], k - 1);
        let b = bin_weights[k - 1] * bins[k - 1];
        assert(t <= k * (k + 1) * 0x100_0000_0000 * (u32::MAX as int)) by (nonlinear_arith)
            requires
                t == p + r + b,
                p <= (k - 1) * k * 0x100_0000_0000 * (u32::MAX as int),
                r <= (k - 1) * 0x100_0000_0000 * (u32::MAX as int),
                b <= 0x100_0000_0000 * (u32::MAX as int),
                k >= 1,
        ;
    }
}

fn total_loss_of(pl: &Vec<Vec<u32>>, bl: &Vec<u32>) -> (r: u128)
    requires
        pl.len() == bl.len(),
        pl.len() <= MAX_SLOTS,
        forall|i: int| 0 <= i < pl.len() ==> #[trigger] pl@[i]@.len() == pl.len(),
    ensures
        r == total_loss(rows_view(pl@), bl@, pl.len() as int),
{
    let n = pl.len();
    proof {
        lemma_rows_view(pl@);
    }
    let mut acc: u128 = 0;
    let mut i: usize = 0;
    while i < n
        invariant
            i <= n,
            n == pl.len(),
            n == bl.len(),
            n <= MAX_SLOTS,
            forall|a: int| 0 <= a < n ==> #[trigger] pl@[a]@.len() == n,
            forall|a: int| 0 <= a < n ==> #[trigger] rows_view(pl@)[a] == pl@[a]@,
            acc == total_loss(rows_view(pl@), bl@, i as int),
        decreases n - i,
    {
        proof {
            assert forall|a: int| 0 <= a < i + 1 implies #[trigger] rows_view(pl@)[a].len() >= i + 1 by {
                assert(rows_view(pl@)[a] == pl@[a]@);
            }
            lemma_total_loss_bound(rows_view(pl@), bl@, i as int + 1);
            assert((i as int + 1) * (i as int + 2) * (u32::MAX as int) <= 0x1_0000_0000_0000_0000_0000)
                by (nonlinear_arith)
                requires
                    i as int + 1 <= MAX_SLOTS,
            ;
        }
        let rs = row_sum(&pl[i], i);
        acc = acc + rs as u128 + bl[i] as u128;
        i = i + 1;
    }
    acc
}

fn total_weighted_loss_of(
    pl: &Vec<Vec<u32>>,
    pw: &Vec<Vec<u64>>,
    bl: &Vec<u32>,
    bw: &Vec<u64>,
) -> (r: u128)
    requires
        pl.len() == bl.len(),
        pl.len() == pw.len(),
        pl.len() == bw.len(),
        pl.len() <= MAX_SLOTS,
        forall|i: int| 0 <= i < pl.len() ==> #[trigger] pl@[i]@.len() == pl.len(),
        forall|i: int| 0 <= i < pl.len() ==> #[trigger] pw@[i]@.len() == pl.len(),
        forall|i: int, j: int| 0 <= i < pl.len() && 0 <= j < pl.len() ==> #[trigger] pw@[i]@[j]
            <= WEIGHT_MAX,
        forall|i: int| 0 <= i < pl.len() ==> #[trigger] bw@[i] <= WEIGHT_MAX,
    ensures
        r == total_weighted_loss(rows_view(pl@), rows_view(pw@), bl@, bw@, pl.len() as int),
{
    let n = pl.len();
    proof {
        lemma_rows_view(pl@);
        lemma_rows_view(pw@);
    }
    let mut acc: u128 = 0;
    let mut i: usize = 0;
    while i < n
        invariant
            i <= n,
            n == pl.len(),
            n == pw.len(),
            n == bl.len(),
            n == bw.len(),
            n <= MAX_SLOTS,
            forall|a: int| 0 <= a < n ==> #[trigger] pl@[a]@.len() == n,
            forall|a: int| 0 <= a < n ==> #[trigger] pw@[a]@.len() == n,
            forall|a: int, j: int| 0 <= a < n && 0 <= j < n ==> #[trigger] pw@[a]@[j] <= WEIGHT_MAX,
            forall|a: int| 0 <= a < n ==> #[trigger] bw@[a] <= WEIGHT_MAX,
            forall|a: int| 0 <= a < n ==> #[trigger] rows_view(pl@)[a] == pl@[a]@,
            forall|a: int| 0 <= a < n ==> #[trigger] rows_view(pw@)[a] == pw@[a]@,
            acc == total_weighted_loss(rows_view(pl@), rows_view(pw@), bl@, bw@, i as int),
        decreases n - i,
    {
        proof {
            assert forall|a: int| 0 <= a < i + 1 implies #[trigger] rows_view(pl@)[a].len() >= i + 1 by {
                assert(rows_view(pl@)[a] == pl@[a]@);
            }
            assert forall|a: int| 0 <= a < i + 1 implies #[trigger] rows_view(pw@)[a].len() >= i + 1 by {
                assert(rows_view(pw@)[a] == pw@[a]@);
            }
            assert forall|a: int, j: int| 0 <= a < i + 1 && 0 <= j < i + 1 implies #[trigger] rows_view(pw@)[a][j] <= WEIGHT_MAX by {
                assert(rows_view(pw@)[a] == pw@[a]@);
                assert(pw@[a]@[j] <= WEIGHT_MAX);
            }
            lemma_total_weighted_loss_bound(rows_view(pl@), rows_view(pw@), bl@, bw@, i as int + 1);
            assert((i as int + 1) * (i as int + 2) <= 0x400_0000_0000) by (nonlinear_arith)
                requires
                    i as int + 1 <= MAX_SLOTS,
            ;
            assert((i as int + 1) * (i as int + 2) * 0x100_0000_0000 * (u32::MAX as int)
                <= u128::MAX) by (nonlinear_arith)
                requires
                    (i as int + 1) * (i as int + 2) <= 0x400_0000_0000,
            ;
        }
        proof {
            assert forall|j: int| 0 <= j < i implies #[trigger] pw@[i as int]@[j] <= WEIGHT_MAX by {
                assert(pw@[i as int]@[j] <= WEIGHT_MAX);
            }
            lemma_weighted_term_bound(bw@[i as int] as int, bl@[i as int] as int);
        }
        let rs = row_weighted_sum(&pl[i], &pw[i], i);
        acc = acc + rs + (bw[i] as u128) * (bl[i] as u128);
        i = i + 1;
    }
    acc
}

impl OverlapTracker {
    /// Loss of slot `i` against every other slot and the exterior.
    pub fn get_overlap(&self, i: usize) -> (r: u64)
        requires
            self@.wf(),
            i < self@.n(),
        ensures
            r == self@.overlap(i as int),
    {
        proof {
            lemma_rows_view(self.pair_loss@);
            lemma_sum_prefix_bound(self@.losses[i as int], self@.n());
            assert(self@.n() * (u32::MAX as int) + u32::MAX <= u64::MAX) by (nonlinear_arith)
                requires
                    self@.n() <= MAX_SLOTS,
            ;
        }
        let n = self.pair_loss.len();
        let rs = row_sum(&self.pair_loss[i], n);
        rs + self.bin_loss[i] as u64
    }

    /// Weighted loss of slot `i` against every other slot and the exterior.
    pub fn get_weighted_overlap(&self, i: usize) -> (r: u128)
        requires
            self@.wf(),
            i < self@.n(),
        ensures
            r == self@.weighted_overlap(i as int),
    {
        proof {
            lemma_rows_view(self.pair_loss@);
            lemma_rows_view(self.pair_weight@);
            assert forall|j: int| 0 <= j < self@.n() implies #[trigger] self.pair_weight@[i as int]@[j]
                <= WEIGHT_MAX by {
                assert(self@.weights[i as int][j] <= WEIGHT_MAX);
            }
            lemma_weighted_prefix_bound(self@.losses[i as int], self@.weights[i as int], self@.n());
            lemma_weighted_term_bound(self.bin_weight@[i as int] as int, self.bin_loss@[i as int] as int);
            assert(self@.n() * 0x100_0000_0000 * (u32::MAX as int) + 0x100_0000_0000 * (u32::MAX as int)
                <= u128::MAX) by (nonlinear_arith)
                requires
                    self@.n() <= MAX_SLOTS,
            ;
        }
        let n = self.pair_loss.len();
        let rs = row_weighted_sum(&self.pair_loss[i], &self.pair_weight[i], n);
        rs + (self.bin_weight[i] as u128) * (self.bin_loss[i] as u128)
    }

    /// Every unordered pair of slots counted once, plus every exterior loss.
    pub fn get_total_overlap(&self) -> (r: u128)
        requires
            self@.wf(),
        ensures
            r == self@.total_overlap(),
    {
        proof {
            lemma_rows_view(self.pair_loss@);
            assert forall|i: int| 0 <= i < self.pair_loss.len() implies #[trigger] self.pair_loss@[i]@.len()
                == self.pair_loss.len() by {
                assert(self@.losses[i].len() == self@.n());
            }
        }
        total_loss_of(&self.pair_loss, &self.bin_loss)
    }

    /// Weighted counterpart of `get_total_overlap`.
    pub fn get_total_weighted_overlap(&self) -> (r: u128)
        requires
            self@.wf(),
        ensures
            r == self@.total_weighted_overlap(),
    {
        proof {
            lemma_rows_view(self.pair_loss@);
            lemma_rows_view(self.pair_weight@);
            assert forall|i: int| 0 <= i < self.pair_loss.len() implies #[trigger] self.pair_loss@[i]@.len()
                == self.pair_loss.len() by {
                assert(self@.losses[i].len() == self@.n());
            }
            assert forall|i: int| 0 <= i < self.pair_loss.len() implies #[trigger] self.pair_weight@[i]@.len()
                == self.pair_loss.len() by {
                assert(self@.weights[i].len() == self@.n());
            }
            assert forall|i: int, j: int| 0 <= i < self.pair_loss.len() && 0 <= j < self.pair_loss.len()
                implies #[trigger] self.pair_weight@[i]@[j] <= WEIGHT_MAX by {
                assert(self@.weights[i][j] <= WEIGHT_MAX);
            }
        }
        total_weighted_loss_of(&self.pair_loss, &self.pair_weight, &self.bin_loss, &self.bin_weight)
    }

    /// Records that slot `s` now stands where its losses against the other
    /// slots are `row` and its loss against the exterior is `bin_loss`.
    /// Every weight stays as it was, so penalties persist across the move.
    pub fn register_item_move(&mut self, s: usize, row: &Vec<u32>, bin_loss: u32)
        requires
            old(self)@.wf(),
            s < old(self)@.n(),
            row.len() == old(self)@.n(),
        ensures
            final(self)@.wf(),
            final(self)@.n() == old(self)@.n(),
            forall|i: int, j: int| 0 <= i < old(self)@.n() && 0 <= j < old(self)@.n()
                ==> #[trigger] final(self)@.loss(i, j) == old(self)@.moved_loss(s as int, row@, i, j),
            final(self)@.bin_losses == old(self)@.bin_losses.update(s as int, bin_loss),
            final(self)@.weights == old(self)@.weights,
            final(self)@.bin_weights == old(self)@.bin_weights,
            final(self)@.cooldowns == old(self)@.cooldowns,
            crate::moves::differs_only_at(final(self)@, old(self)@, s as int),
    {
        let ghost m = self@;
        let n = self.pair_loss.len();
        proof {
            lemma_rows_view(self.pair_loss@);
            assert forall|a: int| 0 <= a < n implies #[trigger] self.pair_loss@[a]@.len() == n by {
                assert(m.losses[a] == self.pair_loss@[a]@);
            }
            assert forall|a: int, b: int| 0 <= a < n && 0 <= b < n implies #[trigger] self.pair_loss@[a]@[b]
                == m.loss(a, b) by {
                assert(m.losses[a] == self.pair_loss@[a]@);
            }
        }
        let mut j: usize = 0;
        while j < n
            invariant
                j <= n,
                n == m.n(),
                s < n,
                row.len() == n,
                m.wf(),
                self.pair_loss.len() == n,
                forall|a: int| 0 <= a < n ==> #[trigger] self.pair_loss@[a]@.len() == n,
                forall|a: int, b: int| 0 <= a < n && 0 <= b < n ==> #[trigger] self.pair_loss@[a]@[b]
                    == if (a == s && b < j) || (b == s && a < j) {
                        m.moved_loss(s as int, row@, a, b)
                    } else {
                        m.loss(a, b)
                    },
                self.pair_weight == old(self).pair_weight,
                self.bin_loss == old(self).bin_loss,
                self.bin_weight == old(self).bin_weight,
                self.jump_cooldown == old(self).jump_cooldown,
                m == old(self)@,
            decreases n - j,
        {
            if j == s {
                self.pair_loss[s][s] = 0;
            } else {
                let v = row[j];
                self.pair_loss[s][j] = v;
                self.pair_loss[j][s] = v;
            }
            j = j + 1;
        }
        self.bin_loss.set(s, bin_loss);
        proof {
            lemma_rows_view(self.pair_loss@);
            lemma_rows_view(old(self).pair_loss@);
            assert forall|a: int, b: int| 0 <= a < n && 0 <= b < n implies #[trigger] self@.losses[a][b]
                == self@.losses[b][a] by {
                assert(self@.losses[a] == self.pair_loss@[a]@);
                assert(self@.losses[b] == self.pair_loss@[b]@);
                assert(m.losses[a][b] == m.losses[b][a]);
            }
            assert forall|a: int| 0 <= a < n implies #[trigger] self@.losses[a][a] == 0 by {
                assert(self@.losses[a] == self.pair_loss@[a]@);
            }
            assert forall|a: int, b: int| 0 <= a < n && 0 <= b < n implies #[trigger] self@.loss(a, b)
                == m.moved_loss(s as int, row@, a, b) by {
                assert(self@.losses[a] == self.pair_loss@[a]@);
            }
            assert forall|a: int| 0 <= a < n implies #[trigger] self@.losses[a].len() == n by {
                assert(self@.losses[a] == self.pair_loss@[a]@);
            }
        }
    }

    /// Puts slot `i` on jump cooldown for the next `JUMP_COOLDOWN` increments.
    pub fn register_jump(&mut self, i: usize)
        requires
            old(self)@.wf(),
            i < old(self)@.n(),
        ensures
            final(self)@ == (TrackerModel {
                cooldowns: old(self)@.cooldowns.update(i as int, JUMP_COOLDOWN),
                ..old(self)@
            }),
            final(self)@.wf(),
    {
        self.jump_cooldown.set(i, JUMP_COOLDOWN);
    }

    /// Whether slot `i` jumped within the last `JUMP_COOLDOWN` increments.
    pub fn is_on_jump_cooldown(&self, i: usize) -> (r: bool)
        requires
            self@.wf(),
            i < self@.n(),
        ensures
            r == (self@.cooldowns[i as int] > 0),
    {
        self.jump_cooldown[i] > 0
    }
}

fn row_max(row: &Vec<u32>, k: usize) -> (r: u32)
    requires
        k <= row.len(),
    ensures
        r == max_prefix(row@, k as int),
{
    let mut acc: u32 = 0;
    let mut j: usize = 0;
    while j < k
        invariant
            j <= k,
            k <= row.len(),
            acc == max_prefix(row@, j as int),
        decreases k - j,
    {
        if row[j] > acc {
            acc = row[j];
        }
        j = j + 1;
    }
    acc
}

proof fn lemma_rows_max_bound(m: TrackerModel, k: int)
    requires
        m.wf(),
        0 <= k <= m.n(),
    ensures
        0 <= m.rows_max(k) <= u32::MAX,
        forall|i: int, j: int| 0 <= i < k && 0 <= j < m.n() ==> #[trigger] m.losses[i][j] <= m.rows_max(k),
    decreases k,
{
    if k > 0 {
        lemma_rows_max_bound(m, k - 1);
        lemma_max_prefix_bound(m.losses[k - 1], m.n());
    }
}

proof fn lemma_max_loss_bound(m: TrackerModel)
    requires
        m.wf(),
    ensures
        0 <= m.max_loss() <= u32::MAX,
        forall|i: int, j: int| 0 <= i < m.n() && 0 <= j < m.n() ==> #[trigger] m.losses[i][j] <= m.max_loss(),
        forall|i: int| 0 <= i < m.n() ==> #[trigger] m.bin_losses[i] <= m.max_loss(),
{
    lemma_rows_max_bound(m, m.n());
    lemma_max_prefix_bound(m.bin_losses, m.n());
}

/// A weight stays within `[WEIGHT_ONE, WEIGHT_MAX]`, grows when its loss is
/// positive and shrinks otherwise.
pub proof fn lemma_next_weight(w: int, l: int, max_loss: int)
    requires
        WEIGHT_ONE <= w <= WEIGHT_MAX,
        0 <= l <= max_loss,
    ensures
        WEIGHT_ONE <= next_weight(w, l, max_loss) <= WEIGHT_MAX,
        l > 0 ==> next_weight(w, l, max_loss) >= w,
        l == 0 ==> next_weight(w, l, max_loss) <= w,
{
    if l > 0 {
        let m = OT_MIN_INCREASE + (OT_MAX_INCREASE - OT_MIN_INCREASE) * l / max_loss;
        assert(0 <= (OT_MAX_INCREASE - OT_MIN_INCREASE) * l / max_loss) by (nonlinear_arith)
            requires
                0 < l <= max_loss,
                OT_MAX_INCREASE - OT_MIN_INCREASE == 800,
        ;
        assert(w * m / 1000 >= w) by (nonlinear_arith)
            requires
                m >= 1200,
                w >= 0,
        ;
    } else {
        assert(w * OT_DECAY / 1000 <= w) by (nonlinear_arith)
            requires
                OT_DECAY == 950,
                w >= 0,
        ;
    }
}

fn next_weight_exec(w: u64, l: u32, max_loss: u32) -> (r: u64)
    requires
        WEIGHT_ONE <= w <= WEIGHT_MAX,
        l <= max_loss,
    ensures
        r == next_weight(w as int, l as int, max_loss as int),
        WEIGHT_ONE <= r <= WEIGHT_MAX,
        l > 0 ==> r >= w,
        l == 0 ==> r <= w,
{
    proof {
        lemma_next_weight(w as int, l as int, max_loss as int);
    }
    if l > 0 {
        proof {
            assert((OT_MAX_INCREASE - OT_MIN_INCREASE) * (l as int) / (max_loss as int) <= 800)
                by (nonlinear_arith)
                requires
                    0 < l <= max_loss,
                    OT_MAX_INCREASE - OT_MIN_INCREASE == 800,
            ;
            assert(0 <= (OT_MAX_INCREASE - OT_MIN_INCREASE) * (l as int) / (max_loss as int))
                by (nonlinear_arith)
                requires
                    0 < l <= max_loss,
                    OT_MAX_INCREASE - OT_MIN_INCREASE == 800,
            ;
        }
        let m: u64 = OT_MIN_INCREASE + (OT_MAX_INCREASE - OT_MIN_INCREASE) * (l as u64) / (max_loss as u64);
        proof {
            assert(w as int * m as int <= WEIGHT_MAX as int * 2000) by (nonlinear_arith)
                requires
                    w <= WEIGHT_MAX,
                    m <= 2000,
            ;
            assert(w as int * m as int / 1000 >= w as int) by (nonlinear_arith)
                requires
                    m >= 1200,
                    w >= 0,
            ;
        }
        let grown: u64 = w * m / 1000;
        if grown > WEIGHT_MAX {
            WEIGHT_MAX
        } else {
            grown
        }
    } else {
        proof {
            assert(w as int * OT_DECAY as int / 1000 <= w as int) by (nonlinear_arith)
                requires
                    OT_DECAY == 950,
                    w >= 0,
            ;
            assert(w as int * OT_DECAY as int <= WEIGHT_MAX as int * 1000) by (nonlinear_arith)
                requires
                    OT_DECAY == 950,
                    w <= WEIGHT_MAX,
            ;
        }
        let decayed: u64 = w * OT_DECAY / 1000;
        if decayed < WEIGHT_ONE {
            WEIGHT_ONE
        } else {
            decayed
        }
    }
}

impl OverlapTracker {
    /// Largest loss in the table, pairs and exterior together.
    pub fn max_loss(&self) -> (r: u32)
        requires
            self@.wf(),
        ensures
            r == self@.max_loss(),
    {
        let n = self.pair_loss.len();
        let ghost m = self@;
        proof {
            lemma_rows_view(self.pair_loss@);
        }
        let mut acc: u32 = 0;
        let mut i: usize = 0;
        while i < n
            invariant
                i <= n,
                n == m.n(),
                m == self@,
                m.wf(),
                forall|a: int| 0 <= a < n ==> #[trigger] rows_view(self.pair_loss@)[a] == self.pair_loss@[a]@,
                acc == m.rows_max(i as int),
            decreases n - i,
        {
            assert(m.losses[i as int] == self.pair_loss@[i as int]@);
            let b = row_max(&self.pair_loss[i], n);
            if b > acc {
                acc = b;
            }
            i = i + 1;
        }
        let b = row_max(&self.bin_loss, n);
        if b > acc {
            b
        } else {
            acc
        }
    }

    /// Multiplies the weight of every overlapping pair (and exterior entry) by
    /// a factor between `OT_MIN_INCREASE` and `OT_MAX_INCREASE`, growing with
    /// its loss relative to the largest loss; decays every other weight by
    /// `OT_DECAY`, never below `WEIGHT_ONE`. Every jump cooldown counts down by one.
    pub fn increment_weights(&mut self)
        requires
            old(self)@.wf(),
        ensures
            final(self)@.wf(),
            final(self)@.n() == old(self)@.n(),
            final(self)@.losses == old(self)@.losses,
            final(self)@.bin_losses == old(self)@.bin_losses,
            forall|i: int, j: int| 0 <= i < old(self)@.n() && 0 <= j < old(self)@.n()
                ==> #[trigger] final(self)@.weights[i][j] == next_weight(
                    old(self)@.weights[i][j] as int,
                    old(self)@.losses[i][j] as int,
                    old(self)@.max_loss(),
                ),
            forall|i: int| 0 <= i < old(self)@.n() ==> #[trigger] final(self)@.bin_weights[i]
                == next_weight(
                    old(self)@.bin_weights[i] as int,
                    old(self)@.bin_losses[i] as int,
                    old(self)@.max_loss(),
                ),
            forall|i: int| 0 <= i < old(self)@.n() ==> #[trigger] final(self)@.cooldowns[i] == if old(
                self,
            )@.cooldowns[i] > 0 {
                old(self)@.cooldowns[i] - 1
            } else {
                0
            },
            forall|i: int, j: int| 0 <= i < old(self)@.n() && 0 <= j < old(self)@.n()
                && old(self)@.losses[i][j] > 0 ==> #[trigger] final(self)@.weights[i][j]
                >= old(self)@.weights[i][j],
            forall|i: int, j: int| 0 <= i < old(self)@.n() && 0 <= j < old(self)@.n()
                && old(self)@.losses[i][j] == 0 ==> WEIGHT_ONE <= #[trigger] final(self)@.weights[i][j]
                <= old(self)@.weights[i][j],
            forall|i: int| 0 <= i < old(self)@.n() && old(self)@.bin_losses[i] > 0
                ==> #[trigger] final(self)@.bin_weights[i] >= old(self)@.bin_weights[i],
            forall|i: int| 0 <= i < old(self)@.n() && old(self)@.bin_losses[i] == 0
                ==> WEIGHT_ONE <= #[trigger] final(self)@.bin_weights[i] <= old(self)@.bin_weights[i],
    {
        let ghost m = self@;
        let ml = self.max_loss();
        proof {
            lemma_max_loss_bound(m);
            lemma_rows_view(self.pair_loss@);
            lemma_rows_view(self.pair_weight@);
            assert forall|a: int| 0 <= a < m.n() implies #[trigger] self.pair_weight@[a]@.len() == m.n()
                && self.pair_loss@[a]@ == m.losses[a] by {
                assert(m.weights[a] == self.pair_weight@[a]@);
                assert(m.losses[a] == self.pair_loss@[a]@);
            }
            assert forall|a: int, b: int| 0 <= a < m.n() && 0 <= b < m.n() implies #[trigger] self.pair_weight@[a]@[b]
                == m.weights[a][b] by {
                assert(m.weights[a] == self.pair_weight@[a]@);
            }
        }
        let n = self.pair_loss.len();
        let mut i: usize = 0;
        while i < n
            invariant
                i <= n,
                n == m.n(),
                m.wf(),
                ml == m.max_loss(),
                forall|a: int, b: int| 0 <= a < n && 0 <= b < n ==> #[trigger] m.losses[a][b] <= ml,
                self.pair_loss == old(self).pair_loss,
                self.bin_loss == old(self).bin_loss,
                self.bin_weight == old(self).bin_weight,
                self.jump_cooldown == old(self).jump_cooldown,
                m == old(self)@,
                forall|a: int| 0 <= a < n ==> #[trigger] self.pair_loss@[a]@ == m.losses[a],
                self.pair_weight.len() == n,
                forall|a: int| 0 <= a < n ==> #[trigger] self.pair_weight@[a]@.len() == n,
                forall|a: int, b: int| 0 <= a < n && 0 <= b < n ==> #[trigger] self.pair_weight@[a]@[b]
                    == if a < i {
                        next_weight(m.weights[a][b] as int, m.losses[a][b] as int, ml as int)
                    } else {
                        m.weights[a][b] as int
                    },
            decreases n - i,
        {
            let mut j: usize = 0;
            while j < n
                invariant
                    i < n,
                    j <= n,
                    n == m.n(),
                    m.wf(),
                    ml == m.max_loss(),
                    forall|a: int, b: int| 0 <= a < n && 0 <= b < n ==> #[trigger] m.losses[a][b] <= ml,
                    self.pair_loss == old(self).pair_loss,
                    self.bin_loss == old(self).bin_loss,
                    self.bin_weight == old(self).bin_weight,
                    self.jump_cooldown == old(self).jump_cooldown,
                    m == old(self)@,
                    forall|a: int| 0 <= a < n ==> #[trigger] self.pair_loss@[a]@ == m.losses[a],
                    self.pair_weight.len() == n,
                    forall|a: int| 0 <= a < n ==> #[trigger] self.pair_weight@[a]@.len() == n,
                    forall|a: int, b: int| 0 <= a < n && 0 <= b < n ==> #[trigger] self.pair_weight@[a]@[b]
                        == if a < i || (a == i && b < j) {
                            next_weight(m.weights[a][b] as int, m.losses[a][b] as int, ml as int)
                        } else {
                            m.weights[a][b] as int
                        },
                decreases n - j,
            {
                assert(self.pair_weight@[i as int]@[j as int] == m.weights[i as int][j as int]);
                assert(m.losses[i as int][j as int] <= ml);
                let w = next_weight_exec(self.pair_weight[i][j], self.pair_loss[i][j], ml);
                self.pair_weight[i][j] = w;
                j = j + 1;
            }
            i = i + 1;
        }
        let mut k: usize = 0;
        while k < n
            invariant
                k <= n,
                n == m.n(),
                m.wf(),
                ml == m.max_loss(),
                forall|a: int| 0 <= a < n ==> #[trigger] m.bin_losses[a] <= ml,
                self.bin_loss@ == m.bin_losses,
                self.pair_loss == old(self).pair_loss,
                forall|a: int| 0 <= a < n ==> #[trigger] self.pair_loss@[a]@ == m.losses[a],
                self.pair_loss.len() == n,
                self.pair_weight.len() == n,
                forall|a: int| 0 <= a < n ==> #[trigger] self.pair_weight@[a]@.len() == n,
                forall|a: int, b: int| 0 <= a < n && 0 <= b < n ==> #[trigger] self.pair_weight@[a]@[b]
                    == next_weight(m.weights[a][b] as int, m.losses[a][b] as int, ml as int),
                self.bin_weight.len() == n,
                self.jump_cooldown.len() == n,
                forall|a: int| 0 <= a < n ==> #[trigger] self.bin_weight@[a] == if a < k {
                    next_weight(m.bin_weights[a] as int, m.bin_losses[a] as int, ml as int)
                } else {
                    m.bin_weights[a] as int
                },
                forall|a: int| 0 <= a < n ==> #[trigger] self.jump_cooldown@[a] == if a < k {
                    if m.cooldowns[a] > 0 { m.cooldowns[a] - 1 } else { 0 }
                } else {
                    m.cooldowns[a] as int
                },
            decreases n - k,
        {
            let w = next_weight_exec(self.bin_weight[k], self.bin_loss[k], ml);
            self.bin_weight.set(k, w);
            let c = self.jump_cooldown[k];
            if c > 0 {
                self.jump_cooldown.set(k, c - 1);
            }
            k = k + 1;
        }
        proof {
            lemma_rows_view(self.pair_loss@);
            lemma_rows_view(self.pair_weight@);
            assert(self@.losses =~= m.losses) by {
                assert forall|a: int| 0 <= a < n implies #[trigger] self@.losses[a] == m.losses[a] by {
                    assert(self@.losses[a] == self.pair_loss@[a]@);
                }
            }
            assert forall|a: int, b: int| 0 <= a < n && 0 <= b < n implies #[trigger] self@.weights[a][b]
                == next_weight(m.weights[a][b] as int, m.losses[a][b] as int, ml as int) by {
                assert(self@.weights[a] == self.pair_weight@[a]@);
            }
            assert forall|a: int| 0 <= a < n implies #[trigger] self@.weights[a].len() == n by {
                assert(self@.weights[a] == self.pair_weight@[a]@);
            }
            assert forall|a: int, b: int| 0 <= a < n && 0 <= b < n implies WEIGHT_ONE <= #[trigger] self@.weights[a][b]
                <= WEIGHT_MAX && (m.losses[a][b] > 0 ==> self@.weights[a][b] >= m.weights[a][b])
                && (m.losses[a][b] == 0 ==> self@.weights[a][b] <= m.weights[a][b]) by {
                assert(self@.weights[a][b] == next_weight(m.weights[a][b] as int, m.losses[a][b] as int, ml as int));
                lemma_next_weight(m.weights[a][b] as int, m.losses[a][b] as int, ml as int);
            }
            assert forall|a: int| 0 <= a < n implies WEIGHT_ONE <= #[trigger] self@.bin_weights[a]
                <= WEIGHT_MAX && (m.bin_losses[a] > 0 ==> self@.bin_weights[a] >= m.bin_weights[a])
                && (m.bin_losses[a] == 0 ==> self@.bin_weights[a] <= m.bin_weights[a]) by {
                lemma_next_weight(m.bin_weights[a] as int, m.bin_losses[a] as int, ml as int);
            }
            assert forall|a: int, b: int| 0 <= a < n && 0 <= b < n implies #[trigger] self@.weights[a][b]
                == self@.weights[b][a] by {
                assert(self@.weights[a][b] == next_weight(m.weights[a][b] as int, m.losses[a][b] as int, ml as int));
                assert(self@.weights[b][a] == next_weight(m.weights[b][a] as int, m.losses[b][a] as int, ml as int));
                assert(m.weights[a][b] == m.weights[b][a]);
                assert(m.losses[a][b] == m.losses[b][a]);
            }
        }
    }
}

impl OverlapTracker {
    /// An independent tracker in the same state.
    pub fn copy(&self) -> (r: OverlapTracker)
        ensures
            r@ == self@,
    {
        OverlapTracker {
            pair_loss: copy_rows(&self.pair_loss),
            pair_weight: copy_rows(&self.pair_weight),
            bin_loss: copy_vec(&self.bin_loss),
            bin_weight: copy_vec(&self.bin_weight),
            jump_cooldown: copy_vec(&self.jump_cooldown),
        }
    }

    /// A copy of the whole state of the tracker.
    pub fn create_snapshot(&self) -> (r: OTSnapshot)
        requires
            self@.wf(),
        ensures
            r@ == self@,
    {
        OTSnapshot {
            pair_loss: copy_rows(&self.pair_loss),
            pair_weight: copy_rows(&self.pair_weight),
            bin_loss: copy_vec(&self.bin_loss),
            bin_weight: copy_vec(&self.bin_weight),
            jump_cooldown: copy_vec(&self.jump_cooldown),
        }
    }

    /// Brings back the state held by `snap`.
    pub fn restore(&mut self, snap: &OTSnapshot)
        requires
            snap@.wf(),
        ensures
            final(self)@ == snap@,
    {
        self.pair_loss = copy_rows(&snap.pair_loss);
        self.pair_weight = copy_rows(&snap.pair_weight);
        self.bin_loss = copy_vec(&snap.bin_loss);
        self.bin_weight = copy_vec(&snap.bin_weight);
        self.jump_cooldown = copy_vec(&snap.jump_cooldown);
    }

    /// Brings back the losses and cooldowns held by `snap` and keeps the
    /// current weights.
    pub fn restore_but_keep_weights(&mut self, snap: &OTSnapshot)
        requires
            snap@.wf(),
            old(self)@.wf(),
            snap@.n() == old(self)@.n(),
        ensures
            final(self)@ == (TrackerModel {
                weights: old(self)@.weights,
                bin_weights: old(self)@.bin_weights,
                ..snap@
            }),
            final(self)@.wf(),
    {
        self.pair_loss = copy_rows(&snap.pair_loss);
        self.bin_loss = copy_vec(&snap.bin_loss);
        self.jump_cooldown = copy_vec(&snap.jump_cooldown);
    }
}

impl OTSnapshot {
    /// Number of slots of the tracker state that this snapshot holds.
    pub fn n_slots(&self) -> (r: usize)
        ensures
            r == self@.n(),
    {
        proof {
            lemma_rows_view(self.pair_loss@);
        }
        self.pair_loss.len()
    }

    /// Total overlap of the tracker state that this snapshot holds.
    pub fn get_total_overlap(&self) -> (r: u128)
        requires
            self@.wf(),
        ensures
            r == self@.total_overlap(),
    {
        proof {
            lemma_rows_view(self.pair_loss@);
            assert forall|i: int| 0 <= i < self.pair_loss.len() implies #[trigger] self.pair_loss@[i]@.len()
                == self.pair_loss.len() by {
                assert(self@.losses[i].len() == self@.n());
            }
        }
        total_loss_of(&self.pair_loss, &self.bin_loss)
    }

    /// Weighted total overlap of the tracker state that this snapshot holds.
    pub fn get_total_weighted_overlap(&self) -> (r: u128)
        requires
            self@.wf(),
        ensures
            r == self@.total_weighted_overlap(),
    {
        proof {
            lemma_rows_view(self.pair_loss@);
            lemma_rows_view(self.pair_weight@);
            assert forall|i: int| 0 <= i < self.pair_loss.len() implies #[trigger] self.pair_loss@[i]@.len()
                == self.pair_loss.len() by {
                assert(self@.losses[i].len() == self@.n());
            }
            assert forall|i: int| 0 <= i < self.pair_loss.len() implies #[trigger] self.pair_weight@[i]@.len()
                == self.pair_loss.len() by {
                assert(self@.weights[i].len() == self@.n());
            }
            assert forall|i: int, j: int| 0 <= i < self.pair_loss.len() && 0 <= j < self.pair_loss.len()
                implies #[trigger] self.pair_weight@[i]@[j] <= WEIGHT_MAX by {
                assert(self@.weights[i][j] <= WEIGHT_MAX);
            }
        }
        total_weighted_loss_of(&self.pair_loss, &self.pair_weight, &self.bin_loss, &self.bin_weight)
    }
}

/// A square table with zero diagonal that reads the same from both sides, as
/// the collision detection of a fixed layout reports it.
pub open spec fn is_loss_table(table: Seq<Seq<u32>>, n: int) -> bool {
    &&& table.len() == n
    &&& forall|i: int| 0 <= i < n ==> #[trigger] table[i].len() == n
    &&& forall|i: int| 0 <= i < n ==> #[trigger] table[i][i] == 0
    &&& forall|i: int, j: int| 0 <= i < n && 0 <= j < n ==> #[trigger] table[i][j] == table[j][i]
}

/// The loss between two slots reads the same from both sides, and a slot has
/// no loss against itself, in every well-formed tracker state.
pub proof fn law_loss_symmetry(t: TrackerModel, i: int, j: int)
    requires
        t.wf(),
        0 <= i < t.n(),
        0 <= j < t.n(),
    ensures
        t.loss(i, j) == t.loss(j, i),
        t.loss(i, i) == 0,
{
}

proof fn lemma_total_loss_zero(losses: Seq<Seq<u32>>, bins: Seq<u32>, k: int)
    requires
        0 <= k <= losses.len(),
        k <= bins.len(),
        forall|i: int| 0 <= i < k ==> #[trigger] losses[i].len() >= k,
    ensures
        total_loss(losses, bins, k) == 0 <==> (forall|i: int, j: int| 0 <= j < i < k
            ==> #[trigger] losses[i][j] == 0) && (forall|i: int| 0 <= i < k ==> #[trigger] bins[i]
            == 0),
    decreases k,
{
    if k > 0 {
        lemma_total_loss_zero(losses, bins, k - 1);
        lemma_total_loss_bound(losses, bins, k - 1);
        crate::arith::lemma_sum_prefix_zero(losses[k - 1], k - 1);
        crate::arith::lemma_sum_prefix_bound(losses[k - 1], k - 1);
        if total_loss(losses, bins, k) == 0 {
            assert forall|i: int, j: int| 0 <= j < i < k implies #[trigger] losses[i][j] == 0 by {
                if i < k - 1 {
                } else {
                    assert(losses[k - 1][j] == 0);
                }
            }
        }
    }
}

/// The total overlap is zero exactly when no pair of slots and no slot
/// against the exterior has any loss: a state of zero total overlap is a
/// feasible layout.
pub proof fn law_zero_overlap_iff_clear(t: TrackerModel)
    requires
        t.wf(),
    ensures
        t.total_overlap() == 0 <==> t.is_clear(),
{
    lemma_total_loss_zero(t.losses, t.bin_losses, t.n());
    if t.total_overlap() == 0 {
        assert forall|i: int, j: int| 0 <= i < t.n() && 0 <= j < t.n() implies #[trigger] t.losses[i][j]
            == 0 by {
            if j < i {
            } else if i < j {
                assert(t.losses[j][i] == 0);
            }
        }
    }
}

/// Building a tracker from the rows of a loss table yields exactly that
/// table.
pub proof fn law_rebuild_is_table(table: Seq<Seq<u32>>, built: TrackerModel)
    requires
        is_loss_table(table, built.n()),
        forall|a: int, b: int| 0 <= a < built.n() && 0 <= b < built.n() ==> #[trigger] built.loss(a, b)
            == rebuilt_loss(table, built.n(), a, b),
    ensures
        forall|a: int, b: int| 0 <= a < built.n() && 0 <= b < built.n() ==> #[trigger] built.losses[a][b]
            == table[a][b],
{
    assert forall|a: int, b: int| 0 <= a < built.n() && 0 <= b < built.n() implies #[trigger] built.losses[a][b]
        == table[a][b] by {
        assert(built.loss(a, b) == rebuilt_loss(table, built.n(), a, b));
        assert(table[a][b] == table[b][a]);
    }
}

/// Moving one slot to where the collision detection reports the row of a
/// loss table for it, when the rest of the tracker already agrees with that
/// table, yields exactly the table that a rebuild from scratch would hold.
pub proof fn law_move_matches_rebuild(
    t: TrackerModel,
    s: int,
    table: Seq<Seq<u32>>,
    moved: TrackerModel,
)
    requires
        t.wf(),
        is_loss_table(table, t.n()),
        0 <= s < t.n(),
        forall|i: int, j: int| 0 <= i < t.n() && 0 <= j < t.n() && i != s && j != s
            ==> #[trigger] t.losses[i][j] == table[i][j],
        moved.n() == t.n(),
        forall|i: int, j: int| 0 <= i < t.n() && 0 <= j < t.n() ==> #[trigger] moved.loss(i, j)
            == t.moved_loss(s, table[s], i, j),
    ensures
        forall|i: int, j: int| 0 <= i < t.n() && 0 <= j < t.n() ==> #[trigger] moved.losses[i][j]
            == table[i][j],
{
    assert forall|i: int, j: int| 0 <= i < t.n() && 0 <= j < t.n() implies #[trigger] moved.losses[i][j]
        == table[i][j] by {
        assert(moved.loss(i, j) == t.moved_loss(s, table[s], i, j));
        if j == s && i != s {
            assert(table[s][i] == table[i][s]);
        }
    }
}

/// Slots among the first `k` whose overlap is positive, ascending.
pub open spec fn overlapping_prefix(t: TrackerModel, k: int) -> Seq<usize>
    decreases k,
{
    if k <= 0 {
        Seq::empty()
    } else if t.overlap(k - 1) > 0 {
        overlapping_prefix(t, k - 1).push((k - 1) as usize)
    } else {
        overlapping_prefix(t, k - 1)
    }
}

/// A stored loss `stored` agrees with a recomputed `fresh` one when they
/// differ by at most a tenth of the stored value.
pub open spec fn loss_agrees(stored: int, fresh: int) -> bool {
    10 * (if stored >= fresh { stored - fresh } else { fresh - stored }) <= stored
}

fn loss_agrees_exec(stored: u32, fresh: u32) -> (r: bool)
    ensures
        r == loss_agrees(stored as int, fresh as int),
{
    let d: u64 = if stored >= fresh { (stored - fresh) as u64 } else { (fresh - stored) as u64 };
    10 * d <= stored as u64
}

/// The stored loss `stored` of a pair is consistent with the losses `a` and
/// `b` that the collision detection reports for it from either side: it
/// agrees with one of them, or only one side sees the pair at all (collision
/// detection is not symmetric in edge cases, which is tolerated).
pub open spec fn pair_consistent(stored: int, a: int, b: int) -> bool {
    ((a > 0) != (b > 0)) || loss_agrees(stored, a) || loss_agrees(stored, b)
}

/// Every stored loss of `t` is consistent with the rows `rows` and exterior
/// losses `bins` measured afresh from the layout, slot by slot.
pub open spec fn consistent_with(t: TrackerModel, rows: Seq<Seq<u32>>, bins: Seq<u32>) -> bool {
    &&& forall|i: int, j: int| 0 <= i < t.n() && 0 <= j < t.n() && i != j ==> pair_consistent(
        #[trigger] t.losses[i][j] as int,
        rows[i][j] as int,
        rows[j][i] as int,
    )
    &&& forall|i: int| 0 <= i < t.n() ==> loss_agrees(#[trigger] t.bin_losses[i] as int, bins[i] as int)
}

impl OverlapTracker {
    /// The slots that currently overlap something: those a separation pass
    /// tries to move.
    pub fn overlapping_slots(&self) -> (r: Vec<usize>)
        requires
            self@.wf(),
        ensures
            r@ == overlapping_prefix(self@, self@.n()),
    {
        let n = self.pair_loss.len();
        let mut r: Vec<usize> = Vec::new();
        let mut i: usize = 0;
        while i < n
            invariant
                i <= n,
                n == self@.n(),
                self@.wf(),
                r@ == overlapping_prefix(self@, i as int),
            decreases n - i,
        {
            if self.get_overlap(i) > 0 {
                r.push(i);
            }
            i = i + 1;
        }
        r
    }

    /// Whether the tracker is consistent with the layout: `rows[i]` and
    /// `bins[i]` are the losses of slot `i` as measured afresh by querying the
    /// collision detection with its shape. Each stored pair loss must agree,
    /// to a tenth, with the loss measured from one side or the other, unless
    /// only one side sees the pair; each exterior loss must agree. Callers
    /// that treat an inconsistent tracker as a fault assert on the result.
    pub fn is_consistent_with(&self, rows: &Vec<Vec<u32>>, bins: &Vec<u32>) -> (r: bool)
        requires
            self@.wf(),
            rows.len() == self@.n(),
            bins.len() == self@.n(),
            forall|i: int| 0 <= i < rows.len() ==> #[trigger] rows@[i]@.len() == rows.len(),
        ensures
            r == consistent_with(self@, rows_view(rows@), bins@),
    {
        let n = self.pair_loss.len();
        proof {
            lemma_rows_view(rows@);
        }
        let mut i: usize = 0;
        while i < n
            invariant
                i <= n,
                n == self@.n(),
                self@.wf(),
                rows.len() == n,
                bins.len() == n,
                forall|a: int| 0 <= a < n ==> #[trigger] rows@[a]@.len() == n,
                forall|a: int| 0 <= a < n ==> #[trigger] rows_view(rows@)[a] == rows@[a]@,
                forall|a: int, b: int| 0 <= a < i && 0 <= b < n && a != b ==> pair_consistent(
                    #[trigger] self@.losses[a][b] as int,
                    rows_view(rows@)[a][b] as int,
                    rows_view(rows@)[b][a] as int,
                ),
                forall|a: int| 0 <= a < i ==> loss_agrees(#[trigger] self@.bin_losses[a] as int, bins@[a] as int),
            decreases n - i,
        {
            let mut j: usize = 0;
            while j < n
                invariant
                    i < n,
                    j <= n,
                    n == self@.n(),
                    self@.wf(),
                    rows.len() == n,
                    forall|a: int| 0 <= a < n ==> #[trigger] rows@[a]@.len() == n,
                    forall|a: int| 0 <= a < n ==> #[trigger] rows_view(rows@)[a] == rows@[a]@,
                    forall|a: int, b: int| ((0 <= a < i && 0 <= b < n) || (a == i && 0 <= b < j)) && a != b
                        ==> pair_consistent(
                        #[trigger] self@.losses[a][b] as int,
                        rows_view(rows@)[a][b] as int,
                        rows_view(rows@)[b][a] as int,
                    ),
                decreases n - j,
            {
                if j != i {
                    let stored = self.get_pair_loss(i, j);
                    let a = rows[i][j];
                    let b = rows[j][i];
                    let ok = ((a > 0) != (b > 0)) || loss_agrees_exec(stored, a) || loss_agrees_exec(stored, b);
                    if !ok {
                        return false;
                    }
                }
                j = j + 1;
            }
            if !loss_agrees_exec(self.get_bin_loss(i), bins[i]) {
                return false;
            }
            i = i + 1;
        }
        true
    }
}

/// The loss of pair `(a, b)` after the rows of slots `0..k` were registered,
/// in that order, on a tracker without losses: the row registered last for
/// the pair decides.
pub open spec fn rebuilt_loss(rows: Seq<Seq<u32>>, k: int, a: int, b: int) -> int {
    if a == b {
        0
    } else if a < k && b < k {
        if a > b { rows[a][b] as int } else { rows[b][a] as int }
    } else if a < k {
        rows[a][b] as int
    } else if b < k {
        rows[b][a] as int
    } else {
        0
    }
}

impl OverlapTracker {
    /// A tracker built from scratch: slot `i` has the losses `rows[i]`
    /// against the other slots and `bins[i]` against the exterior; every
    /// weight is `WEIGHT_ONE`. Where two rows disagree on a pair, the row of
    /// the later slot decides.
    pub fn from_losses(rows: &Vec<Vec<u32>>, bins: &Vec<u32>) -> (r: OverlapTracker)
        requires
            rows.len() <= MAX_SLOTS,
            bins.len() == rows.len(),
            forall|i: int| 0 <= i < rows.len() ==> #[trigger] rows@[i]@.len() == rows.len(),
        ensures
            r@.wf(),
            r@.n() == rows.len(),
            forall|a: int, b: int| 0 <= a < rows.len() && 0 <= b < rows.len() ==> #[trigger] r@.loss(a, b)
                == rebuilt_loss(rows_view(rows@), rows.len() as int, a, b),
            r@.bin_losses == bins@,
            forall|i: int, j: int| 0 <= i < rows.len() && 0 <= j < rows.len() ==> #[trigger] r@.weights[i][j]
                == WEIGHT_ONE,
            forall|i: int| 0 <= i < rows.len() ==> #[trigger] r@.bin_weights[i] == WEIGHT_ONE,
            forall|i: int| 0 <= i < rows.len() ==> #[trigger] r@.cooldowns[i] == 0,
    {
        let n = rows.len();
        let mut t = OverlapTracker::new(n);
        proof {
            lemma_rows_view(rows@);
        }
        let mut k: usize = 0;
        while k < n
            invariant
                k <= n,
                n == rows.len(),
                n == bins.len(),
                forall|i: int| 0 <= i < n ==> #[trigger] rows@[i]@.len() == n,
                forall|i: int| 0 <= i < n ==> #[trigger] rows_view(rows@)[i] == rows@[i]@,
                t@.wf(),
                t@.n() == n,
                forall|a: int, b: int| 0 <= a < n && 0 <= b < n ==> #[trigger] t@.loss(a, b)
                    == rebuilt_loss(rows_view(rows@), k as int, a, b),
                forall|i: int| 0 <= i < n ==> #[trigger] t@.bin_losses[i] == if i < k { bins@[i] } else { 0 },
                forall|i: int, j: int| 0 <= i < n && 0 <= j < n ==> #[trigger] t@.weights[i][j] == WEIGHT_ONE,
                forall|i: int| 0 <= i < n ==> #[trigger] t@.bin_weights[i] == WEIGHT_ONE,
                forall|i: int| 0 <= i < n ==> #[trigger] t@.cooldowns[i] == 0,
            decreases n - k,
        {
            let ghost before = t@;
            t.register_item_move(k, &rows[k], bins[k]);
            proof {
                assert forall|a: int, b: int| 0 <= a < n && 0 <= b < n implies #[trigger] t@.loss(a, b)
                    == rebuilt_loss(rows_view(rows@), k + 1, a, b) by {
                    assert(t@.loss(a, b) == before.moved_loss(k as int, rows@[k as int]@, a, b));
                }
            }
            k = k + 1;
        }
        assert(t@.bin_losses =~= bins@);
        t
    }
}

} // verus!
