//! Sums and maxima over prefixes of integer sequences, with their bounds.
use vstd::prelude::*;

verus! {

/// Sum of the first `k` entries of `s`.
pub open spec fn sum_prefix(s: Seq<u32>, k: int) -> int
    decreases k,
{
    if k <= 0 {
        0
    } else {
        sum_prefix(s, k - 1) + s[k - 1]
    }
}

/// Sum of `w[i] * l[i]` over the first `k` entries.
pub open spec fn weighted_prefix(l: Seq<u32>, w: Seq<u64>, k: int) -> int
    decreases k,
{
    if k <= 0 {
        0
    } else {
        weighted_prefix(l, w, k - 1) + w[k - 1] * l[k - 1]
    }
}

/// Largest of the first `k` entries of `s`, or 0 when `k` is 0.
pub open spec fn max_prefix(s: Seq<u32>, k: int) -> int
    decreases k,
{
    if k <= 0 {
        0
    } else {
        let a = max_prefix(s, k - 1);
        if a >= s[k - 1] { a } else { s[k - 1] as int }
    }
}

pub proof fn lemma_sum_prefix_bound(s: Seq<u32>, k: int)
    requires
        0 <= k <= s.len(),
    ensures
        0 <= sum_prefix(s, k) <= k * (u32::MAX as int),
    decreases k,
{
    if k > 0 {
        lemma_sum_prefix_bound(s, k - 1);
        assert(sum_prefix(s, k) <= k * (u32::MAX as int)) by (nonlinear_arith)
            requires
                sum_prefix(s, k) == sum_prefix(s, k - 1) + s[k - 1],
                sum_prefix(s, k - 1) <= (k - 1) * (u32::MAX as int),
                s[k - 1] <= u32::MAX,
        ;
    }
}

pub proof fn lemma_weighted_term_bound(w: int, l: int)
    requires
        0 <= w <= 0x100_0000_0000,
        0 <= l <= u32::MAX,
    ensures
        0 <= w * l <= 0x100_0000_0000 * (u32::MAX as int),
{
    assert(0 <= w * l <= 0x100_0000_0000 * (u32::MAX as int)) by (nonlinear_arith)
        requires
            0 <= w <= 0x100_0000_0000,
            0 <= l <= u32::MAX,
    ;
}

/// Each term of a weighted sum with weights below 2^40 is below 2^72.
pub proof fn lemma_weighted_prefix_bound(l: Seq<u32>, w: Seq<u64>, k: int)
    requires
        0 <= k <= l.len(),
        k <= w.len(),
        forall|i: int| 0 <= i < k ==> #[trigger] w[i] <= 0x100_0000_0000,
    ensures
        0 <= weighted_prefix(l, w, k) <= k * 0x100_0000_0000 * (u32::MAX as int),
    decreases k,
{
    if k > 0 {
        lemma_weighted_prefix_bound(l, w, k - 1);
        lemma_weighted_term_bound(w[k - 1] as int, l[k - 1] as int);
        assert(weighted_prefix(l, w, k) <= k * 0x100_0000_0000 * (u32::MAX as int))
            by (nonlinear_arith)
            requires
                weighted_prefix(l, w, k) == weighted_prefix(l, w, k - 1) + w[k - 1] * l[k - 1],
                weighted_prefix(l, w, k - 1) <= (k - 1) * 0x100_0000_0000 * (u32::MAX as int),
                w[k - 1] * l[k - 1] <= 0x100_0000_0000 * (u32::MAX as int),
        ;
    }
}

pub proof fn lemma_max_prefix_bound(s: Seq<u32>, k: int)
    requires
        0 <= k <= s.len(),
    ensures
        0 <= max_prefix(s, k) <= u32::MAX,
        forall|i: int| 0 <= i < k ==> s[i] <= #[trigger] max_prefix(s, k),
    decreases k,
{
    if k > 0 {
        lemma_max_prefix_bound(s, k - 1);
    }
}

/// A sum of non-negative terms is zero exactly when every term is.
pub proof fn lemma_sum_prefix_zero(s: Seq<u32>, k: int)
    requires
        0 <= k <= s.len(),
    ensures
        sum_prefix(s, k) == 0 <==> forall|i: int| 0 <= i < k ==> #[trigger] s[i] == 0,
    decreases k,
{
    if k > 0 {
        lemma_sum_prefix_zero(s, k - 1);
        lemma_sum_prefix_bound(s, k - 1);
    }
}

} // verus!
