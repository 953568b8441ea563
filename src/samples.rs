//! Candidate placements, their evaluations, and the buffer that keeps the
//! best mutually distinct candidates of a placement search.
use vstd::prelude::*;
use itertools::Itertools;

verus! {

/// A rigid transformation of an item: a translation and a rotation, in the
/// fixed-point units of the geometric front end.
#[derive(Clone, Copy, Debug, PartialEq, Eq, Structural)]
pub struct DTransformation {
    pub rotation: i32,
    pub tx: i32,
    pub ty: i32,
}

impl DTransformation {
    /// The identity: no rotation, no translation.
    pub fn empty() -> (r: DTransformation)
        ensures
            r.rotation == 0 && r.tx == 0 && r.ty == 0,
    {
        DTransformation { rotation: 0, tx: 0, ty: 0 }
    }
}

/// Outcome of evaluating one candidate placement.
#[derive(Clone, Copy, Debug, PartialEq, Eq, Structural)]
pub enum SampleEval {
    /// The candidate collides with nothing.
    Clear,
    /// The candidate collides, with this weighted loss.
    Collision { loss: u128 },
    /// The candidate was abandoned because its loss exceeded the bound.
    Invalid,
}

/// Position of an evaluation in the total order `Clear < Collision < Invalid`,
/// collisions ordered by loss.
pub open spec fn eval_rank(e: SampleEval) -> (int, int) {
    match e {
        SampleEval::Clear => (0, 0),
        SampleEval::Collision { loss } => (1, loss as int),
        SampleEval::Invalid => (2, 0),
    }
}

/// `a` is strictly better than `b`.
pub open spec fn eval_lt(a: SampleEval, b: SampleEval) -> bool {
    let (ka, la) = eval_rank(a);
    let (kb, lb) = eval_rank(b);
    ka < kb || (ka == kb && la < lb)
}

/// `a` is at least as good as `b`.
pub open spec fn eval_le(a: SampleEval, b: SampleEval) -> bool {
    !eval_lt(b, a)
}

impl SampleEval {
    /// Whether `self` is strictly better than `other`.
    pub fn is_better_than(&self, other: &SampleEval) -> (r: bool)
        ensures
            r == eval_lt(*self, *other),
    {
        match (self, other) {
            (SampleEval::Clear, SampleEval::Clear) => false,
            (SampleEval::Clear, _) => true,
            (SampleEval::Collision { loss: a }, SampleEval::Collision { loss: b }) => *a < *b,
            (SampleEval::Collision { .. }, SampleEval::Invalid) => true,
            (SampleEval::Collision { .. }, SampleEval::Clear) => false,
            (SampleEval::Invalid, _) => false,
        }
    }
}

/// The largest weighted loss a candidate may reach and still beat `best`:
/// the loss of a collision, zero when `best` is clear (any collision is
/// worse), and no limit when `best` is invalid.
pub open spec fn loss_bound_of(best: SampleEval) -> u128 {
    match best {
        SampleEval::Collision { loss } => loss,
        SampleEval::Clear => 0,
        SampleEval::Invalid => u128::MAX,
    }
}

impl SampleEval {
    /// The upper bound that an evaluation compared against `self` may stop at.
    pub fn loss_bound(&self) -> (r: u128)
        ensures
            r == loss_bound_of(*self),
    {
        match self {
            SampleEval::Collision { loss } => *loss,
            SampleEval::Clear => 0,
            SampleEval::Invalid => u128::MAX,
        }
    }
}

impl SampleEval {
    /// The outcome of a collision query that stopped early when
    /// `early_terminated` (the loss passed its bound, so not every collision
    /// was seen), and otherwise found the weighted loss `loss`.
    pub fn from_query(early_terminated: bool, loss: u128) -> (r: SampleEval)
        ensures
            r == if early_terminated {
                SampleEval::Invalid
            } else if loss == 0 {
                SampleEval::Clear
            } else {
                SampleEval::Collision { loss }
            },
    {
        if early_terminated {
            SampleEval::Invalid
        } else if loss == 0 {
            SampleEval::Clear
        } else {
            SampleEval::Collision { loss }
        }
    }
}

/// The result of a placement search: the sample it found where that is at
/// least as good as the current placement, otherwise the current placement.
/// A move therefore never raises the item's weighted loss.
pub fn not_worse_than_current(
    found: (DTransformation, SampleEval),
    current: (DTransformation, SampleEval),
) -> (r: (DTransformation, SampleEval))
    ensures
        r == if eval_le(found.1, current.1) { found } else { current },
        eval_le(r.1, current.1),
{
    if current.1.is_better_than(&found.1) {
        current
    } else {
        found
    }
}

/// The running weighted loss of a collision query after adding a hazard of
/// weight `weight` and loss `loss` to `total`, saturating at `u128::MAX`.
pub open spec fn accumulated(total: u128, weight: u64, loss: u32) -> u128 {
    let s = total + weight * loss;
    if s > u128::MAX { u128::MAX } else { s as u128 }
}

/// One step of a collision query that stops early: adds the weighted loss
/// of one more colliding hazard and tells whether the total now exceeds
/// `bound`, the loss of the best sample so far, so the query may stop.
pub fn accumulate(total: u128, weight: u64, loss: u32, bound: u128) -> (r: (u128, bool))
    ensures
        r.0 == accumulated(total, weight, loss),
        r.1 == (r.0 > bound),
{
    proof {
        assert((weight as int) * (loss as int) <= u64::MAX as int * u32::MAX as int) by (nonlinear_arith)
            requires
                weight <= u64::MAX,
                loss <= u32::MAX,
        ;
    }
    let term: u128 = (weight as u128) * (loss as u128);
    let s: u128 = if total > u128::MAX - term { u128::MAX } else { total + term };
    (s, s > bound)
}

pub open spec fn abs_diff(a: i32, b: i32) -> int {
    if a >= b { a - b } else { b - a }
}

/// Two transformations lie within `thresh` of each other in both directions
/// of translation and in rotation.
pub open spec fn similar(a: DTransformation, b: DTransformation, thresh: u32) -> bool {
    &&& abs_diff(a.tx, b.tx) < thresh
    &&& abs_diff(a.ty, b.ty) < thresh
    &&& abs_diff(a.rotation, b.rotation) < thresh
}

fn abs_diff_exec(a: i32, b: i32) -> (r: i64)
    ensures
        r == abs_diff(a, b),
{
    if a >= b {
        a as i64 - b as i64
    } else {
        b as i64 - a as i64
    }
}

/// Whether `a` and `b` lie within `thresh` of each other.
pub fn dtransfs_are_similar(a: DTransformation, b: DTransformation, thresh: u32) -> (r: bool)
    ensures
        r == similar(a, b, thresh),
{
    abs_diff_exec(a.tx, b.tx) < thresh as i64 && abs_diff_exec(a.ty, b.ty) < thresh as i64
        && abs_diff_exec(a.rotation, b.rotation) < thresh as i64
}

/// Relies on itertools::Itertools::find_position: the index of the first item
/// for which the predicate holds, or none.
#[verifier::external_body]
fn find_similar(samples: &Vec<(DTransformation, SampleEval)>, dt: DTransformation, thresh: u32) -> (r:
    Option<usize>)
    ensures
        match r {
            Some(i) => i < samples@.len() && similar(samples@[i as int].0, dt, thresh) && forall|j: int|
                0 <= j < i ==> !similar(#[trigger] samples@[j].0, dt, thresh),
            None => forall|j: int| 0 <= j < samples@.len() ==> !similar(#[trigger] samples@[j].0, dt, thresh),
        },
{
    samples.iter().find_position(|s| dtransfs_are_similar(s.0, dt, thresh)).map(|p| p.0)
}

/// Entries appear from best to worst.
pub open spec fn is_sorted(s: Seq<(DTransformation, SampleEval)>) -> bool {
    forall|i: int, j: int| 0 <= i < j < s.len() ==> eval_le(#[trigger] s[i].1, #[trigger] s[j].1)
}

/// No two entries that are not `Invalid` are similar.
pub open spec fn is_unique(s: Seq<(DTransformation, SampleEval)>, thresh: u32) -> bool {
    forall|i: int, j: int|
        0 <= i < s.len() && 0 <= j < s.len() && i != j && s[i].1 != SampleEval::Invalid && s[j].1
            != SampleEval::Invalid ==> !similar(#[trigger] s[i].0, #[trigger] s[j].0, thresh)
}

/// Index of the first entry similar to `dt`, if any.
pub open spec fn first_similar(s: Seq<(DTransformation, SampleEval)>, dt: DTransformation, thresh: u32) -> int
    decreases s.len(),
{
    if s.len() == 0 {
        -1
    } else {
        let k = first_similar(s.drop_last(), dt, thresh);
        if k >= 0 {
            k
        } else if similar(s.last().0, dt, thresh) {
            s.len() - 1
        } else {
            -1
        }
    }
}

/// The entries among the first `k` of `s` that are not similar to `dt`, in
/// their order.
pub open spec fn dissimilar(s: Seq<(DTransformation, SampleEval)>, dt: DTransformation, thresh: u32, k: int) -> Seq<
    (DTransformation, SampleEval),
>
    decreases k,
{
    if k <= 0 {
        Seq::empty()
    } else if !similar(s[k - 1].0, dt, thresh) {
        dissimilar(s, dt, thresh, k - 1).push(s[k - 1])
    } else {
        dissimilar(s, dt, thresh, k - 1)
    }
}

/// `e` is one of the first `k` entries of `s`.
pub open spec fn occurs_before(s: Seq<(DTransformation, SampleEval)>, k: int, e: (DTransformation, SampleEval)) -> bool {
    exists|j: int| 0 <= j < k && #[trigger] s[j] == e
}

/// The entry that fills the buffer where no sample is kept.
pub open spec fn placeholder() -> (DTransformation, SampleEval) {
    (DTransformation { rotation: 0, tx: 0, ty: 0 }, SampleEval::Invalid)
}

/// `r` is `s` with `x` inserted after every entry at least as good as `x` and
/// before every entry worse than it.
pub open spec fn is_sorted_insert(
    s: Seq<(DTransformation, SampleEval)>,
    x: (DTransformation, SampleEval),
    r: Seq<(DTransformation, SampleEval)>,
) -> bool {
    exists|p: int|
        0 <= p <= s.len() && r == s.insert(p, x) && (forall|i: int| 0 <= i < p ==> eval_le(
            #[trigger] s[i].1,
            x.1,
        )) && (forall|i: int| p <= i < s.len() ==> eval_lt(x.1, #[trigger] s[i].1))
}


proof fn lemma_first_similar_found(s: Seq<(DTransformation, SampleEval)>, dt: DTransformation, thresh: u32, i: int)
    requires
        0 <= i < s.len(),
        similar(s[i].0, dt, thresh),
        forall|j: int| 0 <= j < i ==> !similar(#[trigger] s[j].0, dt, thresh),
    ensures
        first_similar(s, dt, thresh) == i,
    decreases s.len(),
{
    if i < s.len() - 1 {
        lemma_first_similar_found(s.drop_last(), dt, thresh, i);
    } else {
        lemma_first_similar_none(s.drop_last(), dt, thresh);
    }
}

proof fn lemma_first_similar_none(s: Seq<(DTransformation, SampleEval)>, dt: DTransformation, thresh: u32)
    requires
        forall|j: int| 0 <= j < s.len() ==> !similar(#[trigger] s[j].0, dt, thresh),
    ensures
        first_similar(s, dt, thresh) == -1,
    decreases s.len(),
{
    if s.len() > 0 {
        lemma_first_similar_none(s.drop_last(), dt, thresh);
    }
}

proof fn lemma_sorted_insert_sorted(
    s: Seq<(DTransformation, SampleEval)>,
    x: (DTransformation, SampleEval),
    p: int,
)
    requires
        is_sorted(s),
        0 <= p <= s.len(),
        forall|i: int| 0 <= i < p ==> eval_le(#[trigger] s[i].1, x.1),
        forall|i: int| p <= i < s.len() ==> eval_lt(x.1, #[trigger] s[i].1),
    ensures
        is_sorted(s.insert(p, x)),
{
    let r = s.insert(p, x);
    assert forall|i: int, j: int| 0 <= i < j < r.len() implies eval_le(#[trigger] r[i].1, #[trigger] r[j].1) by {
        if i < p && j < p {
            assert(r[i] == s[i] && r[j] == s[j]);
        } else if i < p && j == p {
            assert(r[i] == s[i]);
        } else if i < p {
            assert(r[i] == s[i] && r[j] == s[j - 1]);
        } else if i == p {
            assert(r[j] == s[j - 1]);
        } else {
            assert(r[i] == s[i - 1] && r[j] == s[j - 1]);
        }
    }
}

proof fn lemma_dissimilar(s: Seq<(DTransformation, SampleEval)>, dt: DTransformation, thresh: u32, k: int)
    requires
        0 <= k <= s.len(),
        is_sorted(s),
    ensures
        dissimilar(s, dt, thresh, k).len() <= k,
        forall|i: int| 0 <= i < dissimilar(s, dt, thresh, k).len() ==> !similar(
            #[trigger] dissimilar(s, dt, thresh, k)[i].0,
            dt,
            thresh,
        ),
        forall|i: int| 0 <= i < dissimilar(s, dt, thresh, k).len() ==> occurs_before(
            s,
            k,
            #[trigger] dissimilar(s, dt, thresh, k)[i],
        ),
        is_sorted(dissimilar(s, dt, thresh, k)),
        forall|i: int, m: int| 0 <= i < dissimilar(s, dt, thresh, k).len() && k <= m < s.len() ==> eval_le(
            #[trigger] dissimilar(s, dt, thresh, k)[i].1,
            #[trigger] s[m].1,
        ),
        is_unique(s, thresh) ==> is_unique(dissimilar(s, dt, thresh, k), thresh),
    decreases k,
{
    if k > 0 {
        lemma_dissimilar(s, dt, thresh, k - 1);
        let f0 = dissimilar(s, dt, thresh, k - 1);
        let f = dissimilar(s, dt, thresh, k);
        if !similar(s[k - 1].0, dt, thresh) {
            assert forall|i: int| 0 <= i < f.len() implies occurs_before(s, k, #[trigger] f[i]) by {
                if i < f0.len() {
                    assert(occurs_before(s, k - 1, f0[i]));
                    let j = choose|j: int| 0 <= j < k - 1 && #[trigger] s[j] == f0[i];
                    assert(s[j] == f[i]);
                } else {
                    assert(s[k - 1] == f[i]);
                }
            }
            assert forall|i: int, j: int| 0 <= i < j < f.len() implies eval_le(#[trigger] f[i].1, #[trigger] f[j].1) by {
                if j < f0.len() {
                    assert(f[i] == f0[i] && f[j] == f0[j]);
                } else {
                    assert(f[i] == f0[i]);
                    assert(eval_le(f0[i].1, s[k - 1].1));
                }
            }
            assert forall|i: int, m: int| 0 <= i < f.len() && k <= m < s.len() implies eval_le(
                #[trigger] f[i].1,
                #[trigger] s[m].1,
            ) by {
                if i < f0.len() {
                    assert(f[i] == f0[i]);
                    assert(eval_le(f0[i].1, s[m].1));
                } else {
                    assert(f[i] == s[k - 1]);
                }
            }
            if is_unique(s, thresh) {
                assert forall|a: int, b: int|
                    0 <= a < f.len() && 0 <= b < f.len() && a != b && f[a].1 != SampleEval::Invalid && f[b].1
                        != SampleEval::Invalid implies !similar(#[trigger] f[a].0, #[trigger] f[b].0, thresh) by {
                    if a < f0.len() && b < f0.len() {
                        assert(f[a] == f0[a] && f[b] == f0[b]);
                    } else if a < f0.len() {
                        assert(occurs_before(s, k - 1, f0[a]));
                        let j = choose|j: int| 0 <= j < k - 1 && #[trigger] s[j] == f0[a];
                        assert(f[a] == s[j] && f[b] == s[k - 1]);
                    } else {
                        assert(occurs_before(s, k - 1, f0[b]));
                        let j = choose|j: int| 0 <= j < k - 1 && #[trigger] s[j] == f0[b];
                        assert(f[b] == s[j] && f[a] == s[k - 1]);
                    }
                }
            }
        } else {
            assert forall|i: int| 0 <= i < f.len() implies occurs_before(s, k, #[trigger] f[i]) by {
                assert(occurs_before(s, k - 1, f0[i]));
                let j = choose|j: int| 0 <= j < k - 1 && #[trigger] s[j] == f0[i];
                assert(s[j] == f[i]);
            }
        }
    }
}

/// Where some entry among the first `k` is similar to `dt`, fewer than `k`
/// entries remain.
proof fn lemma_dissimilar_shorter(
    s: Seq<(DTransformation, SampleEval)>,
    dt: DTransformation,
    thresh: u32,
    k: int,
    j: int,
)
    requires
        0 <= j < k <= s.len(),
        similar(s[j].0, dt, thresh),
        is_sorted(s),
    ensures
        dissimilar(s, dt, thresh, k).len() < k,
    decreases k,
{
    lemma_dissimilar(s, dt, thresh, k - 1);
    if j < k - 1 {
        lemma_dissimilar_shorter(s, dt, thresh, k - 1, j);
    }
}

/// `x` inserted into the sorted `k0` at `p` and padded with placeholders is
/// sorted, and unique where `k0` is and `x` is similar to none of it.
proof fn lemma_padded_insert(
    k0: Seq<(DTransformation, SampleEval)>,
    x: (DTransformation, SampleEval),
    p: int,
    ins: Seq<(DTransformation, SampleEval)>,
    r: Seq<(DTransformation, SampleEval)>,
    t: u32,
)
    requires
        is_sorted(k0),
        0 <= p <= k0.len(),
        forall|q: int| 0 <= q < p ==> eval_le(#[trigger] k0[q].1, x.1),
        forall|q: int| p <= q < k0.len() ==> eval_lt(x.1, #[trigger] k0[q].1),
        forall|q: int| 0 <= q < k0.len() ==> !similar(#[trigger] k0[q].0, x.0, t),
        ins == k0.insert(p, x),
        ins.len() <= r.len(),
        r.take(ins.len() as int) == ins,
        forall|q: int| ins.len() <= q < r.len() ==> #[trigger] r[q] == placeholder(),
    ensures
        is_sorted_insert(k0, x, r.take(k0.len() as int + 1)),
        is_sorted(r),
        is_unique(k0, t) ==> is_unique(r, t),
{
    lemma_sorted_insert_sorted(k0, x, p);
    assert(is_sorted_insert(k0, x, r.take(k0.len() as int + 1)));
    assert forall|a: int| 0 <= a < ins.len() implies #[trigger] r[a] == ins[a] by {
        assert(r.take(ins.len() as int)[a] == r[a]);
    }
    assert forall|a: int, b: int| 0 <= a < b < r.len() implies eval_le(#[trigger] r[a].1, #[trigger] r[b].1) by {
        if b < ins.len() {
            assert(r[a] == ins[a] && r[b] == ins[b]);
        }
    }
    if is_unique(k0, t) {
        assert forall|a: int, b: int|
            0 <= a < r.len() && 0 <= b < r.len() && a != b && r[a].1 != SampleEval::Invalid && r[b].1
                != SampleEval::Invalid implies !similar(#[trigger] r[a].0, #[trigger] r[b].0, t) by {
            assert(a < ins.len() && b < ins.len());
            assert(r[a] == ins[a] && r[b] == ins[b]);
            if a == p {
                assert(ins[b] == k0[if b < p { b } else { b - 1 }]);
            } else if b == p {
                assert(ins[a] == k0[if a < p { a } else { a - 1 }]);
            } else {
                assert(ins[a] == k0[if a < p { a } else { a - 1 }]);
                assert(ins[b] == k0[if b < p { b } else { b - 1 }]);
            }
        }
    }
}

/// Keeps the `size` best mutually distinct samples reported to it, best first.
pub struct BestSamples {
    size: usize,
    samples: Vec<(DTransformation, SampleEval)>,
    unique_thresh: u32,
}

impl BestSamples {
    pub closed spec fn samples_view(&self) -> Seq<(DTransformation, SampleEval)> {
        self.samples@
    }

    pub closed spec fn size_view(&self) -> nat {
        self.size as nat
    }

    pub closed spec fn thresh_view(&self) -> u32 {
        self.unique_thresh
    }

    pub open spec fn wf(&self) -> bool {
        &&& self.size_view() >= 1
        &&& self.samples_view().len() == self.size_view()
        &&& is_sorted(self.samples_view())
    }

    /// A buffer of `size` entries, all `Invalid` at the identity transformation.
    pub fn new(size: usize, unique_thresh: u32) -> (r: BestSamples)
        requires
            size >= 1,
        ensures
            r.wf(),
            r.size_view() == size,
            r.thresh_view() == unique_thresh,
            r.samples_view() == Seq::new(size as nat, |_i: int| (DTransformation { rotation: 0, tx: 0, ty: 0 }, SampleEval::Invalid)),
            is_unique(r.samples_view(), unique_thresh),
    {
        let mut samples: Vec<(DTransformation, SampleEval)> = Vec::new();
        let mut i: usize = 0;
        while i < size
            invariant
                i <= size,
                samples@ == Seq::new(i as nat, |_i: int| (DTransformation { rotation: 0, tx: 0, ty: 0 }, SampleEval::Invalid)),
            decreases size - i,
        {
            samples.push((DTransformation::empty(), SampleEval::Invalid));
            i = i + 1;
            assert(samples@ =~= Seq::new(i as nat, |_i: int| (DTransformation { rotation: 0, tx: 0, ty: 0 }, SampleEval::Invalid)));
        }
        BestSamples { size, samples, unique_thresh }
    }

    /// Offers a sample. It is kept when it beats the worst entry and, where an
    /// entry lies within the threshold of it, when it also beats the first
    /// such entry. A kept sample takes its place in the sorted buffer; every
    /// entry within the threshold of it leaves, or, where there is none, the
    /// worst entry does, and `placeholder()` fills the freed places at the
    /// end. Where more than one entry leaves, the worst entry becomes that
    /// `Invalid` placeholder, so the bound `worst()` gives rises again.
    /// Returns whether the sample was kept.
    #[verifier::rlimit(50)]
    pub fn report(&mut self, dt: DTransformation, eval: SampleEval) -> (accepted: bool)
        requires
            old(self).wf(),
        ensures
            final(self).wf(),
            final(self).size_view() == old(self).size_view(),
            final(self).thresh_view() == old(self).thresh_view(),
            ({
                let s = old(self).samples_view();
                let t = old(self).thresh_view();
                let idx = first_similar(s, dt, t);
                let kept = dissimilar(s, dt, t, if idx >= 0 { s.len() as int } else { s.len() - 1 });
                let r = final(self).samples_view();
                &&& accepted == (eval_lt(eval, s[s.len() - 1].1) && (idx < 0 || eval_lt(eval, s[idx].1)))
                &&& !accepted ==> r == s
                &&& accepted ==> is_sorted_insert(kept, (dt, eval), r.take(kept.len() as int + 1))
                &&& accepted ==> forall|i: int| kept.len() + 1 <= i < r.len() ==> #[trigger] r[i] == placeholder()
            }),
            is_unique(old(self).samples_view(), old(self).thresh_view()) ==> is_unique(
                final(self).samples_view(),
                final(self).thresh_view(),
            ),
    {
        let ghost s = self.samples@;
        let t = self.unique_thresh;
        let worst = self.samples[self.size - 1].1;
        if !eval.is_better_than(&worst) {
            return false;
        }
        let found = find_similar(&self.samples, dt, t);
        match found {
            None => {
                proof {
                    lemma_first_similar_none(s, dt, t);
                }
            },
            Some(i) => {
                proof {
                    lemma_first_similar_found(s, dt, t, i as int);
                }
                if !eval.is_better_than(&self.samples[i].1) {
                    return false;
                }
            },
        }
        let limit: usize = match found {
            Some(_) => self.size,
            None => self.size - 1,
        };
        let mut kept: Vec<(DTransformation, SampleEval)> = Vec::new();
        let mut i: usize = 0;
        while i < limit
            invariant
                i <= limit,
                limit <= s.len(),
                self.samples@ == s,
                kept@ == dissimilar(s, dt, t, i as int),
            decreases limit - i,
        {
            if !dtransfs_are_similar(self.samples[i].0, dt, t) {
                kept.push(self.samples[i]);
            }
            i = i + 1;
        }
        proof {
            lemma_dissimilar(s, dt, t, limit as int);
            if let Some(j) = found {
                lemma_dissimilar_shorter(s, dt, t, limit as int, j as int);
            }
        }
        let ghost k0 = kept@;
        let x = (dt, eval);
        let mut p: usize = 0;
        loop
            invariant
                p <= k0.len(),
                kept@ == k0,
                forall|q: int| 0 <= q < p ==> eval_le(#[trigger] k0[q].1, x.1),
            ensures
                p <= k0.len(),
                kept@ == k0,
                forall|q: int| 0 <= q < p ==> eval_le(#[trigger] k0[q].1, x.1),
                p < k0.len() ==> eval_lt(x.1, k0[p as int].1),
            decreases k0.len() - p,
        {
            if p >= kept.len() {
                break;
            }
            if x.1.is_better_than(&kept[p].1) {
                break;
            }
            p = p + 1;
        }
        proof {
            assert forall|q: int| p <= q < k0.len() implies eval_lt(x.1, #[trigger] k0[q].1) by {
                if q > p {
                    assert(eval_le(k0[p as int].1, k0[q].1));
                }
            }
        }
        kept.insert(p, x);
        let ghost ins = kept@;
        assert(ins == k0.insert(p as int, x));
        while kept.len() < self.size
            invariant
                ins.len() <= kept.len() <= self.size,
                self.size == s.len(),
                kept@.take(ins.len() as int) == ins,
                forall|q: int| ins.len() <= q < kept.len() ==> #[trigger] kept@[q] == placeholder(),
            decreases self.size - kept.len(),
        {
            kept.push((DTransformation::empty(), SampleEval::Invalid));
            assert(kept@.take(ins.len() as int) =~= ins);
        }
        self.samples = kept;
        proof {
            lemma_padded_insert(k0, x, p as int, ins, self.samples@, t);
        }
        true
    }

    /// The best entry.
    pub fn best(&self) -> (r: (DTransformation, SampleEval))
        requires
            self.wf(),
        ensures
            r == self.samples_view()[0],
    {
        self.samples[0]
    }

    /// The worst entry: a sample must beat it to be kept. It is an `Invalid`
    /// placeholder while the buffer is not full, which can happen again after
    /// a report that evicted several similar entries.
    pub fn worst(&self) -> (r: (DTransformation, SampleEval))
        requires
            self.wf(),
        ensures
            r == self.samples_view()[self.size_view() - 1],
    {
        self.samples[self.size - 1]
    }
}

} // verus!
