//! Coordinate descent that refines a sample to a local minimum of the
//! evaluator. The descent proposes the neighbours of its current sample;
//! the caller evaluates them and hands the evaluations back.
use vstd::prelude::*;
use crate::samples::{DTransformation, SampleEval, eval_lt, eval_le};

verus! {

/// `v + d`, clamped to the range of `i32`.
pub open spec fn sat_add(v: i32, d: int) -> i32 {
    let s = v + d;
    if s > i32::MAX { i32::MAX } else if s < i32::MIN { i32::MIN } else { s as i32 }
}

fn sat_add_exec(v: i32, d: i32) -> (r: i32)
    ensures
        r == sat_add(v, d as int),
{
    let s: i64 = v as i64 + d as i64;
    if s > i32::MAX as i64 {
        i32::MAX
    } else if s < i32::MIN as i64 {
        i32::MIN
    } else {
        s as i32
    }
}

/// State of one coordinate descent.
pub struct CoordDescent {
    /// The best sample found so far.
    pub current: DTransformation,
    /// Its evaluation.
    pub eval: SampleEval,
    /// Step of translation, along x and along y.
    pub t_step: i32,
    /// Step of rotation.
    pub r_step: i32,
    /// The descent may end once the translation step is below this.
    pub t_step_limit: i32,
    /// The descent may end once the rotation step is below this.
    pub r_step_limit: i32,
    /// Whether rotation is refined too (continuous rotation).
    pub wiggle: bool,
    /// Whether a local minimum was reached.
    pub done: bool,
}

/// The neighbours of the current sample, in the order x+, x-, y+, y-, and
/// then, when wiggling, rotation+ and rotation-.
pub open spec fn neighbours(c: CoordDescent) -> Seq<DTransformation> {
    let p = c.current;
    let t = c.t_step as int;
    let base = seq![
        DTransformation { tx: sat_add(p.tx, t), ..p },
        DTransformation { tx: sat_add(p.tx, -t), ..p },
        DTransformation { ty: sat_add(p.ty, t), ..p },
        DTransformation { ty: sat_add(p.ty, -t), ..p },
    ];
    if c.wiggle {
        base + seq![
            DTransformation { rotation: sat_add(p.rotation, c.r_step as int), ..p },
            DTransformation { rotation: sat_add(p.rotation, -(c.r_step as int)), ..p },
        ]
    } else {
        base
    }
}

/// Some evaluation in `evals[lo..hi]` is strictly better than `e`.
pub open spec fn any_better(evals: Seq<SampleEval>, lo: int, hi: int, e: SampleEval) -> bool {
    exists|k: int| lo <= k < hi && eval_lt(#[trigger] evals[k], e)
}

/// `k` is the first index of a best evaluation in `evals`.
pub open spec fn is_first_best(evals: Seq<SampleEval>, k: int) -> bool {
    &&& 0 <= k < evals.len()
    &&& forall|i: int| 0 <= i < evals.len() ==> eval_le(evals[k], #[trigger] evals[i])
    &&& forall|i: int| 0 <= i < k ==> eval_lt(evals[k], #[trigger] evals[i])
}

impl CoordDescent {
    /// A descent from `start`, evaluated as `eval`.
    pub fn new(
        start: DTransformation,
        eval: SampleEval,
        t_step_init: i32,
        t_step_limit: i32,
        r_step_init: i32,
        r_step_limit: i32,
        wiggle: bool,
    ) -> (r: CoordDescent)
        requires
            t_step_init >= 0,
            r_step_init >= 0,
        ensures
            r.current == start,
            r.eval == eval,
            r.t_step == t_step_init,
            r.r_step == r_step_init,
            r.t_step_limit == t_step_limit,
            r.r_step_limit == r_step_limit,
            r.wiggle == wiggle,
            !r.done,
    {
        CoordDescent {
            current: start,
            eval,
            t_step: t_step_init,
            r_step: r_step_init,
            t_step_limit,
            r_step_limit,
            wiggle,
            done: false,
        }
    }

    /// The samples to evaluate next.
    pub fn candidates(&self) -> (r: Vec<DTransformation>)
        requires
            self.t_step >= 0,
            self.r_step >= 0,
        ensures
            r@ == neighbours(*self),
    {
        let p = self.current;
        let t = self.t_step;
        let mut r: Vec<DTransformation> = Vec::new();
        r.push(DTransformation { tx: sat_add_exec(p.tx, t), ..p });
        r.push(DTransformation { tx: sat_add_exec(p.tx, -t), ..p });
        r.push(DTransformation { ty: sat_add_exec(p.ty, t), ..p });
        r.push(DTransformation { ty: sat_add_exec(p.ty, -t), ..p });
        if self.wiggle {
            r.push(DTransformation { rotation: sat_add_exec(p.rotation, self.r_step), ..p });
            r.push(DTransformation { rotation: sat_add_exec(p.rotation, -self.r_step), ..p });
        }
        assert(r@ =~= neighbours(*self));
        r
    }

    /// Takes the evaluations of `candidates()`, in their order. The descent
    /// moves to the best candidate when it is strictly better than the
    /// current sample; an axis (translation, rotation) none of whose
    /// candidates is strictly better has its step halved. The descent ends
    /// after a round in which no candidate was better and which left every
    /// step below its limit: the final sample is then at least as good as
    /// each of its neighbours at the steps of that round.
    pub fn step(&mut self, evals: &Vec<SampleEval>)
        requires
            old(self).t_step >= 0,
            old(self).r_step >= 0,
            evals@.len() == neighbours(*old(self)).len(),
        ensures
            ({
                let c = *old(self);
                let t_better = any_better(evals@, 0, 4, c.eval);
                let r_better = c.wiggle && any_better(evals@, 4, 6, c.eval);
                &&& final(self).t_step == if t_better { c.t_step as int } else { c.t_step / 2 }
                &&& final(self).r_step == if !c.wiggle || r_better { c.r_step as int } else { c.r_step / 2 }
                &&& (t_better || r_better) ==> exists|k: int| is_first_best(evals@, k) && final(self).current
                    == neighbours(c)[k] && final(self).eval == evals@[k]
                &&& !(t_better || r_better) ==> final(self).current == c.current && final(self).eval == c.eval
                &&& final(self).done == (!(t_better || r_better) && final(self).t_step < c.t_step_limit
                    && (!c.wiggle || final(self).r_step < c.r_step_limit))
                &&& !(t_better || r_better) ==> forall|k: int| 0 <= k < evals@.len() ==> eval_le(
                    final(self).eval,
                    #[trigger] evals@[k],
                )
                &&& final(self).t_step_limit == c.t_step_limit
                &&& final(self).r_step_limit == c.r_step_limit
                &&& final(self).wiggle == c.wiggle
            }),
            final(self).t_step >= 0,
            final(self).r_step >= 0,
            final(self).done ==> forall|k: int| 0 <= k < evals@.len() ==> eval_le(
                final(self).eval,
                #[trigger] evals@[k],
            ),
    {
        let cands = self.candidates();
        let n = evals.len();
        let mut best: usize = 0;
        let mut t_better = false;
        let mut r_better = false;
        let mut k: usize = 0;
        while k < n
            invariant
                k <= n,
                n == evals@.len(),
                n == cands@.len(),
                n >= 4,
                cands@ == neighbours(*old(self)),
                *self == *old(self),
                k == 0 ==> best == 0,
                k > 0 ==> best < k,
                k > 0 ==> forall|i: int| 0 <= i < k ==> eval_le(evals@[best as int], #[trigger] evals@[i]),
                k > 0 ==> forall|i: int| 0 <= i < best ==> eval_lt(evals@[best as int], #[trigger] evals@[i]),
                t_better == any_better(evals@, 0, if k < 4 { k as int } else { 4 }, self.eval),
                r_better == any_better(evals@, 4, if k < 4 { 4 } else { k as int }, self.eval),
            decreases n - k,
        {
            if k > 0 && evals[k].is_better_than(&evals[best]) {
                best = k;
            }
            let better = evals[k].is_better_than(&self.eval);
            if k < 4 {
                t_better = t_better || better;
            } else {
                r_better = r_better || better;
            }
            proof {
                if k < 4 {
                    assert(any_better(evals@, 0, k as int + 1, self.eval) == (any_better(evals@, 0, k as int, self.eval)
                        || eval_lt(evals@[k as int], self.eval)));
                } else {
                    assert(any_better(evals@, 4, k as int + 1, self.eval) == (any_better(evals@, 4, k as int, self.eval)
                        || eval_lt(evals@[k as int], self.eval)));
                }
            }
            k = k + 1;
        }
        let improved = t_better || r_better;
        proof {
            if !self.wiggle {
                assert(!any_better(evals@, 4, 4, self.eval));
            }
        }
        if improved {
            proof {
                assert(is_first_best(evals@, best as int));
            }
            self.current = cands[best];
            self.eval = evals[best];
        }
        if !t_better {
            self.t_step = self.t_step / 2;
        }
        if self.wiggle && !r_better {
            self.r_step = self.r_step / 2;
        }
        self.done = !improved && self.t_step < self.t_step_limit && (!self.wiggle || self.r_step < self.r_step_limit);
        proof {
            if !improved {
                assert forall|k: int| 0 <= k < evals@.len() implies eval_le(self.eval, #[trigger] evals@[k]) by {
                    if k < 4 {
                        assert(!eval_lt(evals@[k], self.eval));
                    } else {
                        assert(!eval_lt(evals@[k], self.eval));
                    }
                }
            }
        }
    }
}

} // verus!
