//! Decisions of the exploration and compression phases: strip widths,
//! which items shift when the strip changes width, which items may swap,
//! and which moves count as jumps. Widths, positions and areas are integers
//! in the fixed-point units of the geometric front end.
use vstd::prelude::*;

verus! {

/// One million: rates below are in parts per million.
pub const PPM: u64 = 1_000_000;

/// Shrink of the strip after each feasible layout in exploration (0.5%).
pub const R_SHRINK_PPM: u64 = 5_000;

/// Shrink attempted at the start of compression (0.05%).
pub const COMPRESS_SHRINK_START_PPM: u64 = 500;

/// Shrink attempted at the end of compression (0.001%).
pub const COMPRESS_SHRINK_END_PPM: u64 = 10;

/// An item is large when its convex-hull area exceeds this share of the
/// largest one (one half).
pub const LARGE_ITEM_CH_AREA_CUTOFF_PPM: u64 = 500_000;

/// `width` shrunk by `r_ppm` parts per million, rounded down.
pub open spec fn shrink(width: int, r_ppm: int) -> int {
    width * (PPM - r_ppm) / (PPM as int)
}

/// `width` shrunk by `r_ppm` parts per million, rounded down.
pub fn shrunk_width(width: u64, r_ppm: u64) -> (r: u64)
    requires
        r_ppm <= PPM,
    ensures
        r == shrink(width as int, r_ppm as int),
        r <= width,
{
    proof {
        assert((width as int) * ((PPM - r_ppm) as int) <= (width as int) * (PPM as int))
            by (nonlinear_arith)
            requires
                r_ppm <= PPM,
                width >= 0,
        ;
        assert((width as int) * ((PPM - r_ppm) as int) / (PPM as int) <= width as int)
            by (nonlinear_arith)
            requires
                (width as int) * ((PPM - r_ppm) as int) <= (width as int) * (PPM as int),
                PPM == 1_000_000,
        ;
        assert((width as int) * ((PPM - r_ppm) as int) <= u128::MAX) by (nonlinear_arith)
            requires
                width <= u64::MAX,
                (PPM - r_ppm) as int <= PPM,
                PPM == 1_000_000,
        ;
    }
    ((width as u128) * ((PPM - r_ppm) as u128) / (PPM as u128)) as u64
}

/// The shrink that compression attempts after `elapsed` of `total` time:
/// from `COMPRESS_SHRINK_START_PPM` down to `COMPRESS_SHRINK_END_PPM`,
/// linear in the time spent.
pub fn compress_shrink_ppm(elapsed: u64, total: u64) -> (r: u64)
    requires
        0 < total,
        elapsed <= total,
    ensures
        r == COMPRESS_SHRINK_START_PPM - (COMPRESS_SHRINK_START_PPM - COMPRESS_SHRINK_END_PPM) as int
            * (elapsed as int) / (total as int),
        COMPRESS_SHRINK_END_PPM <= r <= COMPRESS_SHRINK_START_PPM,
{
    let range: u128 = (COMPRESS_SHRINK_START_PPM - COMPRESS_SHRINK_END_PPM) as u128;
    proof {
        assert(range * (elapsed as int) <= range * (total as int)) by (nonlinear_arith)
            requires
                elapsed <= total,
                range >= 0,
        ;
        assert(range * (elapsed as int) / (total as int) <= range) by (nonlinear_arith)
            requires
                range * (elapsed as int) <= range * (total as int),
                total > 0,
        ;
        assert(range * (elapsed as int) <= u128::MAX) by (nonlinear_arith)
            requires
                range <= 1000,
                elapsed <= u64::MAX,
        ;
    }
    let step = (range * (elapsed as u128) / (total as u128)) as u64;
    COMPRESS_SHRINK_START_PPM - step
}

/// Widths of the exploration phase.
pub struct Exploration {
    /// Width of the strip being separated.
    pub current_width: u64,
    /// Narrowest width at which a feasible layout was found.
    pub best_width: u64,
}

impl Exploration {
    /// Exploration starting from a feasible layout of width `width`.
    pub fn new(width: u64) -> (r: Exploration)
        ensures
            r.current_width == width,
            r.best_width == width,
    {
        Exploration { current_width: width, best_width: width }
    }

    /// The layout at the current width was separated: the current width
    /// becomes the best when it is narrower, and the strip shrinks by
    /// `R_SHRINK_PPM`. Returns whether a new best was found.
    pub fn on_feasible(&mut self) -> (new_best: bool)
        ensures
            new_best == (old(self).current_width < old(self).best_width),
            final(self).best_width == if new_best {
                old(self).current_width
            } else {
                old(self).best_width
            },
            final(self).current_width == shrink(old(self).current_width as int, R_SHRINK_PPM as int),
    {
        let new_best = self.current_width < self.best_width;
        if new_best {
            self.best_width = self.current_width;
        }
        self.current_width = shrunk_width(self.current_width, R_SHRINK_PPM);
        new_best
    }
}

/// Largest of the first `k` entries, or 0.
pub open spec fn max_of(s: Seq<u64>, k: int) -> int
    decreases k,
{
    if k <= 0 {
        0
    } else {
        let a = max_of(s, k - 1);
        if a >= s[k - 1] { a } else { s[k - 1] as int }
    }
}

/// The convex-hull area above which an item counts as large: half the
/// largest area of the instance, rounded down.
pub fn large_area_cutoff(areas: &Vec<u64>) -> (r: u64)
    requires
        areas.len() >= 1,
    ensures
        r == max_of(areas@, areas@.len() as int) * LARGE_ITEM_CH_AREA_CUTOFF_PPM / (PPM as int),
{
    let mut m: u64 = 0;
    let mut i: usize = 0;
    while i < areas.len()
        invariant
            i <= areas.len(),
            m == max_of(areas@, i as int),
        decreases areas.len() - i,
    {
        if areas[i] > m {
            m = areas[i];
        }
        i = i + 1;
    }
    proof {
        assert((m as int) * (LARGE_ITEM_CH_AREA_CUTOFF_PPM as int) <= u128::MAX) by (nonlinear_arith)
            requires
                m <= u64::MAX,
                LARGE_ITEM_CH_AREA_CUTOFF_PPM == 500_000,
        ;
        assert((m as int) * (LARGE_ITEM_CH_AREA_CUTOFF_PPM as int) / (PPM as int) <= m) by (nonlinear_arith)
            requires
                m >= 0,
                LARGE_ITEM_CH_AREA_CUTOFF_PPM == 500_000,
                PPM == 1_000_000,
        ;
    }
    ((m as u128) * (LARGE_ITEM_CH_AREA_CUTOFF_PPM as u128) / (PPM as u128)) as u64
}

/// Indices among the first `k` whose area exceeds `cutoff`, ascending.
pub open spec fn large_indices(areas: Seq<u64>, cutoff: u64, k: int) -> Seq<usize>
    decreases k,
{
    if k <= 0 {
        Seq::empty()
    } else if areas[k - 1] > cutoff {
        large_indices(areas, cutoff, k - 1).push((k - 1) as usize)
    } else {
        large_indices(areas, cutoff, k - 1)
    }
}

/// Indices among the first `k`, other than `first`, whose item differs from
/// that of `first` and whose area exceeds `cutoff`, ascending.
pub open spec fn partner_indices(areas: Seq<u64>, ids: Seq<usize>, cutoff: u64, first: int, k: int) -> Seq<usize>
    decreases k,
{
    if k <= 0 {
        Seq::empty()
    } else if ids[k - 1] != ids[first] && areas[k - 1] > cutoff {
        partner_indices(areas, ids, cutoff, first, k - 1).push((k - 1) as usize)
    } else {
        partner_indices(areas, ids, cutoff, first, k - 1)
    }
}

/// Indices among the first `k` other than `first`, ascending.
pub open spec fn other_indices(first: int, k: int) -> Seq<usize>
    decreases k,
{
    if k <= 0 {
        Seq::empty()
    } else if k - 1 != first {
        other_indices(first, k - 1).push((k - 1) as usize)
    } else {
        other_indices(first, k - 1)
    }
}

/// Indices among the first `k` whose centroid lies strictly right of `split`.
pub open spec fn right_indices(centroids: Seq<i64>, split: i64, k: int) -> Seq<usize>
    decreases k,
{
    if k <= 0 {
        Seq::empty()
    } else if centroids[k - 1] > split {
        right_indices(centroids, split, k - 1).push((k - 1) as usize)
    } else {
        right_indices(centroids, split, k - 1)
    }
}

/// The placed items that may be the first of a swap: those whose
/// convex-hull area exceeds `cutoff`.
pub fn large_slots(areas: &Vec<u64>, cutoff: u64) -> (r: Vec<usize>)
    ensures
        r@ == large_indices(areas@, cutoff, areas@.len() as int),
{
    let mut r: Vec<usize> = Vec::new();
    let mut i: usize = 0;
    while i < areas.len()
        invariant
            i <= areas.len(),
            r@ == large_indices(areas@, cutoff, i as int),
        decreases areas.len() - i,
    {
        if areas[i] > cutoff {
            r.push(i);
        }
        i = i + 1;
    }
    r
}

/// The placed items that may swap with `first`: the large ones of another
/// item than `first`'s, or, where there is none, every other placed item.
pub fn swap_partners(areas: &Vec<u64>, item_ids: &Vec<usize>, cutoff: u64, first: usize) -> (r: Vec<usize>)
    requires
        areas.len() == item_ids.len(),
        first < areas.len(),
    ensures
        ({
            let large = partner_indices(areas@, item_ids@, cutoff, first as int, areas@.len() as int);
            r@ == if large.len() > 0 {
                large
            } else {
                other_indices(first as int, areas@.len() as int)
            }
        }),
{
    let mut r: Vec<usize> = Vec::new();
    let mut i: usize = 0;
    while i < areas.len()
        invariant
            i <= areas.len(),
            areas.len() == item_ids.len(),
            first < areas.len(),
            r@ == partner_indices(areas@, item_ids@, cutoff, first as int, i as int),
        decreases areas.len() - i,
    {
        if item_ids[i] != item_ids[first] && areas[i] > cutoff {
            r.push(i);
        }
        i = i + 1;
    }
    if r.len() > 0 {
        return r;
    }
    let mut i: usize = 0;
    while i < areas.len()
        invariant
            i <= areas.len(),
            r@ == other_indices(first as int, i as int),
        decreases areas.len() - i,
    {
        if i != first {
            r.push(i);
        }
        i = i + 1;
    }
    r
}

/// The placed items that shift when the strip changes width: those whose
/// centroid lies strictly right of `split`; one exactly on it stays.
pub fn slots_right_of(centroids_x: &Vec<i64>, split: i64) -> (r: Vec<usize>)
    ensures
        r@ == right_indices(centroids_x@, split, centroids_x@.len() as int),
{
    let mut r: Vec<usize> = Vec::new();
    let mut i: usize = 0;
    while i < centroids_x.len()
        invariant
            i <= centroids_x.len(),
            r@ == right_indices(centroids_x@, split, i as int),
        decreases centroids_x.len() - i,
    {
        if centroids_x[i] > split {
            r.push(i);
        }
        i = i + 1;
    }
    r
}

/// An axis-aligned rectangle.
#[derive(Clone, Copy, Debug, PartialEq, Eq, Structural)]
pub struct AARectangle {
    pub x_min: i64,
    pub y_min: i64,
    pub x_max: i64,
    pub y_max: i64,
}

/// The rectangles have no point in common.
pub open spec fn disjoint(a: AARectangle, b: AARectangle) -> bool {
    a.x_max < b.x_min || b.x_max < a.x_min || a.y_max < b.y_min || b.y_max < a.y_min
}

/// A move from bounding box `old_bbox` to `new_bbox` of an item of
/// convex-hull area `area` is a jump, which puts the item on cooldown, when
/// the boxes are disjoint and the area reaches `cutoff`.
pub fn is_large_jump(old_bbox: AARectangle, new_bbox: AARectangle, area: u64, cutoff: u64) -> (r: bool)
    ensures
        r == (disjoint(old_bbox, new_bbox) && area >= cutoff),
{
    let jumped = old_bbox.x_max < new_bbox.x_min || new_bbox.x_max < old_bbox.x_min || old_bbox.y_max
        < new_bbox.y_min || new_bbox.y_max < old_bbox.y_min;
    jumped && area >= cutoff
}

/// Where a change of strip width by `delta`, split at `split`, puts an item
/// whose centroid lies at `c`: items strictly right of the split move by
/// `delta` and the tolerance `eps`, as `slots_right_of` selects them.
pub open spec fn shifted(c: int, split: int, delta: int, eps: int) -> int {
    if c > split { c + delta + eps } else { c }
}

/// Widening a strip of width `w0` by `d` and then narrowing it to `w0 - d`,
/// each time split at the middle of the current width, leaves every item
/// whose centroid was within `[0, w0]` within `[0, w0]`, up to twice the
/// shift tolerance `eps`.
pub proof fn law_strip_width_round_trip(c: int, w0: int, d: int, eps: int)
    requires
        0 <= c <= w0,
        0 <= d,
        2 * d <= w0,
        0 <= eps,
    ensures
        ({
            let c1 = shifted(c, w0 / 2, d, eps);
            let c2 = shifted(c1, (w0 + d) / 2, -2 * d, eps);
            0 <= c2 <= w0 + 2 * eps
        }),
{
}

} // verus!
