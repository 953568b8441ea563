use gls_strip_packing::descent::CoordDescent;
use gls_strip_packing::explore::{
    compress_shrink_ppm, is_large_jump, large_area_cutoff, large_slots, shrunk_width, slots_right_of,
    swap_partners, AARectangle, Exploration, COMPRESS_SHRINK_END_PPM, COMPRESS_SHRINK_START_PPM,
};
use gls_strip_packing::samples::{DTransformation, SampleEval};
use gls_strip_packing::tracker::OverlapTracker;

#[test]
fn shrinking_widths() {
    assert_eq!(shrunk_width(1_000_000, 5_000), 995_000);
    assert_eq!(shrunk_width(20, 5_000), 19);
    assert_eq!(shrunk_width(u64::MAX, 0), u64::MAX);
    assert_eq!(shrunk_width(77, 1_000_000), 0);
}

#[test]
fn compression_step_interpolates() {
    assert_eq!(compress_shrink_ppm(0, 100), COMPRESS_SHRINK_START_PPM);
    assert_eq!(compress_shrink_ppm(100, 100), COMPRESS_SHRINK_END_PPM);
    assert_eq!(compress_shrink_ppm(50, 100), 255);
}

#[test]
fn exploration_records_best_and_shrinks() {
    let mut e = Exploration::new(2_000_000);
    assert!(!e.on_feasible());
    assert_eq!(e.best_width, 2_000_000);
    assert_eq!(e.current_width, 1_990_000);
    assert!(e.on_feasible());
    assert_eq!(e.best_width, 1_990_000);
    assert_eq!(e.current_width, 1_980_050);
}

#[test]
fn large_items_and_swap_partners() {
    let areas = vec![100, 40, 60, 51, 10];
    let cutoff = large_area_cutoff(&areas);
    assert_eq!(cutoff, 50);
    assert_eq!(large_slots(&areas, cutoff), vec![0, 2, 3]);
    // slots 2 and 3 hold copies of the same item
    let ids = vec![0, 1, 2, 2, 3];
    assert_eq!(swap_partners(&areas, &ids, cutoff, 2), vec![0]);
    assert_eq!(swap_partners(&areas, &ids, cutoff, 0), vec![2, 3]);
    // no other large item: any other placed item
    assert_eq!(swap_partners(&vec![9, 1, 1], &vec![0, 1, 2], 4, 0), vec![1, 2]);
}

#[test]
fn shift_only_right_of_split() {
    assert_eq!(slots_right_of(&vec![10, 50, 51, -3, 90], 50), vec![2, 4]);
    assert!(slots_right_of(&vec![], 0).is_empty());
}

#[test]
fn jumps_need_disjoint_boxes_and_large_items() {
    let a = AARectangle { x_min: 0, y_min: 0, x_max: 10, y_max: 10 };
    let b = AARectangle { x_min: 11, y_min: 0, x_max: 21, y_max: 10 };
    let touching = AARectangle { x_min: 10, y_min: 0, x_max: 20, y_max: 10 };
    assert!(is_large_jump(a, b, 100, 50));
    assert!(is_large_jump(a, b, 50, 50));
    assert!(!is_large_jump(a, b, 49, 50));
    assert!(!is_large_jump(a, touching, 100, 50));
}

#[test]
fn overlapping_slots_and_rebuild_agreement() {
    let mut t = OverlapTracker::new(4);
    t.register_item_move(1, &vec![0, 0, 0, 100], 0);
    t.register_item_move(2, &vec![0, 0, 0, 0], 3);
    assert_eq!(t.overlapping_slots(), vec![1, 2, 3]);
    let bins = vec![0, 0, 3, 0];
    // seen from both sides: agreement with either side within a tenth
    let both = vec![vec![0; 4], vec![0, 0, 0, 109], vec![0; 4], vec![0, 120, 0, 0]];
    assert!(t.is_consistent_with(&both, &bins));
    let off = vec![vec![0; 4], vec![0, 0, 0, 111], vec![0; 4], vec![0, 120, 0, 0]];
    assert!(!t.is_consistent_with(&off, &bins));
    // seen from one side only: tolerated whatever its value
    let one_sided = vec![vec![0; 4], vec![0, 0, 0, 0], vec![0; 4], vec![0, 500, 0, 0]];
    assert!(t.is_consistent_with(&one_sided, &bins));
    // seen from neither side: the stored loss must be zero
    let none = vec![vec![0; 4]; 4];
    assert!(!t.is_consistent_with(&none, &bins));
    // exterior losses must agree
    assert!(!t.is_consistent_with(&both, &vec![0, 0, 4, 0]));
}

fn at(tx: i32, ty: i32) -> DTransformation {
    DTransformation { rotation: 0, tx, ty }
}

fn bowl(d: DTransformation) -> SampleEval {
    // a loss with its minimum at (30, -20)
    let dx = (d.tx - 30).unsigned_abs() as u128;
    let dy = (d.ty + 20).unsigned_abs() as u128;
    if dx + dy == 0 {
        SampleEval::Clear
    } else {
        SampleEval::Collision { loss: dx + dy }
    }
}

#[test]
fn coord_descent_reaches_local_minimum() {
    let start = at(0, 0);
    let mut cd = CoordDescent::new(start, bowl(start), 16, 2, 0, 1, false);
    let mut rounds = 0;
    while !cd.done {
        let cands = cd.candidates();
        assert_eq!(cands.len(), 4);
        let evals: Vec<SampleEval> = cands.iter().map(|c| bowl(*c)).collect();
        cd.step(&evals);
        if cd.done {
            for e in &evals {
                assert!(!e.is_better_than(&cd.eval));
            }
        }
        rounds += 1;
        assert!(rounds < 100);
    }
    assert_eq!(cd.current, at(30, -20));
    assert_eq!(cd.eval, SampleEval::Clear);
    assert!(cd.t_step < 2);
}

#[test]
fn coord_descent_halves_steps_without_improvement() {
    let start = at(5, 5);
    let mut cd = CoordDescent::new(start, SampleEval::Clear, 8, 1, 4, 1, true);
    let cands = cd.candidates();
    assert_eq!(cands.len(), 6);
    assert_eq!(cands[0], at(13, 5));
    assert_eq!(cands[3], at(5, -3));
    assert_eq!(cands[4], DTransformation { rotation: 4, tx: 5, ty: 5 });
    cd.step(&vec![SampleEval::Invalid; 6]);
    assert_eq!(cd.t_step, 4);
    assert_eq!(cd.r_step, 2);
    assert_eq!(cd.current, start);
    assert!(!cd.done);
}
