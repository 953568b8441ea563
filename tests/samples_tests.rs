use gls_strip_packing::samples::{
    dtransfs_are_similar, not_worse_than_current, BestSamples, DTransformation, SampleEval,
};

fn dt(tx: i32, ty: i32, rotation: i32) -> DTransformation {
    DTransformation { rotation, tx, ty }
}

#[test]
fn eval_order() {
    let clear = SampleEval::Clear;
    let low = SampleEval::Collision { loss: 1 };
    let high = SampleEval::Collision { loss: 9 };
    let invalid = SampleEval::Invalid;
    assert!(clear.is_better_than(&low));
    assert!(low.is_better_than(&high));
    assert!(high.is_better_than(&invalid));
    assert!(!invalid.is_better_than(&invalid));
    assert!(!low.is_better_than(&low));
    assert!(!high.is_better_than(&clear));
}

#[test]
fn similarity_threshold() {
    assert!(dtransfs_are_similar(dt(0, 0, 0), dt(4, -4, 4), 5));
    assert!(!dtransfs_are_similar(dt(0, 0, 0), dt(5, 0, 0), 5));
    assert!(!dtransfs_are_similar(dt(0, 0, 0), dt(0, 0, 5), 5));
}

#[test]
fn new_buffer_is_invalid() {
    let b = BestSamples::new(3, 10);
    assert_eq!(b.best(), (DTransformation::empty(), SampleEval::Invalid));
    assert_eq!(b.worst().1, SampleEval::Invalid);
}

#[test]
fn keeps_best_sorted() {
    let mut b = BestSamples::new(3, 10);
    assert!(b.report(dt(100, 0, 0), SampleEval::Collision { loss: 50 }));
    assert!(b.report(dt(200, 0, 0), SampleEval::Collision { loss: 20 }));
    assert!(b.report(dt(300, 0, 0), SampleEval::Clear));
    assert_eq!(b.best(), (dt(300, 0, 0), SampleEval::Clear));
    assert_eq!(b.worst(), (dt(100, 0, 0), SampleEval::Collision { loss: 50 }));
    // worse than the worst
    assert!(!b.report(dt(400, 0, 0), SampleEval::Collision { loss: 60 }));
    // evicts the worst
    assert!(b.report(dt(400, 0, 0), SampleEval::Collision { loss: 30 }));
    assert_eq!(b.worst(), (dt(400, 0, 0), SampleEval::Collision { loss: 30 }));
}

#[test]
fn similar_sample_replaces_only_when_better() {
    let mut b = BestSamples::new(2, 10);
    assert!(b.report(dt(100, 100, 0), SampleEval::Collision { loss: 20 }));
    assert!(b.report(dt(500, 500, 0), SampleEval::Collision { loss: 40 }));
    // close to the first entry and not better than it
    assert!(!b.report(dt(105, 100, 0), SampleEval::Collision { loss: 30 }));
    assert_eq!(b.worst(), (dt(500, 500, 0), SampleEval::Collision { loss: 40 }));
    // close to the first entry and better: replaces it, not the worst
    assert!(b.report(dt(105, 100, 0), SampleEval::Collision { loss: 10 }));
    assert_eq!(b.best(), (dt(105, 100, 0), SampleEval::Collision { loss: 10 }));
    assert_eq!(b.worst(), (dt(500, 500, 0), SampleEval::Collision { loss: 40 }));
}

#[test]
fn no_two_kept_samples_are_similar() {
    let mut b = BestSamples::new(3, 10);
    let reports = [
        (dt(0, 0, 0), 90u128),
        (dt(3, 3, 0), 80),
        (dt(50, 0, 0), 70),
        (dt(52, 1, 0), 60),
        (dt(100, 0, 0), 50),
        (dt(1, 1, 0), 40),
    ];
    for (d, l) in reports {
        b.report(d, SampleEval::Collision { loss: l });
    }
    let kept = [b.best().0, b.worst().0];
    assert!(!dtransfs_are_similar(kept[0], kept[1], 10));
    assert_eq!(b.best(), (dt(1, 1, 0), SampleEval::Collision { loss: 40 }));
    assert_eq!(b.worst(), (dt(52, 1, 0), SampleEval::Collision { loss: 60 }));
}

#[test]
fn loss_bound_from_best_so_far() {
    assert_eq!(SampleEval::Collision { loss: 42 }.loss_bound(), 42);
    assert_eq!(SampleEval::Clear.loss_bound(), 0);
    assert_eq!(SampleEval::Invalid.loss_bound(), u128::MAX);
}

#[test]
fn accepted_sample_evicts_every_similar_entry() {
    let mut b = BestSamples::new(2, 10);
    assert!(b.report(dt(0, 0, 0), SampleEval::Collision { loss: 5 }));
    assert!(b.report(dt(15, 0, 0), SampleEval::Collision { loss: 3 }));
    // within 10 of both kept samples: both leave
    assert!(b.report(dt(8, 0, 0), SampleEval::Collision { loss: 1 }));
    assert_eq!(b.best(), (dt(8, 0, 0), SampleEval::Collision { loss: 1 }));
    assert_eq!(b.worst(), (DTransformation::empty(), SampleEval::Invalid));
}

#[test]
fn query_outcome() {
    assert_eq!(SampleEval::from_query(true, 7), SampleEval::Invalid);
    assert_eq!(SampleEval::from_query(false, 0), SampleEval::Clear);
    assert_eq!(SampleEval::from_query(false, 7), SampleEval::Collision { loss: 7 });
}

#[test]
fn search_result_never_worse_than_current() {
    let cur = (dt(0, 0, 0), SampleEval::Collision { loss: 10 });
    let better = (dt(5, 0, 0), SampleEval::Collision { loss: 4 });
    let worse = (dt(9, 0, 0), SampleEval::Invalid);
    let equal = (dt(7, 0, 0), SampleEval::Collision { loss: 10 });
    assert_eq!(not_worse_than_current(better, cur), better);
    assert_eq!(not_worse_than_current(worse, cur), cur);
    assert_eq!(not_worse_than_current(equal, cur), equal);
}

#[test]
fn accumulate_stops_past_bound() {
    assert_eq!(gls_strip_packing::samples::accumulate(10, 1000, 3, 5000), (3010, false));
    assert_eq!(gls_strip_packing::samples::accumulate(3010, 1000, 3, 5000), (6010, true));
    assert_eq!(gls_strip_packing::samples::accumulate(u128::MAX - 1, 2, 2, u128::MAX), (u128::MAX, false));
}
