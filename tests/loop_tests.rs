use gls_strip_packing::color::{blend_colors, Color};
use gls_strip_packing::pool::SolutionPool;
use gls_strip_packing::search::{generate_search_config, N_COORD_DESCENTS, N_UNIFORM_SAMPLES};
use gls_strip_packing::stats::SepStats;
use gls_strip_packing::strike::{IterOutcome, StrikeState, N_ITER_NO_IMPROVEMENT, N_STRIKES};

#[test]
fn strike_loop_decisions() {
    let mut s = StrikeState::new();
    assert!(!s.should_roll_back());
    s.begin_strike(1000);
    assert_eq!(s.record_iteration(900), IterOutcome::Improved);
    assert!(s.should_roll_back());
    assert_eq!(s.record_iteration(950), IterOutcome::NotImproved);
    assert_eq!(s.record_iteration(900), IterOutcome::NotImproved);
    assert_eq!(s.n_iter_no_improvement, 2);
    assert_eq!(s.record_iteration(800), IterOutcome::Improved);
    assert_eq!(s.n_iter_no_improvement, 0);
    assert_eq!(s.min_overlap, Some(800));
    // 800 is below 98% of 1000: the strike count resets
    s.end_strike();
    assert_eq!(s.n_strikes, 0);
    s.begin_strike(800);
    // 790 is above 98% of 800 (784): a strike
    assert_eq!(s.record_iteration(790), IterOutcome::Improved);
    s.end_strike();
    assert_eq!(s.n_strikes, 1);
    assert_eq!(s.record_iteration(0), IterOutcome::Separated);
}

#[test]
fn strikes_and_iterations_run_out() {
    let mut s = StrikeState::new();
    s.begin_strike(10);
    assert_eq!(s.record_iteration(10), IterOutcome::Improved);
    while !s.improvement_exhausted() {
        assert_eq!(s.record_iteration(10), IterOutcome::NotImproved);
    }
    assert_eq!(s.n_iter_no_improvement, N_ITER_NO_IMPROVEMENT);
    for _ in 0..N_STRIKES {
        assert!(!s.strikes_exhausted());
        s.end_strike();
    }
    assert!(s.strikes_exhausted());
}

#[test]
fn strike_at_exact_threshold_is_substantial() {
    let mut s = StrikeState::new();
    s.begin_strike(100);
    s.record_iteration(98);
    s.end_strike();
    assert_eq!(s.n_strikes, 0);
}

#[test]
fn pool_sorted_by_overlap() {
    let mut p: SolutionPool<&str> = SolutionPool::new();
    p.insert("c", 30);
    p.insert("a", 10);
    p.insert("b", 20);
    p.insert("b2", 20);
    assert_eq!(p.len(), 4);
    assert_eq!(*p.get(0), "a");
    assert_eq!(*p.get(1), "b2");
    assert_eq!(*p.get(2), "b");
    assert_eq!(*p.get(3), "c");
    assert_eq!(p.overlap_at(3), 30);
    p.clear();
    assert_eq!(p.len(), 0);
}

#[test]
fn pool_selection_is_clamped() {
    let mut p: SolutionPool<u32> = SolutionPool::new();
    p.insert(1, 5);
    p.insert(2, 6);
    p.insert(3, 7);
    assert_eq!(p.select_index(0), 0);
    assert_eq!(p.select_index(2), 2);
    assert_eq!(p.select_index(3), 2);
    assert_eq!(p.select_index(u64::MAX), 2);
}

#[test]
fn search_config_by_cooldown() {
    let free = generate_search_config(false);
    assert_eq!(free.n_bin_samples, N_UNIFORM_SAMPLES / 2);
    assert_eq!(free.n_focussed_samples, N_UNIFORM_SAMPLES / 2);
    assert_eq!(free.n_coord_descents, N_COORD_DESCENTS);
    let cooling = generate_search_config(true);
    assert_eq!(cooling.n_bin_samples, 0);
    assert_eq!(cooling.n_focussed_samples, N_UNIFORM_SAMPLES);
}

#[test]
fn stats_add_up() {
    let mut a = SepStats { total_moves: 2, total_evals: 300 };
    a.add_assign(SepStats { total_moves: 1, total_evals: 50 });
    assert_eq!(a, SepStats { total_moves: 3, total_evals: 350 });
    let all = SepStats::sum(&vec![a, SepStats { total_moves: 4, total_evals: 1 }]);
    assert_eq!(all, SepStats { total_moves: 7, total_evals: 351 });
    assert_eq!(SepStats::sum(&vec![]), SepStats::zero());
}

#[test]
fn color_hex_round_trip() {
    let c = Color::parse("#CC824A").unwrap();
    assert_eq!(c, Color(204, 130, 74));
    assert_eq!(c.to_hex_string(), "#CC824A");
    assert_eq!(Color::parse("ffc879"), Some(Color(255, 200, 121)));
    assert_eq!(Color(0, 10, 255).to_hex_string(), "#000AFF");
}

#[test]
fn color_parse_rejects_bad_input() {
    assert_eq!(Color::parse("#12345"), None);
    assert_eq!(Color::parse("#12G456"), None);
    assert_eq!(Color::parse(""), None);
}

#[test]
fn color_blend_is_mean() {
    assert_eq!(blend_colors(Color(255, 0, 10), Color(0, 255, 11)), Color(127, 127, 10));
}
