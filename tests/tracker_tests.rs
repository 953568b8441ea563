use gls_strip_packing::tracker::{OverlapTracker, JUMP_COOLDOWN, WEIGHT_ONE};

fn three_slots() -> OverlapTracker {
    let mut t = OverlapTracker::new(3);
    t.register_item_move(0, &vec![0, 100, 0], 0);
    t.register_item_move(2, &vec![0, 0, 0], 40);
    t
}

#[test]
fn new_tracker_is_clear() {
    let t = OverlapTracker::new(4);
    assert_eq!(t.n_slots(), 4);
    assert_eq!(t.get_total_overlap(), 0);
    assert_eq!(t.get_total_weighted_overlap(), 0);
    for i in 0..4 {
        assert_eq!(t.get_bin_weight(i), WEIGHT_ONE);
        for j in 0..4 {
            assert_eq!(t.get_pair_loss(i, j), 0);
            assert_eq!(t.get_pair_weight(i, j), WEIGHT_ONE);
        }
    }
}

#[test]
fn move_fills_row_and_column() {
    let t = three_slots();
    for i in 0..3 {
        for j in 0..3 {
            assert_eq!(t.get_pair_loss(i, j), t.get_pair_loss(j, i));
        }
    }
    assert_eq!(t.get_pair_loss(1, 0), 100);
    assert_eq!(t.get_pair_loss(0, 0), 0);
    assert_eq!(t.get_bin_loss(2), 40);
}

#[test]
fn move_ignores_own_entry_of_row() {
    let mut t = OverlapTracker::new(2);
    t.register_item_move(1, &vec![7, 9], 0);
    assert_eq!(t.get_pair_loss(1, 1), 0);
    assert_eq!(t.get_pair_loss(0, 1), 7);
}

#[test]
fn overlap_sums_row_and_exterior() {
    let t = three_slots();
    assert_eq!(t.get_overlap(0), 100);
    assert_eq!(t.get_overlap(1), 100);
    assert_eq!(t.get_overlap(2), 40);
    assert_eq!(t.get_weighted_overlap(0), 100 * 1000);
    assert_eq!(t.get_weighted_overlap(2), 40 * 1000);
}

#[test]
fn total_counts_each_pair_once() {
    let t = three_slots();
    assert_eq!(t.get_total_overlap(), 140);
    assert_eq!(t.get_total_weighted_overlap(), 140 * 1000);
}

#[test]
fn zero_total_exactly_when_clear() {
    let mut t = three_slots();
    assert!(t.get_total_overlap() > 0);
    t.register_item_move(0, &vec![0, 0, 0], 0);
    assert!(t.get_total_overlap() > 0);
    t.register_item_move(2, &vec![0, 0, 0], 0);
    assert_eq!(t.get_total_overlap(), 0);
    for i in 0..3 {
        assert_eq!(t.get_overlap(i), 0);
    }
}

#[test]
fn increment_grows_overlapping_and_decays_others() {
    let mut t = three_slots();
    assert_eq!(t.max_loss(), 100);
    t.increment_weights();
    // the largest loss gets the largest factor: 2.0
    assert_eq!(t.get_pair_weight(0, 1), 2000);
    assert_eq!(t.get_pair_weight(1, 0), 2000);
    // 40 of 100: 1.2 + 0.8 * 0.4 = 1.52
    assert_eq!(t.get_bin_weight(2), 1520);
    // pairs without overlap stay at one
    assert_eq!(t.get_pair_weight(0, 2), WEIGHT_ONE);
    assert_eq!(t.get_bin_weight(0), WEIGHT_ONE);
    t.register_item_move(0, &vec![0, 0, 0], 0);
    t.increment_weights();
    // decay by 0.95 once the pair no longer overlaps
    assert_eq!(t.get_pair_weight(0, 1), 1900);
    assert_eq!(t.get_bin_weight(2), 3040);
}

#[test]
fn weights_persist_across_move() {
    let mut t = three_slots();
    t.increment_weights();
    let before = t.get_pair_weight(0, 1);
    t.register_item_move(0, &vec![0, 30, 0], 0);
    assert_eq!(t.get_pair_weight(0, 1), before);
    assert_eq!(t.get_pair_weight(1, 0), before);
    assert_eq!(t.get_weighted_overlap(0), 30 * before as u128);
}

#[test]
fn jump_cooldown_counts_down() {
    let mut t = three_slots();
    assert!(!t.is_on_jump_cooldown(1));
    t.register_jump(1);
    for _ in 0..JUMP_COOLDOWN {
        assert!(t.is_on_jump_cooldown(1));
        t.increment_weights();
    }
    assert!(!t.is_on_jump_cooldown(1));
}

#[test]
fn snapshot_round_trip() {
    let mut t = three_slots();
    t.increment_weights();
    let snap = t.create_snapshot();
    assert_eq!(snap.get_total_overlap(), t.get_total_overlap());
    assert_eq!(snap.get_total_weighted_overlap(), t.get_total_weighted_overlap());
    t.register_item_move(1, &vec![5, 0, 5], 5);
    t.increment_weights();
    t.restore(&snap);
    assert_eq!(t.get_total_overlap(), 140);
    assert_eq!(t.get_pair_weight(0, 1), 2000);
    assert_eq!(t.get_total_weighted_overlap(), snap.get_total_weighted_overlap());
}

#[test]
fn restore_keeping_weights() {
    let mut t = three_slots();
    let snap = t.create_snapshot();
    t.increment_weights();
    t.register_item_move(0, &vec![0, 0, 0], 0);
    t.restore_but_keep_weights(&snap);
    assert_eq!(t.get_pair_loss(0, 1), 100);
    assert_eq!(t.get_pair_weight(0, 1), 2000);
    assert_eq!(t.get_total_overlap(), 140);
}

#[test]
fn rebuild_matches_incremental() {
    let rows = vec![vec![0, 3, 0], vec![3, 0, 8], vec![0, 8, 0]];
    let mut rebuilt = OverlapTracker::new(3);
    for i in 0..3 {
        rebuilt.register_item_move(i, &rows[i], 0);
    }
    let mut incremental = OverlapTracker::new(3);
    incremental.register_item_move(1, &vec![1, 0, 1], 0);
    incremental.register_item_move(0, &vec![0, 4, 0], 0);
    incremental.register_item_move(1, &rows[1], 0);
    incremental.register_item_move(0, &rows[0], 0);
    for i in 0..3 {
        for j in 0..3 {
            assert_eq!(rebuilt.get_pair_loss(i, j), incremental.get_pair_loss(i, j));
        }
    }
}

#[test]
fn move_changes_total_by_own_change() {
    let mut t = three_slots();
    t.increment_weights();
    t.register_item_move(1, &vec![30, 0, 20], 0);
    t.increment_weights();
    let total_before = t.get_total_weighted_overlap();
    let own_before = t.get_weighted_overlap(1);
    t.register_item_move(1, &vec![10, 0, 0], 5);
    let total_after = t.get_total_weighted_overlap();
    let own_after = t.get_weighted_overlap(1);
    assert!(own_after < own_before);
    assert_eq!(total_before - total_after, own_before - own_after);
}

#[test]
fn from_losses_builds_table() {
    let rows = vec![vec![0, 3, 0], vec![3, 0, 8], vec![0, 8, 0]];
    let t = OverlapTracker::from_losses(&rows, &vec![1, 0, 2]);
    for i in 0..3 {
        for j in 0..3 {
            assert_eq!(t.get_pair_loss(i, j), rows[i][j]);
            assert_eq!(t.get_pair_weight(i, j), WEIGHT_ONE);
        }
    }
    assert_eq!(t.get_total_overlap(), 3 + 8 + 1 + 2);
}

#[test]
fn from_losses_later_row_decides() {
    // the rows disagree on the pair (0, 1): the row of slot 1 decides
    let rows = vec![vec![0, 5], vec![9, 0]];
    let t = OverlapTracker::from_losses(&rows, &vec![0, 0]);
    assert_eq!(t.get_pair_loss(0, 1), 9);
    assert_eq!(t.get_pair_loss(1, 0), 9);
}

#[test]
fn copy_is_independent() {
    let mut t = three_slots();
    t.increment_weights();
    let c = t.copy();
    t.register_item_move(0, &vec![0, 0, 0], 0);
    assert_eq!(c.get_pair_loss(0, 1), 100);
    assert_eq!(c.get_pair_weight(0, 1), 2000);
    assert_eq!(t.get_pair_loss(0, 1), 0);
}
