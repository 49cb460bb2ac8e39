use game2048::board::{playable_move_exists, win_condition};
use game2048::engine::apply_move;
use game2048::Direction;

fn board(rows: [[u32; 4]; 4]) -> Vec<Vec<u32>> {
    rows.iter().map(|r| r.to_vec()).collect()
}

#[test]
fn left_slide_no_merge() {
    let mut b = board([[0, 2, 0, 0], [0, 0, 0, 0], [0, 0, 0, 0], [0, 0, 0, 0]]);
    let changed = apply_move(&mut b, Direction::Left);
    assert_eq!(b, board([[2, 0, 0, 0], [0, 0, 0, 0], [0, 0, 0, 0], [0, 0, 0, 0]]));
    assert!(changed);
}

#[test]
fn left_slide_with_merge() {
    let mut b = board([[2, 2, 0, 0], [0, 0, 0, 0], [0, 0, 0, 0], [0, 0, 0, 0]]);
    let changed = apply_move(&mut b, Direction::Left);
    assert_eq!(b, board([[4, 0, 0, 0], [0, 0, 0, 0], [0, 0, 0, 0], [0, 0, 0, 0]]));
    assert!(changed);
}

#[test]
fn merge_lock_triple_tile() {
    let mut b = board([[2, 2, 2, 0], [0, 0, 0, 0], [0, 0, 0, 0], [0, 0, 0, 0]]);
    let changed = apply_move(&mut b, Direction::Left);
    assert_eq!(b, board([[4, 2, 0, 0], [0, 0, 0, 0], [0, 0, 0, 0], [0, 0, 0, 0]]));
    assert!(changed);
}

#[test]
fn no_cascading_after_merge() {
    let mut b = board([[2, 2, 4, 0], [0, 0, 0, 0], [0, 0, 0, 0], [0, 0, 0, 0]]);
    let changed = apply_move(&mut b, Direction::Left);
    assert_eq!(b, board([[4, 4, 0, 0], [0, 0, 0, 0], [0, 0, 0, 0], [0, 0, 0, 0]]));
    assert!(changed);
}

#[test]
fn right_slide_no_merge() {
    let mut b = board([[0, 2, 0, 0], [0, 0, 0, 0], [0, 0, 0, 0], [0, 0, 0, 0]]);
    let changed = apply_move(&mut b, Direction::Right);
    assert_eq!(b, board([[0, 0, 0, 2], [0, 0, 0, 0], [0, 0, 0, 0], [0, 0, 0, 0]]));
    assert!(changed);
}

#[test]
fn right_merge_picks_rightmost_pair() {
    let mut b = board([[2, 2, 2, 0], [0, 0, 0, 0], [0, 0, 0, 0], [0, 0, 0, 0]]);
    let changed = apply_move(&mut b, Direction::Right);
    assert_eq!(b, board([[0, 0, 2, 4], [0, 0, 0, 0], [0, 0, 0, 0], [0, 0, 0, 0]]));
    assert!(changed);
}

#[test]
fn up_slide_with_merge() {
    let mut b = board([[2, 0, 0, 0], [2, 0, 0, 0], [4, 0, 0, 0], [0, 0, 0, 0]]);
    let changed = apply_move(&mut b, Direction::Up);
    assert_eq!(b, board([[4, 0, 0, 0], [4, 0, 0, 0], [0, 0, 0, 0], [0, 0, 0, 0]]));
    assert!(changed);
}

#[test]
fn down_slide_with_merge() {
    let mut b = board([[0, 4, 0, 0], [0, 2, 0, 0], [0, 2, 0, 0], [0, 0, 0, 0]]);
    let changed = apply_move(&mut b, Direction::Down);
    assert_eq!(b, board([[0, 0, 0, 0], [0, 0, 0, 0], [0, 4, 0, 0], [0, 4, 0, 0]]));
    assert!(changed);
}

#[test]
fn quiescent_move_reports_no_change() {
    let mut b = board([[2, 4, 2, 4], [4, 2, 4, 2], [2, 4, 2, 4], [4, 2, 4, 2]]);
    let before = b.clone();
    let changed = apply_move(&mut b, Direction::Left);
    assert_eq!(b, before);
    assert!(!changed);
}

#[test]
fn second_slide_changes_nothing_without_pending_pair() {
    let mut b = board([[0, 2, 4, 0], [0, 0, 2, 0], [8, 0, 0, 2], [0, 0, 0, 0]]);
    let changed = apply_move(&mut b, Direction::Left);
    assert!(changed);
    let after_first = b.clone();
    let changed_again = apply_move(&mut b, Direction::Left);
    assert_eq!(b, after_first);
    assert!(!changed_again);
}

#[test]
fn conservation_of_sum_and_zeros() {
    let mut b = board([[2, 2, 4, 0], [0, 4, 4, 8], [2, 0, 0, 2], [0, 0, 8, 8]]);
    let sum_before: u32 = b.iter().flatten().sum();
    let zeros_before = b.iter().flatten().filter(|&&v| v == 0).count();
    let changed = apply_move(&mut b, Direction::Left);
    assert!(changed);
    let sum_after: u32 = b.iter().flatten().sum();
    let zeros_after = b.iter().flatten().filter(|&&v| v == 0).count();
    assert_eq!(sum_after, sum_before);
    // one merge per row in rows 0, 1, 2 and 3: 2+2, 4+4, 2+2, 8+8
    assert_eq!(zeros_after, zeros_before + 4);
}

#[test]
fn values_stay_powers_of_two() {
    let mut b = board([[2, 2, 4, 0], [1024, 1024, 0, 0], [2, 0, 0, 2], [0, 0, 8, 8]]);
    let changed = apply_move(&mut b, Direction::Left);
    assert!(changed);
    for row in &b {
        for &v in row {
            assert!(v == 0 || (v.is_power_of_two() && v >= 2));
            assert!(v <= 2048);
        }
    }
}

#[test]
fn row_reflection_matches_opposite_direction() {
    let rows = [[2, 2, 4, 0], [0, 4, 4, 8], [2, 0, 0, 2], [0, 0, 8, 8]];
    let mut mirrored = board(rows);
    for row in mirrored.iter_mut() {
        row.reverse();
    }
    apply_move(&mut mirrored, Direction::Left);

    let mut straight = board(rows);
    apply_move(&mut straight, Direction::Right);
    for row in straight.iter_mut() {
        row.reverse();
    }
    assert_eq!(mirrored, straight);
}

#[test]
fn column_reflection_matches_opposite_direction() {
    let rows = [[2, 2, 4, 0], [0, 4, 4, 8], [2, 0, 0, 2], [0, 0, 8, 8]];
    let mut flipped = board(rows);
    flipped.reverse();
    apply_move(&mut flipped, Direction::Up);

    let mut straight = board(rows);
    apply_move(&mut straight, Direction::Down);
    straight.reverse();
    assert_eq!(flipped, straight);
}

#[test]
fn stalemate_board_has_no_changing_direction() {
    let stuck = board([[2, 4, 2, 4], [4, 2, 4, 2], [2, 4, 2, 4], [4, 2, 4, 2]]);
    assert!(!playable_move_exists(&stuck));
    for dir in [Direction::Left, Direction::Right, Direction::Up, Direction::Down] {
        let mut b = stuck.clone();
        let changed = apply_move(&mut b, dir);
        assert!(!changed);
        assert_eq!(b, stuck);
    }
}

#[test]
fn playable_when_empty_cell_or_pair() {
    let with_gap = board([[2, 4, 2, 4], [4, 2, 4, 2], [2, 4, 0, 4], [4, 2, 4, 2]]);
    assert!(playable_move_exists(&with_gap));
    let with_pair = board([[2, 4, 2, 4], [4, 2, 4, 2], [2, 4, 4, 8], [4, 2, 8, 2]]);
    assert!(playable_move_exists(&with_pair));
}

#[test]
fn win_condition_sees_2048() {
    let won = board([[0, 0, 0, 0], [0, 2048, 0, 0], [0, 0, 0, 0], [0, 0, 2, 4]]);
    assert!(win_condition(&won));
    let beyond = board([[4096, 0, 0, 0], [0, 0, 0, 0], [0, 0, 0, 0], [0, 0, 0, 0]]);
    assert!(win_condition(&beyond));
    let not_yet = board([[1024, 1024, 0, 0], [0, 0, 0, 0], [0, 0, 0, 0], [0, 0, 2, 4]]);
    assert!(!win_condition(&not_yet));
}

#[test]
fn locked_pairs_can_merge_on_second_press() {
    // four equal tiles leave two equal neighbours after the first press;
    // they were merge-locked during it, so only the second press joins them
    let mut b = board([[2, 2, 2, 2], [0, 0, 0, 0], [0, 0, 0, 0], [0, 0, 0, 0]]);
    let changed = apply_move(&mut b, Direction::Left);
    assert_eq!(b, board([[4, 4, 0, 0], [0, 0, 0, 0], [0, 0, 0, 0], [0, 0, 0, 0]]));
    assert!(changed);
    let changed_again = apply_move(&mut b, Direction::Left);
    assert_eq!(b, board([[8, 0, 0, 0], [0, 0, 0, 0], [0, 0, 0, 0], [0, 0, 0, 0]]));
    assert!(changed_again);
}
