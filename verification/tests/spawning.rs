use game2048::board::{has_compatible_neighbours, is_inside, is_inside_board};
use game2048::engine::{spawn_new_block, update};
use game2048::Direction;

fn board(rows: [[u32; 4]; 4]) -> Vec<Vec<u32>> {
    rows.iter().map(|r| r.to_vec()).collect()
}

#[test]
fn noop_move_spawns_nothing() {
    let stuck = board([[2, 4, 2, 4], [4, 2, 4, 2], [2, 4, 2, 4], [4, 2, 4, 2]]);
    let mut b = stuck.clone();
    let changed = update(&mut b, Direction::Left);
    assert!(!changed);
    assert_eq!(b, stuck);
}

#[test]
fn effective_move_spawns_exactly_one_tile() {
    let mut b = board([[2, 2, 0, 0], [0, 0, 0, 0], [0, 0, 0, 0], [0, 0, 0, 0]]);
    let changed = update(&mut b, Direction::Left);
    assert!(changed);
    // after the slide the board held a single 4; the spawner added one 2 or 4
    assert_eq!(b[0][0], 4);
    let mut extras: Vec<u32> = Vec::new();
    for (r, row) in b.iter().enumerate() {
        for (c, &v) in row.iter().enumerate() {
            if (r, c) != (0, 0) && v != 0 {
                extras.push(v);
            }
        }
    }
    assert_eq!(extras.len(), 1);
    assert!(extras[0] == 2 || extras[0] == 4);
}

#[test]
fn spawn_fills_the_single_empty_cell() {
    let mut b = board([[2, 4, 2, 4], [4, 2, 4, 2], [2, 4, 0, 4], [4, 2, 4, 2]]);
    spawn_new_block(&mut b);
    assert!(b[2][2] == 2 || b[2][2] == 4);
    for (r, row) in b.iter().enumerate() {
        for (c, &v) in row.iter().enumerate() {
            if (r, c) != (2, 2) {
                assert_ne!(v, 0);
            }
        }
    }
}

#[test]
fn spawn_only_touches_an_empty_cell() {
    let mut b = board([[2, 0, 0, 0], [0, 0, 0, 0], [0, 0, 0, 0], [0, 0, 0, 0]]);
    spawn_new_block(&mut b);
    assert_eq!(b[0][0], 2);
    let filled: Vec<u32> = b.iter().flatten().copied().filter(|&v| v != 0).collect();
    assert_eq!(filled.len(), 2);
}

#[test]
fn neighbour_compatibility() {
    let b = board([[2, 4, 2, 4], [4, 2, 4, 2], [2, 4, 4, 8], [4, 2, 8, 2]]);
    assert!(has_compatible_neighbours(&vec![2, 2], &b));
    assert!(has_compatible_neighbours(&vec![2, 3], &b) == false);
    assert!(!has_compatible_neighbours(&vec![0, 0], &b));
    let with_gap = board([[2, 4, 2, 4], [4, 2, 4, 2], [2, 4, 0, 4], [4, 2, 4, 2]]);
    assert!(has_compatible_neighbours(&vec![2, 2], &with_gap));
}

#[test]
fn inside_board_checks_the_step() {
    assert!(!is_inside_board(0, 0, Direction::Left, 4));
    assert!(is_inside_board(0, 1, Direction::Left, 4));
    assert!(is_inside_board(0, 2, Direction::Right, 4));
    assert!(!is_inside_board(0, 3, Direction::Right, 4));
    assert!(!is_inside_board(0, 0, Direction::Up, 4));
    assert!(is_inside_board(3, 0, Direction::Up, 4));
    assert!(is_inside_board(2, 0, Direction::Down, 4));
    assert!(!is_inside_board(3, 0, Direction::Down, 4));
}

#[test]
fn coordinate_membership() {
    let seen: Vec<Vec<i32>> = vec![vec![0, 1], vec![2, 3]];
    assert!(is_inside(&vec![2, 3], &seen));
    assert!(!is_inside(&vec![3, 2], &seen));
    assert!(!is_inside(&vec![2], &seen));
}
