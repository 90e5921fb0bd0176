use n_puzzle::heuristic::manhattan_dist;
use n_puzzle::solvable::{count_inversions, is_solvable};
use n_puzzle::{MoveDirection, State};

fn board(size: usize, cells: &[i32]) -> State {
    State::new(size, cells.to_vec()).unwrap()
}

#[test]
fn manhattan_dist_adds_rows_and_columns() {
    assert_eq!(manhattan_dist((0, 0), (0, 0)), 0);
    assert_eq!(manhattan_dist((0, 0), (2, 3)), 5);
    assert_eq!(manhattan_dist((2, 3), (0, 0)), 5);
    assert_eq!(manhattan_dist((1, 4), (3, 1)), 5);
}

#[test]
fn manhattan_dist_does_not_overflow() {
    assert_eq!(
        manhattan_dist((i32::MIN, i32::MIN), (i32::MAX, i32::MAX)),
        2 * (i32::MAX as i64 - i32::MIN as i64)
    );
}

#[test]
fn manhattan_sum_against_the_spiral() {
    let s = board(3, &[1, 2, 3, 4, 0, 6, 7, 5, 8]);
    let positions = s.goal().goal_positions();
    // 4, 6, 5 and 8 are 2, 2, 1 and 3 steps from home.
    assert_eq!(s.total_manhattan_dist(&positions), 8);
}

#[test]
fn manhattan_sum_against_another_goal() {
    let s = board(3, &[1, 2, 3, 4, 0, 6, 7, 5, 8]);
    let goal = board(3, &[1, 2, 3, 4, 5, 6, 7, 8, 0]);
    assert_eq!(s.total_manhattan_dist(&goal.goal_positions()), 2);
}

#[test]
fn manhattan_sum_skips_the_empty_slot() {
    // Only the empty slot and one tile are out of place.
    let s = board(2, &[1, 2, 3, 0]);
    let positions = s.goal().goal_positions();
    assert_eq!(s.goal().table(), &vec![1, 2, 0, 3]);
    assert_eq!(s.total_manhattan_dist(&positions), 1);
}

#[test]
fn manhattan_plus_takes_off_the_tiles_in_place() {
    let s = board(3, &[1, 2, 3, 4, 0, 6, 7, 5, 8]);
    let positions = s.goal().goal_positions();
    // 1, 2, 3 and 7 are in place.
    assert_eq!(s.total_manhattan_dist_plus(&positions), 4);
    let goal = board(3, &[1, 2, 3, 4, 5, 6, 7, 8, 0]);
    assert_eq!(s.total_manhattan_dist_plus(&goal.goal_positions()), -4);
}

#[test]
fn manhattan_plus_does_not_count_the_empty_slot_in_place() {
    // The empty slot is in place, two tiles are not.
    let s = board(2, &[2, 1, 0, 3]);
    let positions = s.goal().goal_positions();
    assert_eq!(s.total_manhattan_dist(&positions), 2);
    assert_eq!(s.total_manhattan_dist_plus(&positions), 1);
}

#[test]
fn scores_of_the_goal() {
    for size in 1..=6usize {
        let cells: Vec<i32> = (0..(size * size) as i32).collect();
        let goal = State::new(size, cells).unwrap().goal();
        let positions = goal.goal_positions();
        assert_eq!(goal.total_manhattan_dist(&positions), 0);
        assert_eq!(
            goal.total_manhattan_dist_plus(&positions),
            1 - (size * size) as i64
        );
    }
}

#[test]
fn inversions_of_the_parity_example() {
    let s = board(3, &[1, 2, 3, 4, 5, 6, 7, 0, 8]);
    let goal = s.goal();
    assert_eq!(goal.table(), &vec![1, 2, 3, 8, 0, 4, 7, 6, 5]);
    assert_eq!(count_inversions(&s, &goal), 12);
    assert!(is_solvable(&s, &goal));
}

#[test]
fn inversions_of_the_goal_are_none() {
    let goal = board(3, &[1, 2, 3, 4, 0, 6, 7, 5, 8]).goal();
    assert_eq!(count_inversions(&goal, &goal), 0);
    assert!(is_solvable(&goal, &goal));
}

#[test]
fn inversions_count_the_empty_slot_like_a_tile() {
    // One move from the goal: the empty slot and 6 have changed places.
    let s = board(3, &[1, 2, 3, 8, 6, 4, 7, 0, 5]);
    let goal = s.goal();
    assert_eq!(count_inversions(&s, &goal), 5);
    assert!(!is_solvable(&s, &goal));
}

#[test]
fn inversions_against_a_reversed_goal() {
    let s = board(2, &[0, 1, 2, 3]);
    let goal = board(2, &[3, 2, 1, 0]);
    assert_eq!(count_inversions(&s, &goal), 6);
    assert!(is_solvable(&s, &goal));
    let odd = board(2, &[1, 0, 2, 3]);
    assert_eq!(count_inversions(&odd, &goal), 5);
    assert!(!is_solvable(&odd, &goal));
}

#[test]
fn two_moves_from_the_goal_pass_the_parity_check() {
    let s = board(3, &[1, 2, 3, 8, 6, 4, 7, 5, 0]);
    let goal = s.goal();
    assert_eq!(count_inversions(&s, &goal), 6);
    assert!(is_solvable(&s, &goal));
}

#[test]
fn every_move_changes_the_parity_of_the_inversions() {
    let goal = board(3, &[1, 2, 3, 8, 0, 4, 7, 6, 5]);
    let mut current = board(3, &[4, 1, 3, 7, 2, 8, 0, 6, 5]);
    let moves = [
        MoveDirection::Down,
        MoveDirection::Left,
        MoveDirection::Left,
        MoveDirection::Down,
        MoveDirection::Right,
        MoveDirection::Up,
        MoveDirection::Up,
        MoveDirection::Right,
        MoveDirection::Down,
    ];
    let mut parity = count_inversions(&current, &goal) % 2;
    for m in moves.iter() {
        let next = current.apply(*m).unwrap();
        let next_parity = count_inversions(&next, &goal) % 2;
        assert_ne!(parity, next_parity);
        current = next;
        parity = next_parity;
    }
}
