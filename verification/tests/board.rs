use std::collections::HashSet;

use n_puzzle::{MoveDirection, PuzzleError, State};

fn board(size: usize, cells: &[i32]) -> State {
    State::new(size, cells.to_vec()).unwrap()
}

#[test]
fn new_accepts_a_permutation() {
    let s = board(3, &[1, 2, 3, 4, 0, 6, 7, 5, 8]);
    assert_eq!(s.size(), 3);
    assert_eq!(s.table(), &vec![1, 2, 3, 4, 0, 6, 7, 5, 8]);
}

#[test]
fn new_accepts_the_smallest_board() {
    let s = board(1, &[0]);
    assert_eq!(s.size(), 1);
    assert_eq!(s.table(), &vec![0]);
}

#[test]
fn new_rejects_a_wrong_count() {
    assert_eq!(State::new(3, vec![0, 1, 2, 3]).err(), Some(PuzzleError::InvalidInput));
    assert_eq!(
        State::new(2, vec![0, 1, 2, 3, 4]).err(),
        Some(PuzzleError::InvalidInput)
    );
}

#[test]
fn new_rejects_an_empty_grid() {
    assert_eq!(State::new(0, vec![]).err(), Some(PuzzleError::InvalidInput));
}

#[test]
fn new_rejects_a_repeated_value() {
    assert_eq!(State::new(2, vec![0, 1, 1, 3]).err(), Some(PuzzleError::InvalidInput));
    assert_eq!(State::new(2, vec![0, 0, 1, 2]).err(), Some(PuzzleError::InvalidInput));
}

#[test]
fn new_rejects_a_value_out_of_range() {
    assert_eq!(State::new(2, vec![0, 1, 2, 4]).err(), Some(PuzzleError::InvalidInput));
    assert_eq!(State::new(2, vec![0, 1, 2, -1]).err(), Some(PuzzleError::InvalidInput));
}

#[test]
fn new_rejects_a_board_without_an_empty_slot() {
    assert_eq!(State::new(2, vec![1, 2, 3, 4]).err(), Some(PuzzleError::InvalidInput));
}

#[test]
fn new_rejects_a_side_whose_square_overflows() {
    assert_eq!(
        State::new(usize::MAX, vec![0]).err(),
        Some(PuzzleError::InvalidInput)
    );
}

#[test]
fn at_reads_cells_by_row_and_column() {
    let s = board(3, &[1, 2, 3, 4, 0, 6, 7, 5, 8]);
    assert_eq!(s.at((0, 0)), Some(1));
    assert_eq!(s.at((0, 2)), Some(3));
    assert_eq!(s.at((1, 1)), Some(0));
    assert_eq!(s.at((2, 1)), Some(5));
    assert_eq!(s.at((2, 2)), Some(8));
}

#[test]
fn at_fails_outside_the_grid() {
    let s = board(3, &[1, 2, 3, 4, 0, 6, 7, 5, 8]);
    assert_eq!(s.at((3, 0)), None);
    assert_eq!(s.at((0, 3)), None);
    assert_eq!(s.at((-1, 0)), None);
    assert_eq!(s.at((0, -1)), None);
    // Column 5 of row 0 would be index 5 of the table: it is still outside.
    assert_eq!(s.at((0, 5)), None);
}

#[test]
fn cells_lists_every_cell_with_its_coordinate() {
    let s = board(2, &[3, 0, 1, 2]);
    assert_eq!(
        s.cells(),
        vec![((0, 0), 3), ((0, 1), 0), ((1, 0), 1), ((1, 1), 2)]
    );
}

#[test]
fn boards_are_equal_when_their_cells_are() {
    let a = board(2, &[3, 0, 1, 2]);
    let b = board(2, &[3, 0, 1, 2]);
    let c = board(2, &[0, 3, 1, 2]);
    assert!(a == b);
    assert!(a != c);
    assert!(a.clone() == a);
}

#[test]
fn goal_of_side_three_is_the_spiral() {
    let s = board(3, &[1, 2, 3, 4, 0, 6, 7, 5, 8]);
    assert_eq!(s.goal().table(), &vec![1, 2, 3, 8, 0, 4, 7, 6, 5]);
}

#[test]
fn goal_of_side_four_is_the_spiral() {
    let s = board(4, &[0, 1, 2, 3, 4, 5, 6, 7, 8, 9, 10, 11, 12, 13, 14, 15]);
    assert_eq!(
        s.goal().table(),
        &vec![1, 2, 3, 4, 12, 13, 14, 5, 11, 0, 15, 6, 10, 9, 8, 7]
    );
}

#[test]
fn goal_of_sides_one_two_and_five() {
    assert_eq!(board(1, &[0]).goal().table(), &vec![0]);
    assert_eq!(board(2, &[3, 2, 1, 0]).goal().table(), &vec![1, 2, 0, 3]);
    let cells: Vec<i32> = (0..25).collect();
    let five = State::new(5, cells).unwrap();
    assert_eq!(
        five.goal().table(),
        &vec![
            1, 2, 3, 4, 5, 16, 17, 18, 19, 6, 15, 24, 0, 20, 7, 14, 23, 22, 21, 8, 13, 12, 11, 10,
            9
        ]
    );
}

#[test]
fn goal_is_a_permutation_with_one_empty_slot() {
    for size in 1..=12usize {
        let cells: Vec<i32> = (0..(size * size) as i32).collect();
        let s = State::new(size, cells).unwrap();
        let goal = s.goal();
        assert_eq!(goal.size(), size);
        let mut sorted = goal.table().clone();
        sorted.sort();
        let expected: Vec<i32> = (0..(size * size) as i32).collect();
        assert_eq!(sorted, expected);
        assert_eq!(goal.table().iter().filter(|v| **v == 0).count(), 1);
    }
}

#[test]
fn goal_depends_on_the_size_alone() {
    let a = board(3, &[1, 2, 3, 4, 0, 6, 7, 5, 8]);
    let b = board(3, &[8, 7, 6, 5, 4, 3, 2, 1, 0]);
    assert!(a.goal() == b.goal());
    assert!(a.goal() == a.goal());
    assert!(a.goal().goal() == a.goal());
}

#[test]
fn goal_positions_locate_every_value() {
    let s = board(3, &[1, 2, 3, 4, 0, 6, 7, 5, 8]);
    let positions = s.goal().goal_positions();
    assert_eq!(
        positions,
        vec![
            (1, 1),
            (0, 0),
            (0, 1),
            (0, 2),
            (1, 2),
            (2, 2),
            (2, 1),
            (2, 0),
            (1, 0)
        ]
    );
}

#[test]
fn moves_from_the_centre_come_in_order() {
    let s = board(3, &[1, 2, 3, 4, 0, 6, 7, 5, 8]);
    let moves = s.moves(MoveDirection::NoMove);
    assert_eq!(moves.len(), 4);
    assert_eq!(moves[0].0, MoveDirection::Up);
    assert_eq!(moves[0].1.table(), &vec![1, 2, 3, 4, 5, 6, 7, 0, 8]);
    assert_eq!(moves[1].0, MoveDirection::Down);
    assert_eq!(moves[1].1.table(), &vec![1, 0, 3, 4, 2, 6, 7, 5, 8]);
    assert_eq!(moves[2].0, MoveDirection::Left);
    assert_eq!(moves[2].1.table(), &vec![1, 2, 3, 4, 6, 0, 7, 5, 8]);
    assert_eq!(moves[3].0, MoveDirection::Right);
    assert_eq!(moves[3].1.table(), &vec![1, 2, 3, 0, 4, 6, 7, 5, 8]);
    // The receiver is untouched.
    assert_eq!(s.table(), &vec![1, 2, 3, 4, 0, 6, 7, 5, 8]);
}

#[test]
fn moves_leave_out_the_move_that_undoes_the_last() {
    let s = board(3, &[1, 2, 3, 4, 0, 6, 7, 5, 8]);
    let after_up: Vec<MoveDirection> =
        s.moves(MoveDirection::Up).iter().map(|m| m.0).collect();
    assert_eq!(
        after_up,
        vec![MoveDirection::Up, MoveDirection::Left, MoveDirection::Right]
    );
    let after_down: Vec<MoveDirection> =
        s.moves(MoveDirection::Down).iter().map(|m| m.0).collect();
    assert_eq!(
        after_down,
        vec![MoveDirection::Down, MoveDirection::Left, MoveDirection::Right]
    );
    let after_left: Vec<MoveDirection> =
        s.moves(MoveDirection::Left).iter().map(|m| m.0).collect();
    assert_eq!(
        after_left,
        vec![MoveDirection::Up, MoveDirection::Down, MoveDirection::Left]
    );
    let after_right: Vec<MoveDirection> =
        s.moves(MoveDirection::Right).iter().map(|m| m.0).collect();
    assert_eq!(
        after_right,
        vec![MoveDirection::Up, MoveDirection::Down, MoveDirection::Right]
    );
}

#[test]
fn moves_from_a_corner_are_two() {
    let top_left = board(3, &[0, 1, 2, 3, 4, 5, 6, 7, 8]);
    let dirs: Vec<MoveDirection> = top_left
        .moves(MoveDirection::NoMove)
        .iter()
        .map(|m| m.0)
        .collect();
    assert_eq!(dirs, vec![MoveDirection::Up, MoveDirection::Left]);
    let bottom_right = board(3, &[1, 2, 3, 4, 5, 6, 7, 8, 0]);
    let dirs: Vec<MoveDirection> = bottom_right
        .moves(MoveDirection::NoMove)
        .iter()
        .map(|m| m.0)
        .collect();
    assert_eq!(dirs, vec![MoveDirection::Down, MoveDirection::Right]);
}

#[test]
fn the_smallest_board_has_no_moves() {
    let s = board(1, &[0]);
    assert!(s.moves(MoveDirection::NoMove).is_empty());
    assert!(s.apply(MoveDirection::Up).is_none());
}

#[test]
fn every_successor_is_one_swap_away_and_the_reverse_leads_back() {
    let starts = [
        board(3, &[1, 2, 3, 4, 0, 6, 7, 5, 8]),
        board(3, &[0, 1, 2, 3, 4, 5, 6, 7, 8]),
        board(3, &[1, 2, 3, 4, 5, 6, 7, 8, 0]),
        board(4, &[1, 2, 3, 4, 12, 13, 14, 5, 11, 0, 15, 6, 10, 9, 8, 7]),
        board(2, &[1, 2, 0, 3]),
    ];
    for s in starts.iter() {
        let successors = s.moves(MoveDirection::NoMove);
        assert!(successors.len() <= 4);
        for (direction, next) in successors.iter() {
            let changed: Vec<usize> = (0..s.table().len())
                .filter(|i| s.table()[*i] != next.table()[*i])
                .collect();
            assert_eq!(changed.len(), 2);
            let (a, b) = (changed[0], changed[1]);
            assert_eq!(s.table()[a], next.table()[b]);
            assert_eq!(s.table()[b], next.table()[a]);
            assert!(s.table()[a] == 0 || s.table()[b] == 0);
            let gap = b - a;
            assert!(gap == 1 || gap == s.size());
            let back = next.apply(direction.reverse()).unwrap();
            assert!(back == *s);
        }
    }
}

#[test]
fn apply_refuses_a_move_off_the_grid() {
    let s = board(3, &[1, 2, 3, 4, 5, 6, 7, 8, 0]);
    assert!(s.apply(MoveDirection::Up).is_none());
    assert!(s.apply(MoveDirection::Left).is_none());
    assert!(s.apply(MoveDirection::NoMove).is_none());
    assert_eq!(
        s.apply(MoveDirection::Down).unwrap().table(),
        &vec![1, 2, 3, 4, 5, 0, 7, 8, 6]
    );
    assert_eq!(
        s.apply(MoveDirection::Right).unwrap().table(),
        &vec![1, 2, 3, 4, 5, 6, 7, 0, 8]
    );
}

#[test]
fn replay_makes_the_moves_in_turn() {
    let s = board(3, &[1, 2, 3, 4, 0, 6, 7, 5, 8]);
    let end = s
        .replay(&vec![MoveDirection::Up, MoveDirection::Left])
        .unwrap();
    assert_eq!(end.table(), &vec![1, 2, 3, 4, 5, 6, 7, 8, 0]);
    assert!(s.replay(&vec![]).unwrap() == s);
    assert!(s
        .replay(&vec![MoveDirection::Up, MoveDirection::Up])
        .is_none());
    assert!(s
        .replay(&vec![MoveDirection::Up, MoveDirection::Up, MoveDirection::Down])
        .is_none());
}

#[test]
fn reverse_pairs_the_directions() {
    assert_eq!(MoveDirection::Up.reverse(), MoveDirection::Down);
    assert_eq!(MoveDirection::Down.reverse(), MoveDirection::Up);
    assert_eq!(MoveDirection::Left.reverse(), MoveDirection::Right);
    assert_eq!(MoveDirection::Right.reverse(), MoveDirection::Left);
    assert_eq!(MoveDirection::NoMove.reverse(), MoveDirection::NoMove);
}

#[test]
fn boards_hash_by_their_cells() {
    let mut set: HashSet<State> = HashSet::new();
    assert!(set.insert(board(2, &[3, 0, 1, 2])));
    assert!(!set.insert(board(2, &[3, 0, 1, 2])));
    assert!(set.insert(board(2, &[0, 3, 1, 2])));
    // The same board reached by moves is the same member.
    let back = board(2, &[3, 0, 1, 2])
        .replay(&vec![MoveDirection::Right, MoveDirection::Left])
        .unwrap();
    assert!(set.contains(&back));
    assert_eq!(set.len(), 2);
}
