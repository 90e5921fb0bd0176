use std::cell::Cell;
use std::rc::Rc;

use n_puzzle::frontier::Frontier;
use n_puzzle::node::{solution_moves, walk_states};
use n_puzzle::solvable::count_inversions;
use n_puzzle::heuristic::Heuristic;
use n_puzzle::solver::{
    expand, offer, search, search_with, solve, solve_while, SearchLimits, SearchReport,
    HEAP_SIZE_MAX, HEAP_SIZE_SHRINK, SEEN_SIZE_MAX,
};
use n_puzzle::visited::{InsertOutcome, VisitedSet};
use n_puzzle::MoveDirection::{Down, Left, Right, Up};
use n_puzzle::{MoveDirection, PuzzleError, State, StateDiff};

fn board(size: usize, cells: &[i32]) -> State {
    State::new(size, cells.to_vec()).unwrap()
}

fn manhattan(s: &State, positions: &Vec<(i32, i32)>) -> i64 {
    s.total_manhattan_dist(positions)
}

fn manhattan_plus(s: &State, positions: &Vec<(i32, i32)>) -> i64 {
    s.total_manhattan_dist_plus(positions)
}

fn linear(s: &State, positions: &Vec<(i32, i32)>) -> i64 {
    let mut total: f32 = 0.0;
    for ((y, x), value) in s.cells() {
        if value != 0 {
            let (gy, gx) = positions[value as usize];
            let dy = (y - gy) as f32;
            let dx = (x - gx) as f32;
            total += f32::sqrt(dy * dy + dx * dx);
        }
    }
    total as i64
}

fn roomy() -> SearchLimits {
    SearchLimits {
        frontier_max: 1_000_000,
        frontier_shrink: 100_000,
        visited_max: 1_000_000,
    }
}

/// Makes the listed moves where they can be made, and says how many were.
fn scramble(start: &State, moves: &[MoveDirection]) -> (State, usize) {
    let mut current = start.clone();
    let mut made = 0;
    for m in moves {
        if let Some(next) = current.apply(*m) {
            current = next;
            made += 1;
        }
    }
    (current, made)
}

fn check_solution(report: &SearchReport, start: &State, goal: &State) -> usize {
    let node = report.outcome.as_ref().unwrap();
    assert!(node.state == *goal);
    let moves = solution_moves(node);
    assert_eq!(moves.len(), node.level);
    let end = start.replay(&moves).unwrap();
    assert!(end == *goal);
    assert_eq!(
        moves.len() as u64 % 2,
        count_inversions(start, goal) % 2
    );
    let nodes = walk_states(node);
    assert_eq!(nodes.len(), moves.len() + 1);
    assert!(nodes[0].state == *start);
    assert!(nodes[0].prev_state.is_none());
    assert_eq!(nodes[0].direction, MoveDirection::NoMove);
    for (i, n) in nodes.iter().enumerate() {
        assert_eq!(n.level, i);
        if i > 0 {
            assert_eq!(n.direction, moves[i - 1]);
            assert!(Rc::ptr_eq(n.prev_state.as_ref().unwrap(), &nodes[i - 1]));
            assert!(nodes[i - 1].state.apply(n.direction).unwrap() == n.state);
        }
    }
    assert!(Rc::ptr_eq(&nodes[nodes.len() - 1], node));
    for i in 0..nodes.len() {
        for j in (i + 1)..nodes.len() {
            assert!(nodes[i].state != nodes[j].state);
        }
    }
    moves.len()
}

#[test]
fn default_limits() {
    let limits = SearchLimits::default();
    assert_eq!(limits.frontier_max, HEAP_SIZE_MAX);
    assert_eq!(limits.frontier_shrink, HEAP_SIZE_SHRINK);
    assert_eq!(limits.visited_max, SEEN_SIZE_MAX);
    assert_eq!(HEAP_SIZE_MAX, 400_000);
    assert_eq!(HEAP_SIZE_SHRINK, 40_000);
    assert_eq!(SEEN_SIZE_MAX, 10_000_000);
}

#[test]
fn a_new_node_is_scored() {
    let s = board(3, &[1, 2, 3, 4, 0, 6, 7, 5, 8]);
    let positions = s.goal().goal_positions();
    let node = StateDiff::new(
        s.clone(),
        0,
        MoveDirection::NoMove,
        None,
        manhattan,
        &positions,
    );
    assert_eq!(node.score, 8);
    assert_eq!(node.level, 0);
    assert_eq!(node.direction, MoveDirection::NoMove);
    assert!(node.prev_state.is_none());
    assert!(node.state == s);
    let child = StateDiff::new(
        s.apply(MoveDirection::Up).unwrap(),
        1,
        MoveDirection::Up,
        Some(node.clone()),
        manhattan_plus,
        &positions,
    );
    assert_eq!(child.level, 1);
    // 4, 5, 6 and 8 are 2, 2, 2 and 3 steps from home; 1, 2, 3 and 7 are in
    // place.
    assert_eq!(child.score, 9 - 4);
    assert!(Rc::ptr_eq(child.prev_state.as_ref().unwrap(), &node));
}

#[test]
fn walking_a_chain_starts_at_the_root() {
    let s = board(3, &[1, 2, 3, 4, 0, 6, 7, 5, 8]);
    let positions = s.goal().goal_positions();
    let root = StateDiff::new(s.clone(), 0, MoveDirection::NoMove, None, manhattan, &positions);
    let a = s.apply(MoveDirection::Left).unwrap();
    let first = StateDiff::new(
        a.clone(),
        1,
        MoveDirection::Left,
        Some(root.clone()),
        manhattan,
        &positions,
    );
    let b = a.apply(MoveDirection::Down).unwrap();
    let second = StateDiff::new(
        b,
        2,
        MoveDirection::Down,
        Some(first.clone()),
        manhattan,
        &positions,
    );
    let nodes = walk_states(&second);
    assert_eq!(nodes.len(), 3);
    assert!(Rc::ptr_eq(&nodes[0], &root));
    assert!(Rc::ptr_eq(&nodes[1], &first));
    assert!(Rc::ptr_eq(&nodes[2], &second));
    assert_eq!(
        solution_moves(&second),
        vec![MoveDirection::Left, MoveDirection::Down]
    );
    assert_eq!(walk_states(&root).len(), 1);
    assert!(solution_moves(&root).is_empty());
    // The walk can be made again.
    assert_eq!(walk_states(&second).len(), 3);
}

#[test]
fn the_example_board_against_the_row_major_goal() {
    let start = board(3, &[1, 2, 3, 4, 0, 6, 7, 5, 8]);
    let goal = board(3, &[1, 2, 3, 4, 5, 6, 7, 8, 0]);
    let root_score = start.total_manhattan_dist(&goal.goal_positions());
    assert_eq!(root_score, 2);
    let report = solve(start.clone(), goal.clone(), manhattan, &roomy());
    let length = check_solution(&report, &start, &goal);
    assert_eq!(length, 2);
    assert!(length as i64 >= root_score);
    assert_eq!(
        solution_moves(report.outcome.as_ref().unwrap()),
        vec![MoveDirection::Up, MoveDirection::Left]
    );
    assert_eq!(report.max_level, 2);
    let last = report.outcome.as_ref().unwrap();
    assert_eq!(last.level, 2);
    assert_eq!(last.direction, MoveDirection::Left);
    let middle = last.prev_state.as_ref().unwrap();
    assert_eq!(middle.direction, MoveDirection::Up);
    assert_eq!(middle.state.table(), &vec![1, 2, 3, 4, 5, 6, 7, 0, 8]);
    let first = middle.prev_state.as_ref().unwrap();
    assert!(first.prev_state.is_none());
    assert_eq!(first.direction, MoveDirection::NoMove);
    assert!(first.state == start);
}

#[test]
fn the_example_board_against_the_spiral_fails_the_parity_check() {
    let start = board(3, &[1, 2, 3, 4, 0, 6, 7, 5, 8]);
    let report = search(start, manhattan, &roomy());
    assert_eq!(report.outcome.err(), Some(PuzzleError::Unsolvable));
    assert_eq!(report.visited_len, 0);
    assert_eq!(report.frontier_len, 0);
}

#[test]
fn the_example_board_cannot_reach_the_spiral() {
    let start = board(3, &[1, 2, 3, 4, 0, 6, 7, 5, 8]);
    let goal = start.goal();
    let report = solve(start, goal, manhattan, &roomy());
    assert_eq!(report.outcome.err(), Some(PuzzleError::Exhausted));
    assert_eq!(report.frontier_len, 0);
    // Half of the 9! arrangements can be reached. All of them but the start
    // enter the set: the start's neighbours were reached from it, and the
    // move back is never made.
    assert_eq!(report.visited_len, 181_439);
}

#[test]
fn the_parity_example_passes_the_check_but_has_no_solution() {
    let start = board(3, &[1, 2, 3, 4, 5, 6, 7, 0, 8]);
    let report = search(start, manhattan, &roomy());
    assert_eq!(report.outcome.err(), Some(PuzzleError::Exhausted));
    assert_eq!(report.visited_len, 181_439);
}

#[test]
fn two_moves_from_the_spiral() {
    let start = board(3, &[1, 2, 3, 8, 6, 4, 7, 5, 0]);
    let goal = start.goal();
    let root_score = start.total_manhattan_dist(&goal.goal_positions());
    assert_eq!(root_score, 2);
    let report = search(start.clone(), manhattan, &roomy());
    let length = check_solution(&report, &start, &goal);
    assert_eq!(length, 2);
    assert_eq!(
        solution_moves(report.outcome.as_ref().unwrap()),
        vec![MoveDirection::Right, MoveDirection::Down]
    );
}

#[test]
fn a_scrambled_board_of_side_three_is_solved_by_every_heuristic() {
    let goal = board(3, &[1, 2, 3, 8, 0, 4, 7, 6, 5]);
    let (start, made) = scramble(
        &goal,
        &[
            Up, Left, Down, Down, Right, Up, Right, Up, Left, Left, Down, Right, Down, Left, Up,
            Up, Right, Down, Right, Up, Left, Down,
        ],
    );
    assert_eq!(made % 2, 0);
    assert!(start != goal);
    let root_score = start.total_manhattan_dist(&goal.goal_positions());

    let report = search(start.clone(), manhattan, &roomy());
    let length = check_solution(&report, &start, &goal);
    assert!(length as i64 >= root_score);
    assert!(report.max_level >= length);
    assert!(report.visited_len >= length);

    let report = search(start.clone(), manhattan_plus, &roomy());
    let length = check_solution(&report, &start, &goal);
    assert!(length as i64 >= root_score);

    let report = search(start.clone(), linear, &roomy());
    let length = check_solution(&report, &start, &goal);
    assert!(length as i64 >= root_score);
}

#[test]
fn the_goal_itself_is_solved_at_once() {
    let goal = board(3, &[1, 2, 3, 8, 0, 4, 7, 6, 5]);
    let report = search(goal.clone(), manhattan, &roomy());
    let node = report.outcome.unwrap();
    assert_eq!(node.level, 0);
    assert!(node.prev_state.is_none());
    assert!(node.state == goal);
    assert_eq!(node.direction, MoveDirection::NoMove);
    assert_eq!(node.state.table(), &vec![1, 2, 3, 8, 0, 4, 7, 6, 5]);
    assert_eq!(node.score, 0);
    assert!(!report.evicted);
    assert_eq!(report.max_level, 0);
    assert_eq!(report.frontier_len, 0);
    assert_eq!(report.visited_len, 0);
}

#[test]
fn the_smallest_puzzle_is_solved_at_once() {
    let start = board(1, &[0]);
    let report = search(start, manhattan_plus, &roomy());
    let node = report.outcome.unwrap();
    assert_eq!(node.level, 0);
    assert_eq!(node.score, 0);
}

#[test]
fn a_frontier_that_is_cut_to_nothing_is_exhausted() {
    let goal = board(3, &[1, 2, 3, 8, 0, 4, 7, 6, 5]);
    let limits = SearchLimits {
        frontier_max: 1,
        frontier_shrink: 0,
        visited_max: 100,
    };
    let report = solve(goal.clone(), goal.clone(), manhattan, &limits);
    assert_eq!(report.outcome.err(), Some(PuzzleError::Exhausted));
    let limits = SearchLimits {
        frontier_max: 0,
        frontier_shrink: 1,
        visited_max: 100,
    };
    let report = solve(goal.clone(), goal, manhattan, &limits);
    assert_eq!(report.outcome.unwrap().level, 0);
}

#[test]
fn a_small_frontier_on_a_board_of_side_four() {
    let goal = board(4, &[1, 2, 3, 4, 12, 13, 14, 5, 11, 0, 15, 6, 10, 9, 8, 7]);
    let (start, made) = scramble(
        &goal,
        &[
            Up, Left, Left, Down, Down, Right, Down, Right, Up, Up, Up, Left, Down, Right, Right,
            Down, Left, Left, Up, Right, Up, Left, Down, Down, Right, Up, Right, Down, Left, Up,
            Up, Left, Left, Down, Right, Down, Right, Up, Left, Down,
        ],
    );
    assert_eq!(made % 2, 0);
    assert!(start != goal);
    for (max, shrink) in [(8usize, 2usize), (16, 4), (50, 10), (200, 20), (3, 3)] {
        let limits = SearchLimits {
            frontier_max: max,
            frontier_shrink: shrink,
            visited_max: 2_000_000,
        };
        let report = search(start.clone(), manhattan, &limits);
        match &report.outcome {
            Ok(_) => {
                check_solution(&report, &start, &goal);
            }
            Err(e) => {
                assert_eq!(*e, PuzzleError::Exhausted);
                assert_eq!(report.frontier_len, 0);
            }
        }
        assert!(report.visited_len <= 2_000_000);
    }
}

#[test]
fn a_low_ceiling_on_the_visited_set_aborts() {
    let goal = board(4, &[1, 2, 3, 4, 12, 13, 14, 5, 11, 0, 15, 6, 10, 9, 8, 7]);
    let (start, made) = scramble(
        &goal,
        &[
            Up, Left, Left, Down, Down, Right, Down, Right, Up, Up, Up, Left, Down, Right, Right,
            Down, Left, Left, Up, Right, Up, Left, Down, Down, Right, Up, Right, Down, Left, Up,
        ],
    );
    assert_eq!(made % 2, 0);
    let limits = SearchLimits {
        frontier_max: 1000,
        frontier_shrink: 100,
        visited_max: 3,
    };
    let report = search(start, manhattan, &limits);
    assert_eq!(report.outcome.err(), Some(PuzzleError::ResourceExhausted));
    assert_eq!(report.visited_len, 3);
}

#[test]
fn a_ceiling_of_zero_aborts_on_the_first_successor() {
    let start = board(3, &[1, 2, 3, 8, 6, 4, 7, 5, 0]);
    let limits = SearchLimits {
        frontier_max: 10,
        frontier_shrink: 5,
        visited_max: 0,
    };
    let report = search(start, manhattan, &limits);
    assert_eq!(report.outcome.err(), Some(PuzzleError::ResourceExhausted));
    assert_eq!(report.visited_len, 0);
}

#[test]
fn a_board_met_twice_is_kept_once() {
    let start = board(3, &[1, 2, 3, 8, 0, 4, 7, 6, 5]);
    let positions = start.goal_positions();
    let root = StateDiff::new(
        start.clone(),
        0,
        MoveDirection::NoMove,
        None,
        manhattan,
        &positions,
    );
    // The same board by two ways: one move, and three moves that end there.
    let by_one = start.apply(MoveDirection::Up).unwrap();
    let detour = start
        .replay(&vec![
            MoveDirection::Up,
            MoveDirection::Down,
            MoveDirection::Up,
        ])
        .unwrap();
    assert!(by_one == detour);
    let other_parent = StateDiff::new(
        start.clone(),
        2,
        MoveDirection::Down,
        Some(root.clone()),
        manhattan,
        &positions,
    );

    let mut heap: Frontier<Rc<StateDiff>> = Frontier::new(100);
    let mut seen = VisitedSet::new(100);
    // Two entries stand for the boards on the detour.
    assert_eq!(seen.insert(vec![0]), InsertOutcome::Inserted);
    assert_eq!(seen.insert(vec![1]), InsertOutcome::Inserted);
    let first = offer(
        &mut heap,
        &mut seen,
        &root,
        MoveDirection::Up,
        by_one,
        manhattan,
        &positions,
    );
    assert_eq!(first, InsertOutcome::Inserted);
    assert_eq!(heap.len(), 1);
    assert_eq!(seen.len(), 3);
    let second = offer(
        &mut heap,
        &mut seen,
        &other_parent,
        MoveDirection::Up,
        detour,
        manhattan_plus,
        &positions,
    );
    assert_eq!(second, InsertOutcome::AlreadyPresent);
    assert_eq!(heap.len(), 1);
    assert_eq!(seen.len(), 3);
    let (score, kept) = heap.pop().unwrap();
    assert_eq!(score, 1);
    assert_eq!(kept.score, 1);
    assert_eq!(kept.level, 1);
    assert_eq!(kept.direction, MoveDirection::Up);
    assert!(Rc::ptr_eq(kept.prev_state.as_ref().unwrap(), &root));
    assert_eq!(heap.pop().map(|e| e.0), None);
}

#[test]
fn an_offer_to_a_full_set_changes_nothing() {
    let start = board(3, &[1, 2, 3, 8, 0, 4, 7, 6, 5]);
    let positions = start.goal_positions();
    let root = StateDiff::new(
        start.clone(),
        0,
        MoveDirection::NoMove,
        None,
        manhattan,
        &positions,
    );
    let mut heap: Frontier<Rc<StateDiff>> = Frontier::new(100);
    let mut seen = VisitedSet::new(0);
    let outcome = offer(
        &mut heap,
        &mut seen,
        &root,
        MoveDirection::Up,
        start.apply(MoveDirection::Up).unwrap(),
        manhattan,
        &positions,
    );
    assert_eq!(outcome, InsertOutcome::Full);
    assert_eq!(heap.len(), 0);
    assert_eq!(seen.len(), 0);
}

#[test]
fn expanding_a_node_offers_its_successors() {
    let start = board(3, &[1, 2, 3, 8, 0, 4, 7, 6, 5]);
    let positions = start.goal_positions();
    let root = StateDiff::new(
        start.clone(),
        0,
        MoveDirection::NoMove,
        None,
        manhattan,
        &positions,
    );
    let mut heap: Frontier<Rc<StateDiff>> = Frontier::new(100);
    let mut seen = VisitedSet::new(100);
    let left = start.apply(MoveDirection::Left).unwrap();
    assert_eq!(seen.insert(left.table().clone()), InsertOutcome::Inserted);
    assert!(expand(&mut heap, &mut seen, &root, manhattan, &positions));
    assert_eq!(heap.len(), 3);
    assert_eq!(seen.len(), 4);
    let mut dirs = Vec::new();
    while let Some((score, node)) = heap.pop() {
        assert_eq!(score, 1);
        assert_eq!(node.score, 1);
        assert_eq!(node.level, 1);
        assert!(Rc::ptr_eq(node.prev_state.as_ref().unwrap(), &root));
        assert!(start.apply(node.direction).unwrap() == node.state);
        assert!(seen.contains(node.state.table()));
        dirs.push(node.direction);
    }
    assert!(dirs.contains(&MoveDirection::Up));
    assert!(dirs.contains(&MoveDirection::Down));
    assert!(dirs.contains(&MoveDirection::Right));

    let mut heap: Frontier<Rc<StateDiff>> = Frontier::new(100);
    let mut seen = VisitedSet::new(2);
    assert!(!expand(&mut heap, &mut seen, &root, manhattan, &positions));
    assert_eq!(seen.len(), 2);
    assert_eq!(heap.len(), 2);
}

#[test]
fn nodes_are_equal_when_their_boards_are() {
    let s = board(3, &[1, 2, 3, 4, 0, 6, 7, 5, 8]);
    let positions = s.goal().goal_positions();
    let root = StateDiff::new(s.clone(), 0, MoveDirection::NoMove, None, manhattan, &positions);
    // The same board again: deeper, by another move, under another score.
    let again = StateDiff::new(
        s.clone(),
        4,
        MoveDirection::Left,
        Some(root.clone()),
        manhattan_plus,
        &positions,
    );
    assert_ne!(root.score, again.score);
    assert!(*root == *again);
    // Another board under the same score.
    let other = board(3, &[1, 2, 3, 4, 6, 0, 7, 5, 8]);
    let scored_alike = |_: &State, _: &Vec<(i32, i32)>| root.score;
    let different =
        StateDiff::new(other, 0, MoveDirection::NoMove, None, scored_alike, &positions);
    assert_eq!(different.score, root.score);
    assert!(*different != *root);
}

#[test]
fn nodes_compare_by_score() {
    let s = board(3, &[1, 2, 3, 4, 0, 6, 7, 5, 8]);
    let positions = s.goal().goal_positions();
    let far = StateDiff::new(s.clone(), 0, MoveDirection::NoMove, None, manhattan, &positions);
    let near = StateDiff::new(
        s.goal(),
        5,
        MoveDirection::Up,
        Some(far.clone()),
        manhattan,
        &positions,
    );
    let also_far =
        StateDiff::new(s.clone(), 3, MoveDirection::Left, None, manhattan, &positions);
    assert_eq!(far.score, 8);
    assert_eq!(near.score, 0);
    assert!(*near < *far);
    assert!(*far > *near);
    assert!(*far >= *also_far);
    assert!(*far <= *also_far);
    assert_eq!(
        far.partial_cmp(&near),
        Some(std::cmp::Ordering::Greater)
    );
    assert_eq!(
        near.partial_cmp(&far),
        Some(std::cmp::Ordering::Less)
    );
    assert_eq!(
        far.partial_cmp(&also_far),
        Some(std::cmp::Ordering::Equal)
    );
}

#[test]
fn the_library_scores_by_name() {
    let s = board(3, &[1, 2, 3, 4, 0, 6, 7, 5, 8]);
    let positions = s.goal().goal_positions();
    assert_eq!(Heuristic::ManhattanSum.score(&s, &positions), 8);
    assert_eq!(Heuristic::ManhattanPlus.score(&s, &positions), 4);
}

#[test]
fn searching_with_a_named_score() {
    let goal = board(3, &[1, 2, 3, 8, 0, 4, 7, 6, 5]);
    let (start, made) = scramble(
        &goal,
        &[Up, Left, Down, Down, Right, Up, Right, Up, Left, Left, Down, Right],
    );
    assert_eq!(made % 2, 0);
    for heuristic in [Heuristic::ManhattanSum, Heuristic::ManhattanPlus] {
        let report = search_with(start.clone(), heuristic, &roomy());
        let length = check_solution(&report, &start, &goal);
        assert!(length as i64 >= start.total_manhattan_dist(&goal.goal_positions()));
    }
    let unsolvable = board(3, &[1, 2, 3, 4, 0, 6, 7, 5, 8]);
    let report = search_with(unsolvable, Heuristic::ManhattanSum, &roomy());
    assert_eq!(report.outcome.err(), Some(PuzzleError::Unsolvable));
}

#[test]
fn one_move_from_the_spiral() {
    // The parity check turns this instance away, the search itself solves
    // it.
    let start = board(3, &[1, 2, 3, 8, 6, 4, 7, 0, 5]);
    let goal = start.goal();
    let report = search(start.clone(), manhattan, &roomy());
    assert_eq!(report.outcome.err(), Some(PuzzleError::Unsolvable));
    let report = solve(start.clone(), goal.clone(), manhattan, &roomy());
    let length = check_solution(&report, &start, &goal);
    assert_eq!(length, 1);
    assert_eq!(
        solution_moves(report.outcome.as_ref().unwrap()),
        vec![MoveDirection::Down]
    );
}

#[test]
fn one_move_to_the_right_of_the_spiral() {
    let start = board(3, &[1, 2, 3, 8, 4, 0, 7, 6, 5]);
    let goal = start.goal();
    let report = solve(start.clone(), goal.clone(), manhattan, &roomy());
    assert_eq!(check_solution(&report, &start, &goal), 1);
    let last = report.outcome.as_ref().unwrap();
    assert_eq!(last.level, 1);
    assert_eq!(last.direction, MoveDirection::Right);
    assert_eq!(last.state.table(), &vec![1, 2, 3, 8, 0, 4, 7, 6, 5]);
    let root = last.prev_state.as_ref().unwrap();
    assert!(root.prev_state.is_none());
    assert!(root.state == start);
}

#[test]
fn a_goal_out_of_reach_on_the_smallest_grid_with_moves() {
    let start = board(2, &[2, 1, 0, 3]);
    let goal = board(2, &[1, 2, 0, 3]);
    let report = solve(start, goal, manhattan, &roomy());
    assert_eq!(report.outcome.err(), Some(PuzzleError::Exhausted));
    assert_eq!(report.frontier_len, 0);
    // Twelve boards can be reached; all of them but the start enter the set.
    assert_eq!(report.visited_len, 11);
    assert!(!report.evicted);
}

#[test]
fn a_search_without_room_for_a_cut_ends_exhausted_only_out_of_reach() {
    // The frontier may hold more than the visited set can take, so nothing
    // is ever cut: the goal is found wherever it can be reached.
    let goal = board(3, &[1, 2, 3, 8, 0, 4, 7, 6, 5]);
    let (start, _) = scramble(
        &goal,
        &[Up, Left, Down, Down, Right, Up, Right, Up, Left, Left, Down, Right, Up],
    );
    let limits = SearchLimits {
        frontier_max: 200_002,
        frontier_shrink: 0,
        visited_max: 200_000,
    };
    for scorer in [manhattan, manhattan_plus, linear] {
        let report = solve(start.clone(), goal.clone(), scorer, &limits);
        assert!(!report.evicted);
        check_solution(&report, &start, &goal);
    }
    let constant = |_: &State, _: &Vec<(i32, i32)>| 0i64;
    let report = solve(start.clone(), goal.clone(), constant, &limits);
    assert!(!report.evicted);
    check_solution(&report, &start, &goal);
}

#[test]
fn a_cut_is_announced_and_reported() {
    let goal = board(4, &[1, 2, 3, 4, 12, 13, 14, 5, 11, 0, 15, 6, 10, 9, 8, 7]);
    let (start, _) = scramble(
        &goal,
        &[
            Up, Left, Left, Down, Down, Right, Down, Right, Up, Up, Up, Left, Down, Right, Right,
            Down, Left, Left, Up, Right, Up, Left, Down, Down, Right, Up, Right, Down, Left, Up,
            Up, Left, Left, Down, Right, Down, Right, Up, Left, Down,
        ],
    );
    let limits = SearchLimits {
        frontier_max: 8,
        frontier_shrink: 2,
        visited_max: 2_000_000,
    };
    let cuts = Cell::new(0usize);
    let report = solve_while(start, goal, manhattan, &limits, |frontier, _, cut| {
        assert_eq!(cut, frontier >= 8);
        if cut {
            cuts.set(cuts.get() + 1);
        }
        true
    });
    assert_eq!(report.evicted, cuts.get() > 0);
    assert!(report.evicted);
}

#[test]
fn a_full_set_has_met_as_many_boards_as_it_takes() {
    let start = board(3, &[1, 2, 3, 4, 0, 6, 7, 5, 8]);
    let limits = SearchLimits {
        frontier_max: 1000,
        frontier_shrink: 100,
        visited_max: 50,
    };
    let report = solve(start.clone(), start.goal(), manhattan, &limits);
    assert_eq!(report.outcome.err(), Some(PuzzleError::ResourceExhausted));
    assert_eq!(report.visited_len, 50);
}

#[test]
fn a_search_can_be_called_off() {
    let start = board(3, &[1, 2, 3, 4, 0, 6, 7, 5, 8]);
    let goal = start.goal();
    let report = solve_while(start.clone(), goal.clone(), manhattan, &roomy(), |_, _, _| false);
    assert_eq!(report.outcome.err(), Some(PuzzleError::Cancelled));
    assert_eq!(report.frontier_len, 1);
    assert_eq!(report.visited_len, 0);

    // The signal is asked once before every pop.
    let asked = Cell::new(0usize);
    let report = solve_while(start.clone(), goal.clone(), manhattan, &roomy(), |_, _, _| {
        asked.set(asked.get() + 1);
        asked.get() <= 3
    });
    assert_eq!(report.outcome.err(), Some(PuzzleError::Cancelled));
    assert_eq!(asked.get(), 4);
    assert!(report.visited_len >= 3);
    assert!(report.frontier_len >= 1);
}

#[test]
fn a_search_that_is_not_called_off_runs_as_usual() {
    let start = board(3, &[1, 2, 3, 8, 6, 4, 7, 5, 0]);
    let goal = start.goal();
    let asked = Cell::new(0usize);
    let report = solve_while(start.clone(), goal.clone(), manhattan, &roomy(), |_, _, _| {
        asked.set(asked.get() + 1);
        true
    });
    let plain = solve(start.clone(), goal.clone(), manhattan, &roomy());
    assert_eq!(check_solution(&report, &start, &goal), 2);
    assert_eq!(
        solution_moves(report.outcome.as_ref().unwrap()),
        solution_moves(plain.outcome.as_ref().unwrap())
    );
    assert_eq!(report.visited_len, plain.visited_len);
    assert_eq!(report.frontier_len, plain.frontier_len);
    assert_eq!(asked.get(), 3);
}
