//! Search nodes: a board with the move that led to it, its score and a
//! shared handle to the node it came from.

use std::cmp::Ordering;
use std::rc::Rc;
use vstd::prelude::*;
use crate::board::{can_move, is_board, moved, replayed};
use crate::direction::MoveDirection;
use crate::goal::positions;
use crate::heuristic::{
    is_position_table, lemma_move_changes_manhattan_by_one, lemma_positions_are_table,
    lemma_scores_at_home, manhattan_sum,
};
use crate::parity::lemma_move_flips_parity;
use crate::solvable::{inversions, lemma_no_inversions_against_itself};
use crate::state::State;

verus! {

/// A node of the search: a board, its depth and score, the move that led
/// to it and the node that it was reached from. Nodes are shared by their
/// successors and never changed.
#[derive(Debug)]
pub struct StateDiff {
    pub score: i64,
    pub level: usize,
    pub state: State,
    pub direction: MoveDirection,
    pub prev_state: Option<Rc<StateDiff>>,
}

/// The node ends a chain of legal moves that begins at the board with the
/// cells `start`: the first node of the chain holds `start`, has depth 0
/// and no move behind it, and every later node holds the board that its
/// move makes of the board before, one level deeper.
pub open spec fn is_path(node: StateDiff, start: Seq<i32>) -> bool
    decreases node,
{
    &&& node.state.wf()
    &&& match node.prev_state {
        None => node.state@ == start && node.level == 0 && node.direction
            == MoveDirection::NoMove,
        Some(prev) => {
            &&& is_path(*prev, start)
            &&& prev.state.size() == node.state.size()
            &&& can_move(prev.state.size() as int, prev.state@, node.direction)
            &&& node.state@ == moved(prev.state.size() as int, prev.state@, node.direction)
            &&& node.level == prev.level + 1
        },
    }
}

/// The nodes from the first of the chain to `node`.
pub open spec fn chain(node: StateDiff) -> Seq<StateDiff>
    decreases node,
{
    match node.prev_state {
        None => seq![node],
        Some(prev) => chain(*prev).push(node),
    }
}

/// The moves from the first node of the chain to `node`, in the order in
/// which they were made.
pub open spec fn directions(node: StateDiff) -> Seq<MoveDirection>
    decreases node,
{
    match node.prev_state {
        None => Seq::empty(),
        Some(prev) => directions(*prev).push(node.direction),
    }
}

/// The node that the handle points to.
pub open spec fn node_at(handle: Rc<StateDiff>) -> StateDiff {
    *handle
}

/// The nodes that the handles point to.
pub open spec fn nodes_of(handles: Seq<Rc<StateDiff>>) -> Seq<StateDiff> {
    handles.map_values(|h: Rc<StateDiff>| node_at(h))
}

/// `Rc::clone` of the standard library: a second handle to the value that
/// `handle` points to.
#[verifier::external_body]
pub(crate) fn share(handle: &Rc<StateDiff>) -> (r: Rc<StateDiff>)
    ensures
        r == *handle,
{
    Rc::clone(handle)
}

/// Replaying the moves of a chain from its first board gives the board of
/// its last node, and the chain has as many moves as the node's depth.
pub proof fn lemma_path_replays(node: StateDiff, start: Seq<i32>)
    requires
        is_path(node, start),
    ensures
        replayed(node.state.size() as int, start, directions(node)) == Some(node.state@),
        directions(node).len() == node.level,
        chain(node).len() == node.level + 1,
        chain(node).first().state@ == start,
        chain(node).last() == node,
    decreases node,
{
    if node.prev_state is Some {
        let prev = *node.prev_state->Some_0;
        lemma_path_replays(prev, start);
        assert(directions(node).drop_last() =~= directions(prev));
    }
}

/// A chain of moves is no shorter than the sum of distances allows: the
/// sum at its first board is at most the sum at its last board and the
/// number of its moves together.
pub proof fn lemma_path_covers_manhattan(node: StateDiff, start: Seq<i32>, goal: Seq<(i32, i32)>)
    requires
        is_path(node, start),
        is_position_table(node.state.size() as int, goal),
    ensures
        is_board(node.state.size() as int, start),
        is_board(node.state.size() as int, node.state@),
        manhattan_sum(node.state.size() as int, start, goal) <= manhattan_sum(
            node.state.size() as int,
            node.state@,
            goal,
        ) + node.level,
    decreases node,
{
    if node.prev_state is Some {
        let prev = *node.prev_state->Some_0;
        lemma_path_covers_manhattan(prev, start, goal);
        lemma_move_changes_manhattan_by_one(
            prev.state.size() as int,
            prev.state@,
            goal,
            node.direction,
        );
    }
}

/// A chain of moves that ends at the goal has at least as many moves as
/// the sum of distances of its first board from the goal.
pub proof fn lemma_solution_is_no_shorter_than_manhattan(
    node: Rc<StateDiff>,
    start: Seq<i32>,
    goal: Seq<i32>,
)
    requires
        is_path(*node, start),
        node.state@ == goal,
    ensures
        node.level >= manhattan_sum(
            node.state.size() as int,
            start,
            positions(node.state.size() as int, goal),
        ),
{
    let size = node.state.size() as int;
    lemma_positions_are_table(size, goal);
    lemma_scores_at_home(size, goal);
    lemma_path_covers_manhattan(node_at(node), start, positions(size, goal));
}

/// Along a chain of moves the number of inversions against any goal
/// changes its parity with every move.
pub proof fn lemma_path_parity(node: StateDiff, start: Seq<i32>, goal: Seq<i32>)
    requires
        is_path(node, start),
        is_board(node.state.size() as int, goal),
    ensures
        is_board(node.state.size() as int, node.state@),
        (inversions(node.state@, goal) - inversions(start, goal) - node.level) % 2 == 0,
    decreases node,
{
    if node.prev_state is Some {
        let prev = *node.prev_state->Some_0;
        lemma_path_parity(prev, start, goal);
        lemma_move_flips_parity(prev.state.size() as int, prev.state@, goal, node.direction);
    }
}

/// A chain of moves that ends at the goal has an even number of moves
/// when its first board has an even number of inversions against the goal,
/// and an odd number of moves otherwise.
pub proof fn lemma_solution_length_parity(node: Rc<StateDiff>, start: Seq<i32>, goal: Seq<i32>)
    requires
        is_path(*node, start),
        node.state@ == goal,
    ensures
        node.level % 2 == inversions(start, goal) % 2,
{
    lemma_path_parity(node_at(node), start, goal);
    lemma_no_inversions_against_itself(goal, goal.len() as int);
}

impl PartialEq for StateDiff {
    /// Two nodes count as equal when they hold the same board: that is
    /// what makes them one entry of a visited set. Depth, move, score and
    /// the node behind do not count.
    fn eq(&self, other: &StateDiff) -> (r: bool) {
        self.state == other.state
    }
}

impl vstd::std_specs::cmp::PartialEqSpecImpl for StateDiff {
    open spec fn obeys_eq_spec() -> bool {
        true
    }

    open spec fn eq_spec(&self, other: &StateDiff) -> bool {
        self.state@ == other.state@
    }
}

impl Eq for StateDiff {

}

impl PartialOrd for StateDiff {
    /// Nodes are ordered by their scores alone, as the frontier hands them
    /// out; nodes of equal score need not be equal.
    fn partial_cmp(&self, other: &StateDiff) -> (r: Option<Ordering>) {
        if self.score < other.score {
            Some(Ordering::Less)
        } else if self.score > other.score {
            Some(Ordering::Greater)
        } else {
            Some(Ordering::Equal)
        }
    }
}

impl vstd::std_specs::cmp::PartialOrdSpecImpl for StateDiff {
    open spec fn obeys_partial_cmp_spec() -> bool {
        true
    }

    open spec fn partial_cmp_spec(&self, other: &StateDiff) -> Option<Ordering> {
        if self.score < other.score {
            Some(Ordering::Less)
        } else if self.score > other.score {
            Some(Ordering::Greater)
        } else {
            Some(Ordering::Equal)
        }
    }
}

impl StateDiff {
    /// A node for `state`, scored by `score_calculator` against
    /// `goal_positions`.
    pub fn new<F: Fn(&State, &Vec<(i32, i32)>) -> i64>(
        state: State,
        level: usize,
        direction: MoveDirection,
        prev_state: Option<Rc<StateDiff>>,
        score_calculator: F,
        goal_positions: &Vec<(i32, i32)>,
    ) -> (r: Rc<StateDiff>)
        requires
            call_requires(score_calculator, (&state, goal_positions)),
        ensures
            r.state == state,
            r.level == level,
            r.direction == direction,
            r.prev_state == prev_state,
            call_ensures(score_calculator, (&state, goal_positions), r.score),
    {
        let score = score_calculator(&state, goal_positions);
        Rc::new(StateDiff { score, level, state, direction, prev_state })
    }
}

/// The nodes from the start of the search to `sd`, the start first.
pub fn walk_states(sd: &Rc<StateDiff>) -> (r: Vec<Rc<StateDiff>>)
    ensures
        nodes_of(r@) == chain(**sd),
    decreases **sd,
{
    let mut nodes = match &sd.prev_state {
        Some(prev) => walk_states(prev),
        None => Vec::new(),
    };
    let ghost before = nodes@;
    nodes.push(share(sd));
    proof {
        assert(nodes_of(nodes@) =~= nodes_of(before).push(**sd));
    }
    nodes
}

/// The moves from the start of the search to `sd`, in the order in which
/// they were made.
pub fn solution_moves(sd: &Rc<StateDiff>) -> (r: Vec<MoveDirection>)
    ensures
        r@ == directions(**sd),
    decreases **sd,
{
    match &sd.prev_state {
        Some(prev) => {
            let mut moves = solution_moves(prev);
            moves.push(sd.direction);
            moves
        },
        None => Vec::new(),
    }
}

} // verus!
