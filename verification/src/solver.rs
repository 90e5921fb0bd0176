//! The search driver: best-first search over boards with a frontier of
//! bounded size and a visited set with a ceiling.

use std::rc::Rc;
use vstd::prelude::*;
use vstd::multiset::Multiset;
use crate::board::{
    can_move, lemma_successors_are_moves, lemma_successors_differ, moved, successors,
};
use crate::cover::{
    boards_differ, chain_kept, covers, lemma_chain_kept_grows, lemma_child_is_sound,
    lemma_cover_step, lemma_empty_frontier_means_unreachable, lemma_move_changes_board,
    lemma_path_is_reachable, lemma_reachable_by_one_more, lemma_reaches_many, lemma_successors_are_not_start,
    lemma_successors_cover_all, neighbours_seen, only_way_back, reachable, reaches_many,
};
use crate::direction::MoveDirection;
use crate::error::PuzzleError;
use crate::frontier::{shrink_heap, Frontier};
use crate::goal::{lemma_spiral_is_board, positions, spiral_cells};
use crate::heuristic::{is_position_table, lemma_positions_are_table, manhattan_sum, Heuristic};
use crate::node::{
    chain, is_path, lemma_solution_is_no_shorter_than_manhattan, lemma_solution_length_parity,
    node_at, share, StateDiff,
};
use crate::solvable::{inversions, is_solvable, lemma_no_inversions_against_itself};
use crate::state::{successor_views, State};
use crate::visited::{InsertOutcome, VisitedSet};

verus! {

/// The frontier size at which the frontier is cut down, unless the caller
/// sets another.
pub const HEAP_SIZE_MAX: usize = 400_000;

/// The number of entries that a cut leaves in the frontier, unless the
/// caller sets another.
pub const HEAP_SIZE_SHRINK: usize = 40_000;

/// The ceiling of the visited set, unless the caller sets another.
pub const SEEN_SIZE_MAX: usize = 10_000_000;

/// The bounds of a search.
#[derive(Copy, Clone, Debug)]
pub struct SearchLimits {
    /// The frontier is cut down before a pop when it holds this many
    /// entries or more.
    pub frontier_max: usize,
    /// The number of best entries that a cut keeps.
    pub frontier_shrink: usize,
    /// The most boards that the visited set takes.
    pub visited_max: usize,
}

impl Default for SearchLimits {
    fn default() -> (r: SearchLimits)
        ensures
            r.frontier_max == HEAP_SIZE_MAX,
            r.frontier_shrink == HEAP_SIZE_SHRINK,
            r.visited_max == SEEN_SIZE_MAX,
    {
        SearchLimits {
            frontier_max: HEAP_SIZE_MAX,
            frontier_shrink: HEAP_SIZE_SHRINK,
            visited_max: SEEN_SIZE_MAX,
        }
    }
}

/// How a search ended, and what it had used by then.
#[derive(Debug)]
pub struct SearchReport {
    /// The node that holds the goal, or why there is none.
    pub outcome: Result<Rc<StateDiff>, PuzzleError>,
    /// The greatest depth among the nodes that were taken from the frontier.
    pub max_level: usize,
    /// The size of the frontier at the end.
    pub frontier_len: usize,
    /// The size of the visited set at the end.
    pub visited_len: usize,
    /// Whether a cut of the frontier has dropped entries.
    pub evicted: bool,
}

/// `f` accepts every board of side `size` together with the position
/// table `table`.
pub open spec fn scores_boards<F: Fn(&State, &Vec<(i32, i32)>) -> i64>(
    f: F,
    size: usize,
    table: Seq<(i32, i32)>,
) -> bool {
    forall|s: State, t: Vec<(i32, i32)>|
        s.wf() && s.size() == size && t@ == table ==> #[trigger] call_requires(f, (&s, &t))
}

/// `child` is the node that the move `direction` makes of `parent`.
pub open spec fn is_child(child: StateDiff, parent: Rc<StateDiff>, direction: MoveDirection) -> bool {
    &&& child.prev_state == Some(parent)
    &&& child.direction == direction
    &&& child.level == parent.level + 1
    &&& child.state.wf()
    &&& child.state.size() == parent.state.size()
    &&& can_move(parent.state.size() as int, parent.state@, direction)
    &&& child.state@ == moved(parent.state.size() as int, parent.state@, direction)
}

/// One of the successors in `list` has the cells `cells`.
pub open spec fn is_successor(list: Seq<(MoveDirection, Seq<i32>)>, cells: Seq<i32>) -> bool {
    exists|k: int| 0 <= k < list.len() && (#[trigger] list[k]).1 == cells
}

/// The frontier holds, under its score, the node that the move
/// `direction` makes of `parent`.
pub open spec fn has_child(
    heap: Multiset<(i64, Rc<StateDiff>)>,
    parent: Rc<StateDiff>,
    direction: MoveDirection,
) -> bool {
    exists|e: (i64, Rc<StateDiff>)|
        #[trigger] heap.contains(e) && e.0 == e.1.score && is_child(*e.1, parent, direction)
}

/// A frontier entry is keyed by its node's score, and the node ends a
/// chain of moves from `start` over boards of side `size`, no deeper than
/// the `visited` boards met so far.
pub open spec fn entry_ok(
    e: (i64, Rc<StateDiff>),
    start: Seq<i32>,
    size: usize,
    visited: nat,
) -> bool {
    &&& e.0 == e.1.score
    &&& is_path(*e.1, start)
    &&& e.1.state.size() == size
    &&& e.1.level <= visited
}

/// Offers a board that was reached from `parent` by `direction`. A board
/// that the visited set holds already is dropped, and neither the frontier
/// nor the set changes; so is a new board when the set is at its ceiling.
/// Any other board enters the set, and a node for it enters the frontier
/// under its score.
pub fn offer<F: Fn(&State, &Vec<(i32, i32)>) -> i64>(
    heap: &mut Frontier<Rc<StateDiff>>,
    seen: &mut VisitedSet,
    parent: &Rc<StateDiff>,
    direction: MoveDirection,
    state: State,
    score_calculator: F,
    goal_positions: &Vec<(i32, i32)>,
) -> (r: InsertOutcome)
    requires
        old(heap).wf(),
        old(seen).wf(),
        parent.level < usize::MAX,
        call_requires(score_calculator, (&state, goal_positions)),
    ensures
        final(heap).wf(),
        final(seen).wf(),
        final(heap).capacity() == old(heap).capacity(),
        final(seen).limit() == old(seen).limit(),
        match r {
            InsertOutcome::AlreadyPresent => {
                &&& old(seen)@.contains(state@)
                &&& final(heap)@ == old(heap)@
                &&& final(seen)@ == old(seen)@
            },
            InsertOutcome::Full => {
                &&& !old(seen)@.contains(state@)
                &&& old(seen)@.len() == old(seen).limit()
                &&& final(heap)@ == old(heap)@
                &&& final(seen)@ == old(seen)@
            },
            InsertOutcome::Inserted => {
                &&& !old(seen)@.contains(state@)
                &&& old(seen)@.len() < old(seen).limit()
                &&& final(seen)@ == old(seen)@.insert(state@)
                &&& exists|node: Rc<StateDiff>|
                    {
                        &&& #[trigger] final(heap)@ == old(heap)@.insert((node.score, node))
                        &&& node.state == state
                        &&& node.direction == direction
                        &&& node.level == parent.level + 1
                        &&& node.prev_state == Some(*parent)
                        &&& call_ensures(score_calculator, (&state, goal_positions), node.score)
                    }
            },
        },
{
    if seen.contains(state.table()) {
        return InsertOutcome::AlreadyPresent;
    }
    if seen.len() >= seen.limit() {
        proof {
            seen.lemma_wf();
        }
        return InsertOutcome::Full;
    }
    let cells = state.table().clone();
    assert(cells@ == state@);
    let node = StateDiff::new(
        state,
        parent.level + 1,
        direction,
        Some(share(parent)),
        score_calculator,
        goal_positions,
    );
    let score = node.score;
    let ghost witness = node;
    heap.push(score, node);
    assert(heap@ == old(heap)@.insert((witness.score, witness)));
    seen.insert(cells)
}

/// Offers every successor of `node` in turn, in the order up, down, left,
/// right. Returns `false`, and stops, when a new board meets a visited set
/// at its ceiling.
pub fn expand<F: Fn(&State, &Vec<(i32, i32)>) -> i64>(
    heap: &mut Frontier<Rc<StateDiff>>,
    seen: &mut VisitedSet,
    node: &Rc<StateDiff>,
    score_calculator: F,
    goal_positions: &Vec<(i32, i32)>,
) -> (r: bool)
    requires
        old(heap).wf(),
        old(seen).wf(),
        node.state.wf(),
        node.level < usize::MAX,
        scores_boards(score_calculator, node.state.size(), goal_positions@),
    ensures
        final(heap).wf(),
        final(seen).wf(),
        final(heap).capacity() == old(heap).capacity(),
        final(seen).limit() == old(seen).limit(),
        old(heap)@.subset_of(final(heap)@),
        old(seen)@.subset_of(final(seen)@),
        final(heap)@.len() - old(heap)@.len() == final(seen)@.len() - old(seen)@.len(),
        forall|e: (i64, Rc<StateDiff>)| #[trigger]
            final(heap)@.contains(e) ==> old(heap)@.contains(e) || {
                &&& e.0 == e.1.score
                &&& is_child(*e.1, *node, e.1.direction)
                &&& e.1.direction != node.direction.spec_reverse()
                &&& !old(seen)@.contains(e.1.state@)
                &&& final(seen)@.contains(e.1.state@)
                &&& call_ensures(score_calculator, (&e.1.state, goal_positions), e.1.score)
            },
        forall|s: Seq<i32>| #[trigger]
            final(seen)@.contains(s) ==> old(seen)@.contains(s) || is_successor(
                successors(node.state.size() as int, node.state@, node.direction),
                s,
            ),
        r ==> forall|k: int|
            0 <= k < successors(node.state.size() as int, node.state@, node.direction).len() ==> {
                let e = #[trigger] successors(
                    node.state.size() as int,
                    node.state@,
                    node.direction,
                )[k];
                &&& final(seen)@.contains(e.1)
                &&& old(seen)@.contains(e.1) || has_child(final(heap)@, *node, e.0)
            },
        !r ==> final(seen)@.len() == final(seen).limit(),
{
    let ghost size = node.state.size() as int;
    let ghost all = successors(size, node.state@, node.direction);
    let mut rest = node.state.moves(node.direction);
    proof {
        lemma_successors_are_moves(size, node.state@, node.direction);
        lemma_successors_differ(size, node.state@, node.direction);
        assert(successor_views(rest@).len() == rest@.len());
        assert forall|j: int| 0 <= j < rest@.len() implies (#[trigger] rest@[j]).0 == all[j].0
            && rest@[j].1@ == all[j].1 by {
            assert(successor_views(rest@)[j] == (rest@[j].0, rest@[j].1@));
        }
        old(seen).lemma_wf();
    }
    while rest.len() > 0
        invariant
            heap.wf(),
            seen.wf(),
            heap.capacity() == old(heap).capacity(),
            seen.limit() == old(seen).limit(),
            node.state.wf(),
            size == node.state.size(),
            all == successors(size, node.state@, node.direction),
            node.level < usize::MAX,
            scores_boards(score_calculator, node.state.size(), goal_positions@),
            rest@.len() <= all.len(),
            forall|j: int|
                0 <= j < rest@.len() ==> {
                    &&& (#[trigger] rest@[j]).1.wf()
                    &&& rest@[j].1.size() == node.state.size()
                    &&& rest@[j].0 == all[all.len() - rest@.len() + j].0
                    &&& rest@[j].1@ == all[all.len() - rest@.len() + j].1
                },
            forall|k: int|
                0 <= k < all.len() ==> {
                    &&& can_move(size, node.state@, (#[trigger] all[k]).0)
                    &&& all[k].0 != node.direction.spec_reverse()
                    &&& all[k].1 == moved(size, node.state@, all[k].0)
                },
            forall|j: int, k: int|
                0 <= j < k < all.len() ==> (#[trigger] all[j]).1 != (#[trigger] all[k]).1,
            forall|k: int|
                0 <= k < all.len() - rest@.len() ==> {
                    &&& seen@.contains((#[trigger] all[k]).1)
                    &&& old(seen)@.contains(all[k].1) || has_child(heap@, *node, all[k].0)
                },
            forall|s: Seq<i32>| #[trigger]
                seen@.contains(s) ==> old(seen)@.contains(s) || exists|k: int|
                    0 <= k < all.len() - rest@.len() && (#[trigger] all[k]).1 == s,
            old(heap)@.subset_of(heap@),
            old(seen)@.subset_of(seen@),
            seen@.finite(),
            old(seen)@.finite(),
            heap@.len() - old(heap)@.len() == seen@.len() - old(seen)@.len(),
            forall|e: (i64, Rc<StateDiff>)| #[trigger]
                heap@.contains(e) ==> old(heap)@.contains(e) || {
                    &&& e.0 == e.1.score
                    &&& is_child(*e.1, *node, e.1.direction)
                    &&& e.1.direction != node.direction.spec_reverse()
                    &&& !old(seen)@.contains(e.1.state@)
                    &&& seen@.contains(e.1.state@)
                    &&& call_ensures(score_calculator, (&e.1.state, goal_positions), e.1.score)
                },
        decreases rest@.len(),
    {
        let ghost k = all.len() - rest@.len();
        let ghost heap_before = heap@;
        let ghost seen_before = seen@;
        let ghost rest_before = rest@;
        let (direction, state) = rest.remove(0);
        proof {
            assert(direction == all[k].0);
            assert(state@ == all[k].1);
            assert forall|j: int| 0 <= j < rest@.len() implies {
                &&& (#[trigger] rest@[j]).1.wf()
                &&& rest@[j].1.size() == node.state.size()
                &&& rest@[j].0 == all[all.len() - rest@.len() + j].0
                &&& rest@[j].1@ == all[all.len() - rest@.len() + j].1
            } by {
                assert(rest@[j] == rest_before[j + 1]);
            }
            vstd::set_lib::lemma_len_subset(old(seen)@, seen@);
        }
        let ghost cells = state@;
        match offer(heap, seen, node, direction, state, &score_calculator, goal_positions) {
            InsertOutcome::Full => {
                return false;
            },
            InsertOutcome::AlreadyPresent => {
                proof {
                    if !old(seen)@.contains(cells) {
                        let j = choose|j: int| 0 <= j < k && (#[trigger] all[j]).1 == cells;
                        assert(all[j].1 != all[k].1);
                    }
                }
            },
            InsertOutcome::Inserted => {
                proof {
                    seen.lemma_wf();
                    let added = choose|added: Rc<StateDiff>|
                        {
                            &&& #[trigger] heap@ == heap_before.insert((added.score, added))
                            &&& added.state@ == cells
                            &&& added.state.wf()
                            &&& added.state.size() == node.state.size()
                            &&& added.direction == direction
                            &&& added.level == node.level + 1
                            &&& added.prev_state == Some(*node)
                            &&& call_ensures(
                                score_calculator,
                                (&added.state, goal_positions),
                                added.score,
                            )
                        };
                    assert(is_child(*added, *node, direction));
                    assert(heap@.contains((added.score, added)));
                    assert(has_child(heap@, *node, all[k].0));
                    assert forall|e: (i64, Rc<StateDiff>)| #[trigger]
                        heap@.contains(e) implies old(heap)@.contains(e) || {
                        &&& e.0 == e.1.score
                        &&& is_child(*e.1, *node, e.1.direction)
                        &&& e.1.direction != node.direction.spec_reverse()
                        &&& !old(seen)@.contains(e.1.state@)
                        &&& seen@.contains(e.1.state@)
                        &&& call_ensures(score_calculator, (&e.1.state, goal_positions), e.1.score)
                    } by {
                        if e != (added.score, added) {
                            assert(heap_before.contains(e));
                        }
                    }
                    assert forall|j: int| 0 <= j < k implies old(seen)@.contains(
                        (#[trigger] all[j]).1,
                    ) || has_child(heap@, *node, all[j].0) by {
                        if !old(seen)@.contains(all[j].1) {
                            let e = choose|e: (i64, Rc<StateDiff>)|
                                #[trigger] heap_before.contains(e) && e.0 == e.1.score && is_child(
                                    *e.1,
                                    *node,
                                    all[j].0,
                                );
                            assert(heap@.contains(e));
                        }
                    }
                }
            },
        }
    }
    true
}

/// Makes the report of a search that ends with `outcome`.
fn report(
    outcome: Result<Rc<StateDiff>, PuzzleError>,
    max_level: usize,
    heap: &Frontier<Rc<StateDiff>>,
    seen: &VisitedSet,
    evicted: bool,
) -> (r: SearchReport)
    requires
        seen.wf(),
    ensures
        r.outcome == outcome,
        r.max_level == max_level,
        r.frontier_len == heap@.len(),
        r.visited_len == seen@.len(),
        r.evicted == evicted,
{
    SearchReport { outcome, max_level, frontier_len: heap.len(), visited_len: seen.len(), evicted }
}

/// Searches for a chain of moves from `state` to `goal`, best score
/// first, for as long as `keep_going` says so.
///
/// `keep_going` is asked once before every pop, with the sizes of the
/// frontier and of the visited set and with whether a cut follows; when it
/// returns `false` the search ends with `Cancelled`. A cut follows when
/// the frontier is at or over `limits.frontier_max` and holds more than
/// `limits.frontier_shrink` entries: it is cut down to its
/// `limits.frontier_shrink` best entries. The search ends with the node of the goal, with `Exhausted`
/// when the frontier is empty, or with `ResourceExhausted` when a new board
/// meets a visited set that holds `limits.visited_max` boards.
pub fn solve_while<F: Fn(&State, &Vec<(i32, i32)>) -> i64, C: Fn(usize, usize, bool) -> bool>(
    state: State,
    goal: State,
    score_calculator: F,
    limits: &SearchLimits,
    keep_going: C,
) -> (r: SearchReport)
    requires
        state.wf(),
        goal.wf(),
        state.size() == goal.size(),
        scores_boards(score_calculator, goal.size(), positions(goal.size() as int, goal@)),
        forall|frontier: usize, visited: usize, cut: bool|
            call_requires(keep_going, (frontier, visited, cut)),
    ensures
        r.outcome matches Ok(node) ==> {
            &&& is_path(*node, state@)
            &&& node.state@ == goal@
            &&& node.level <= r.max_level
            &&& node.level <= r.visited_len
            &&& node.level >= manhattan_sum(
                goal.size() as int,
                state@,
                positions(goal.size() as int, goal@),
            )
            &&& node.level % 2 == inversions(state@, goal@) % 2
            &&& boards_differ(chain(*node))
        },
        r.outcome matches Err(e) ==> e == PuzzleError::Exhausted || e
            == PuzzleError::ResourceExhausted || e == PuzzleError::Cancelled,
        r.outcome == Err::<Rc<StateDiff>, PuzzleError>(PuzzleError::Cancelled) ==> call_ensures(
            keep_going,
            (
                r.frontier_len,
                r.visited_len,
                r.frontier_len >= limits.frontier_max && r.frontier_len > limits.frontier_shrink,
            ),
            false,
        ),
        r.outcome == Err::<Rc<StateDiff>, PuzzleError>(PuzzleError::Exhausted) ==> r.frontier_len
            == 0,
        r.outcome == Err::<Rc<StateDiff>, PuzzleError>(PuzzleError::ResourceExhausted)
            ==> r.visited_len == limits.visited_max && reaches_many(
            goal.size() as int,
            state@,
            limits.visited_max as nat,
        ),
        reaches_many(goal.size() as int, state@, r.visited_len as nat),
        r.evicted ==> r.visited_len + 1 >= limits.frontier_max && r.visited_len
            >= limits.frontier_shrink,
        limits.frontier_max > limits.visited_max + 1 || limits.frontier_shrink
            > limits.visited_max ==> !r.evicted,
        !r.evicted && r.outcome == Err::<Rc<StateDiff>, PuzzleError>(PuzzleError::Exhausted)
            ==> !reachable(goal.size() as int, state@, goal@),
        r.max_level <= r.visited_len <= limits.visited_max,
        limits.frontier_max <= 1 && limits.frontier_shrink == 0 ==> r.outcome == Err::<
            Rc<StateDiff>,
            PuzzleError,
        >(PuzzleError::Exhausted) || r.outcome == Err::<Rc<StateDiff>, PuzzleError>(
            PuzzleError::Cancelled,
        ),
        state@ == goal@ && (limits.frontier_max > 1 || limits.frontier_shrink >= 1) ==> (
        r.outcome matches Ok(node) && node.level == 0) || r.outcome == Err::<
            Rc<StateDiff>,
            PuzzleError,
        >(PuzzleError::Cancelled),
{
    let goal_positions = goal.goal_positions();
    let mut heap: Frontier<Rc<StateDiff>> = Frontier::new(limits.frontier_max);
    let mut seen = VisitedSet::new(limits.visited_max);
    let mut max_level: usize = 0;
    let ghost start = state@;
    let ghost size = goal.size();
    let root = StateDiff::new(
        state,
        0,
        MoveDirection::NoMove,
        None,
        &score_calculator,
        &goal_positions,
    );
    let root_score = root.score;
    let ghost witness_root = root;
    heap.push(root_score, root);
    let mut evicted = false;
    let ghost mut pristine = true;
    let ghost mut closed: Set<Seq<i32>> = Set::empty();
    proof {
        seen.lemma_wf();
        assert(heap@.contains((witness_root.score, witness_root)));
        assert(covers(size as int, start, goal@, closed, heap@, seen@));
        assert(chain(*witness_root) =~= seq![*witness_root]);
        assert forall|d: MoveDirection| #[trigger]
            can_move(size as int, start, d) implies moved(size as int, start, d) != start by {
            lemma_move_changes_board(size as int, start, d);
        }
    }
    loop
        invariant
            heap.wf(),
            seen.wf(),
            seen@.finite(),
            heap.capacity() == limits.frontier_max,
            seen.limit() == limits.visited_max,
            seen@.len() <= limits.visited_max,
            max_level <= seen@.len(),
            goal.wf(),
            goal.size() == size,
            start == state@,
            goal_positions@ == positions(goal.size() as int, goal@),
            scores_boards(score_calculator, goal.size(), positions(goal.size() as int, goal@)),
            forall|e: (i64, Rc<StateDiff>)| #[trigger]
                heap@.contains(e) ==> entry_ok(e, start, size, seen@.len()),
            pristine ==> heap@.len() == 1,
            pristine ==> forall|e: (i64, Rc<StateDiff>)| #[trigger]
                heap@.contains(e) ==> e.1.level == 0 && e.1.state@ == start,
            !pristine ==> !(limits.frontier_max <= 1 && limits.frontier_shrink == 0),
            !pristine ==> start != goal@,
            forall|frontier: usize, visited: usize, cut: bool|
            call_requires(keep_going, (frontier, visited, cut)),
            heap@.len() <= seen@.len() + 1,
            limits.frontier_max > limits.visited_max + 1 || limits.frontier_shrink
                > limits.visited_max ==> !evicted,
            forall|s: Seq<i32>| #[trigger]
                seen@.contains(s) ==> reachable(size as int, start, s),
            !evicted ==> covers(size as int, start, goal@, closed, heap@, seen@),
            evicted ==> seen@.len() + 1 >= limits.frontier_max && seen@.len()
                >= limits.frontier_shrink,
            !seen@.contains(start),
            !pristine ==> neighbours_seen(size as int, start, seen@),
            forall|e: (i64, Rc<StateDiff>)| #[trigger]
                heap@.contains(e) ==> chain_kept(chain(*e.1), seen@) && only_way_back(
                    size as int,
                    *e.1,
                    start,
                ),
        decreases 2 * (limits.visited_max - seen@.len()) + heap@.len(),
    {
        let cut = heap.is_full() && heap.len() > limits.frontier_shrink;
        if !keep_going(heap.len(), seen.len(), cut) {
            proof {
                    lemma_reaches_many(size as int, start, seen@);
                }
                return report(Err(PuzzleError::Cancelled), max_level, &heap, &seen, evicted);
        }
        let ghost heap_at_head = heap@;
        if cut {
            heap = shrink_heap(heap, limits.frontier_shrink);
            evicted = true;
        }
        let ghost heap_cut = heap@;
        proof {
            assert(heap_cut.subset_of(heap_at_head));
            assert forall|e: (i64, Rc<StateDiff>)| #[trigger] heap_cut.contains(e) implies entry_ok(
                e,
                start,
                size,
                seen@.len(),
            ) by {
                assert(heap_at_head.contains(e));
            }
        }
        match heap.pop() {
            None => {
                proof {
                    if !evicted {
                        lemma_empty_frontier_means_unreachable(
                            size as int,
                            start,
                            goal@,
                            closed,
                            heap@,
                            seen@,
                        );
                    }
                }
                proof {
                    lemma_reaches_many(size as int, start, seen@);
                }
                return report(Err(PuzzleError::Exhausted), max_level, &heap, &seen, evicted);
            },
            Some((_, curr)) => {
                proof {
                    assert(heap_cut.contains((curr.score, curr)));
                    assert(heap_at_head.contains((curr.score, curr)));
                    assert(entry_ok((curr.score, curr), start, size, seen@.len()));
                    assert(pristine ==> curr.level == 0 && curr.state@ == start);
                }
                if curr.level > max_level {
                    max_level = curr.level;
                }
                if curr.state == goal {
                    proof {
                        lemma_solution_is_no_shorter_than_manhattan(curr, start, goal@);
                        lemma_solution_length_parity(curr, start, goal@);
                        assert(chain_kept(chain(*curr), seen@));
                    }
                    proof {
                    lemma_reaches_many(size as int, start, seen@);
                }
                return report(Ok(curr), max_level, &heap, &seen, evicted);
                }
                if curr.level == usize::MAX {
                    // The visited set holds as many boards as the machine
                    // can count, so it is at its ceiling.
                    assert(reaches_many(size as int, start, limits.visited_max as nat)) by {
                        assert(seen@.finite() && seen@.len() == limits.visited_max);
                    }
                    proof {
                    lemma_reaches_many(size as int, start, seen@);
                }
                return report(Err(PuzzleError::ResourceExhausted), max_level, &heap, &seen, evicted);
                }
                let ghost heap_popped = heap@;
                let ghost seen_before = seen@;
                let more = expand(&mut heap, &mut seen, &curr, &score_calculator, &goal_positions);
                proof {
                    seen.lemma_wf();
                    pristine = false;
                    vstd::set_lib::lemma_len_subset(seen_before, seen@);
                    lemma_path_is_reachable(node_at(curr), start);
                    lemma_successors_are_moves(size as int, curr.state@, curr.direction);
                    assert forall|s: Seq<i32>| #[trigger] seen@.contains(s) implies reachable(
                        size as int,
                        start,
                        s,
                    ) by {
                        if !seen_before.contains(s) {
                            let all = successors(size as int, curr.state@, curr.direction);
                            let k = choose|k: int| 0 <= k < all.len() && (#[trigger] all[k]).1 == s;
                            lemma_reachable_by_one_more(size as int, start, curr.state@, all[k].0);
                        }
                    }
                    lemma_successors_are_not_start(size as int, start, node_at(curr));
                    assert(!seen@.contains(start));
                    assert forall|e: (i64, Rc<StateDiff>)| #[trigger] heap@.contains(e) implies chain_kept(
                        chain(*e.1),
                        seen@,
                    ) && only_way_back(size as int, *e.1, start) by {
                        if heap_popped.contains(e) {
                            assert(heap_at_head.contains(e));
                            lemma_chain_kept_grows(chain(*e.1), seen_before, seen@);
                        } else {
                            lemma_child_is_sound(
                                size as int,
                                start,
                                curr,
                                node_at(e.1),
                                seen_before,
                                seen@,
                            );
                        }
                    }
                    if more {
                        lemma_successors_cover_all(
                            size as int,
                            curr.state@,
                            curr.direction,
                            seen@,
                        );
                    }
                    if more && !evicted {
                        assert(heap_cut == heap_at_head);
                        lemma_cover_step(
                            size as int,
                            start,
                            goal@,
                            closed,
                            heap_cut,
                            (curr.score, curr),
                            heap@,
                            seen_before,
                            seen@,
                        );
                        closed = closed.insert(curr.state@);
                    }
                    assert forall|e: (i64, Rc<StateDiff>)| #[trigger] heap@.contains(e) implies entry_ok(
                        e,
                        start,
                        size,
                        seen@.len(),
                    ) by {
                        if heap_popped.contains(e) {
                            assert(heap_cut.contains(e));
                        } else {
                            assert(is_child(*e.1, curr, e.1.direction));
                            assert(is_path(*e.1, start));
                            assert(seen_before.subset_of(seen@.remove(e.1.state@)));
                            vstd::set_lib::lemma_len_subset(
                                seen_before,
                                seen@.remove(e.1.state@),
                            );
                        }
                    }
                }
                if !more {
                    assert(reaches_many(size as int, start, limits.visited_max as nat)) by {
                        assert(seen@.finite() && seen@.len() == limits.visited_max);
                    }
                    proof {
                    lemma_reaches_many(size as int, start, seen@);
                }
                return report(Err(PuzzleError::ResourceExhausted), max_level, &heap, &seen, evicted);
                }
            },
        }
    }
}

/// Searches for a chain of moves from `state` to `goal`, best score
/// first.
///
/// Before every pop a frontier at or over `limits.frontier_max` is cut
/// down to its `limits.frontier_shrink` best entries. The search ends with
/// the node of the goal, with `Exhausted` when the frontier is empty, or
/// with `ResourceExhausted` when a new board meets a visited set that
/// holds `limits.visited_max` boards. As long as no cut has dropped an
/// entry the search loses no board, so it ends `Exhausted` only where the
/// goal cannot be reached.
pub fn solve<F: Fn(&State, &Vec<(i32, i32)>) -> i64>(
    state: State,
    goal: State,
    score_calculator: F,
    limits: &SearchLimits,
) -> (r: SearchReport)
    requires
        state.wf(),
        goal.wf(),
        state.size() == goal.size(),
        scores_boards(score_calculator, goal.size(), positions(goal.size() as int, goal@)),
    ensures
        r.outcome matches Ok(node) ==> {
            &&& is_path(*node, state@)
            &&& node.state@ == goal@
            &&& node.level <= r.max_level
            &&& node.level <= r.visited_len
            &&& node.level >= manhattan_sum(
                goal.size() as int,
                state@,
                positions(goal.size() as int, goal@),
            )
            &&& node.level % 2 == inversions(state@, goal@) % 2
            &&& boards_differ(chain(*node))
        },
        r.outcome matches Err(e) ==> e == PuzzleError::Exhausted || e
            == PuzzleError::ResourceExhausted,
        r.outcome == Err::<Rc<StateDiff>, PuzzleError>(PuzzleError::Exhausted) ==> r.frontier_len
            == 0,
        r.outcome == Err::<Rc<StateDiff>, PuzzleError>(PuzzleError::ResourceExhausted)
            ==> r.visited_len == limits.visited_max && reaches_many(
            goal.size() as int,
            state@,
            limits.visited_max as nat,
        ),
        reaches_many(goal.size() as int, state@, r.visited_len as nat),
        r.evicted ==> r.visited_len + 1 >= limits.frontier_max && r.visited_len
            >= limits.frontier_shrink,
        limits.frontier_max > limits.visited_max + 1 || limits.frontier_shrink
            > limits.visited_max ==> !r.evicted,
        !r.evicted && r.outcome == Err::<Rc<StateDiff>, PuzzleError>(PuzzleError::Exhausted)
            ==> !reachable(goal.size() as int, state@, goal@),
        r.max_level <= r.visited_len <= limits.visited_max,
        limits.frontier_max <= 1 && limits.frontier_shrink == 0 ==> r.outcome == Err::<
            Rc<StateDiff>,
            PuzzleError,
        >(PuzzleError::Exhausted),
        state@ == goal@ && (limits.frontier_max > 1 || limits.frontier_shrink >= 1) ==> (
        r.outcome matches Ok(node) && node.level == 0),
{
    let always = |frontier: usize, visited: usize, cut: bool| -> (go: bool)
        ensures
            go,
        { true };
    solve_while(state, goal, score_calculator, limits, always)
}

/// Solves the puzzle that `state` poses, for as long as `keep_going` says
/// so: the goal is the solved layout for its size. The parity pre-check
/// comes first, and an instance that fails it is reported as `Unsolvable`
/// without a search.
pub fn search_while<F: Fn(&State, &Vec<(i32, i32)>) -> i64, C: Fn(usize, usize, bool) -> bool>(
    state: State,
    score_calculator: F,
    limits: &SearchLimits,
    keep_going: C,
) -> (r: SearchReport)
    requires
        state.wf(),
        scores_boards(
            score_calculator,
            state.size(),
            positions(state.size() as int, spiral_cells(state.size() as int)),
        ),
        forall|frontier: usize, visited: usize, cut: bool|
            call_requires(keep_going, (frontier, visited, cut)),
    ensures
        r.outcome == Err::<Rc<StateDiff>, PuzzleError>(PuzzleError::Unsolvable) <==> inversions(
            state@,
            spiral_cells(state.size() as int),
        ) % 2 != 0,
        r.outcome == Err::<Rc<StateDiff>, PuzzleError>(PuzzleError::Unsolvable) ==> r.max_level == 0
            && r.frontier_len == 0 && r.visited_len == 0,
        r.outcome matches Ok(node) ==> {
            &&& is_path(*node, state@)
            &&& node.state@ == spiral_cells(state.size() as int)
            &&& node.level <= r.max_level
            &&& node.level <= r.visited_len
            &&& node.level >= manhattan_sum(
                state.size() as int,
                state@,
                positions(state.size() as int, spiral_cells(state.size() as int)),
            )
            &&& node.level % 2 == 0
            &&& boards_differ(chain(*node))
        },
        r.outcome matches Err(e) ==> e == PuzzleError::Unsolvable || e == PuzzleError::Exhausted
            || e == PuzzleError::ResourceExhausted || e == PuzzleError::Cancelled,
        r.outcome == Err::<Rc<StateDiff>, PuzzleError>(PuzzleError::Cancelled) ==> call_ensures(
            keep_going,
            (
                r.frontier_len,
                r.visited_len,
                r.frontier_len >= limits.frontier_max && r.frontier_len > limits.frontier_shrink,
            ),
            false,
        ),
        r.outcome == Err::<Rc<StateDiff>, PuzzleError>(PuzzleError::Exhausted) ==> r.frontier_len
            == 0,
        r.outcome == Err::<Rc<StateDiff>, PuzzleError>(PuzzleError::ResourceExhausted)
            ==> r.visited_len == limits.visited_max && reaches_many(
            state.size() as int,
            state@,
            limits.visited_max as nat,
        ),
        reaches_many(state.size() as int, state@, r.visited_len as nat),
        r.evicted ==> r.visited_len + 1 >= limits.frontier_max && r.visited_len
            >= limits.frontier_shrink,
        limits.frontier_max > limits.visited_max + 1 || limits.frontier_shrink
            > limits.visited_max ==> !r.evicted,
        !r.evicted && r.outcome == Err::<Rc<StateDiff>, PuzzleError>(PuzzleError::Exhausted)
            ==> !reachable(
            state.size() as int,
            state@,
            spiral_cells(state.size() as int),
        ),
        r.max_level <= r.visited_len <= limits.visited_max,
        state@ == spiral_cells(state.size() as int) && (limits.frontier_max > 1
            || limits.frontier_shrink >= 1) ==> (r.outcome matches Ok(node) && node.level == 0)
            || r.outcome == Err::<Rc<StateDiff>, PuzzleError>(PuzzleError::Cancelled),
{
    let goal = state.goal();
    if !is_solvable(&state, &goal) {
        proof {
            if state@ == goal@ {
                lemma_no_inversions_against_itself(state@, state@.len() as int);
            }
            lemma_reaches_many(state.size() as int, state@, Set::<Seq<i32>>::empty());
        }
        return SearchReport {
            outcome: Err(PuzzleError::Unsolvable),
            max_level: 0,
            frontier_len: 0,
            visited_len: 0,
            evicted: false,
        };
    }
    solve_while(state, goal, score_calculator, limits, keep_going)
}

/// Solves the puzzle that `state` poses: the goal is the solved layout for
/// its size. The parity pre-check comes first, and an instance that fails
/// it is reported as `Unsolvable` without a search.
pub fn search<F: Fn(&State, &Vec<(i32, i32)>) -> i64>(
    state: State,
    score_calculator: F,
    limits: &SearchLimits,
) -> (r: SearchReport)
    requires
        state.wf(),
        scores_boards(
            score_calculator,
            state.size(),
            positions(state.size() as int, spiral_cells(state.size() as int)),
        ),
    ensures
        r.outcome == Err::<Rc<StateDiff>, PuzzleError>(PuzzleError::Unsolvable) <==> inversions(
            state@,
            spiral_cells(state.size() as int),
        ) % 2 != 0,
        r.outcome == Err::<Rc<StateDiff>, PuzzleError>(PuzzleError::Unsolvable) ==> r.max_level == 0
            && r.frontier_len == 0 && r.visited_len == 0,
        r.outcome matches Ok(node) ==> {
            &&& is_path(*node, state@)
            &&& node.state@ == spiral_cells(state.size() as int)
            &&& node.level <= r.max_level
            &&& node.level <= r.visited_len
            &&& node.level >= manhattan_sum(
                state.size() as int,
                state@,
                positions(state.size() as int, spiral_cells(state.size() as int)),
            )
            &&& node.level % 2 == 0
            &&& boards_differ(chain(*node))
        },
        r.outcome matches Err(e) ==> e == PuzzleError::Unsolvable || e == PuzzleError::Exhausted
            || e == PuzzleError::ResourceExhausted,
        r.outcome == Err::<Rc<StateDiff>, PuzzleError>(PuzzleError::Exhausted) ==> r.frontier_len
            == 0,
        r.outcome == Err::<Rc<StateDiff>, PuzzleError>(PuzzleError::ResourceExhausted)
            ==> r.visited_len == limits.visited_max && reaches_many(
            state.size() as int,
            state@,
            limits.visited_max as nat,
        ),
        reaches_many(state.size() as int, state@, r.visited_len as nat),
        r.evicted ==> r.visited_len + 1 >= limits.frontier_max && r.visited_len
            >= limits.frontier_shrink,
        limits.frontier_max > limits.visited_max + 1 || limits.frontier_shrink
            > limits.visited_max ==> !r.evicted,
        !r.evicted && r.outcome == Err::<Rc<StateDiff>, PuzzleError>(PuzzleError::Exhausted)
            ==> !reachable(
            state.size() as int,
            state@,
            spiral_cells(state.size() as int),
        ),
        r.max_level <= r.visited_len <= limits.visited_max,
        state@ == spiral_cells(state.size() as int) && (limits.frontier_max > 1
            || limits.frontier_shrink >= 1) ==> (r.outcome matches Ok(node) && node.level == 0),
{
    let always = |frontier: usize, visited: usize, cut: bool| -> (go: bool)
        ensures
            go,
        { true };
    search_while(state, score_calculator, limits, always)
}

/// Solves the puzzle that `state` poses with one of the library's own
/// scores.
pub fn search_with(state: State, heuristic: Heuristic, limits: &SearchLimits) -> (r: SearchReport)
    requires
        state.wf(),
    ensures
        r.outcome == Err::<Rc<StateDiff>, PuzzleError>(PuzzleError::Unsolvable) <==> inversions(
            state@,
            spiral_cells(state.size() as int),
        ) % 2 != 0,
        r.outcome matches Ok(node) ==> {
            &&& is_path(*node, state@)
            &&& node.state@ == spiral_cells(state.size() as int)
            &&& node.level <= r.max_level
            &&& node.level <= r.visited_len
            &&& node.level >= manhattan_sum(
                state.size() as int,
                state@,
                positions(state.size() as int, spiral_cells(state.size() as int)),
            )
            &&& node.level % 2 == 0
            &&& boards_differ(chain(*node))
        },
        r.outcome matches Err(e) ==> e == PuzzleError::Unsolvable || e == PuzzleError::Exhausted
            || e == PuzzleError::ResourceExhausted,
        r.outcome == Err::<Rc<StateDiff>, PuzzleError>(PuzzleError::Exhausted) ==> r.frontier_len
            == 0,
        r.outcome == Err::<Rc<StateDiff>, PuzzleError>(PuzzleError::ResourceExhausted)
            ==> r.visited_len == limits.visited_max && reaches_many(
            state.size() as int,
            state@,
            limits.visited_max as nat,
        ),
        reaches_many(state.size() as int, state@, r.visited_len as nat),
        r.evicted ==> r.visited_len + 1 >= limits.frontier_max && r.visited_len
            >= limits.frontier_shrink,
        limits.frontier_max > limits.visited_max + 1 || limits.frontier_shrink
            > limits.visited_max ==> !r.evicted,
        !r.evicted && r.outcome == Err::<Rc<StateDiff>, PuzzleError>(PuzzleError::Exhausted)
            ==> !reachable(
            state.size() as int,
            state@,
            spiral_cells(state.size() as int),
        ),
        r.max_level <= r.visited_len <= limits.visited_max,
        state@ == spiral_cells(state.size() as int) && (limits.frontier_max > 1
            || limits.frontier_shrink >= 1) ==> (r.outcome matches Ok(node) && node.level == 0),
{
    let ghost size = state.size();
    let score = |s: &State, table: &Vec<(i32, i32)>| -> (r: i64)
        requires
            s.wf(),
            is_position_table(s.size() as int, table@),
        { heuristic.score(s, table) };
    proof {
        crate::board::lemma_board_fits(size as int, state@);
        lemma_spiral_is_board(size as int);
        lemma_positions_are_table(size as int, spiral_cells(size as int));
    }
    search(state, score, limits)
}

} // verus!
