//! Which boards a search can reach, and why a search that never cuts its
//! frontier misses none of them.

use std::rc::Rc;
use vstd::prelude::*;
use vstd::multiset::Multiset;
use crate::board::{
    can_move, is_board, lemma_move_and_back, lemma_moves_differ, lemma_successors_are_moves,
    lemma_successors_cover, moved, replayed, successors,
};
use crate::direction::MoveDirection;
use crate::node::{chain, is_path, lemma_path_replays, node_at, StateDiff};
use crate::solver::{has_child, is_child, is_successor};

verus! {

/// Some sequence of moves makes the board `to` of the board `from`.
pub open spec fn reachable(size: int, from: Seq<i32>, to: Seq<i32>) -> bool {
    exists|moves: Seq<MoveDirection>| #[trigger] replayed(size, from, moves) == Some(to)
}

/// There are `count` different boards that can be reached from `start`.
pub open spec fn reaches_many(size: int, start: Seq<i32>, count: nat) -> bool {
    exists|boards: Set<Seq<i32>>|
        #[trigger] boards.finite() && boards.len() == count && forall|b: Seq<i32>|
            boards.contains(b) ==> reachable(size, start, b)
}

/// The frontier holds a node for the board with these cells.
pub open spec fn in_frontier(heap: Multiset<(i64, Rc<StateDiff>)>, cells: Seq<i32>) -> bool {
    exists|e: (i64, Rc<StateDiff>)| #[trigger] heap.contains(e) && e.1.state@ == cells
}

/// The board has been expanded or waits in the frontier.
pub open spec fn known(
    closed: Set<Seq<i32>>,
    heap: Multiset<(i64, Rc<StateDiff>)>,
    cells: Seq<i32>,
) -> bool {
    closed.contains(cells) || in_frontier(heap, cells)
}

/// Nothing that the search has met is lost: the start, every board one
/// move from an expanded board and every visited board is expanded or in
/// the frontier; the board behind every node of the frontier is expanded;
/// and the goal is not among the expanded boards.
pub open spec fn covers(
    size: int,
    start: Seq<i32>,
    goal: Seq<i32>,
    closed: Set<Seq<i32>>,
    heap: Multiset<(i64, Rc<StateDiff>)>,
    seen: Set<Seq<i32>>,
) -> bool {
    &&& known(closed, heap, start)
    &&& forall|b: Seq<i32>, d: MoveDirection|
        #![trigger closed.contains(b), can_move(size, b, d)]
        closed.contains(b) && can_move(size, b, d) ==> known(closed, heap, moved(size, b, d))
    &&& forall|s: Seq<i32>| #[trigger] seen.contains(s) ==> known(closed, heap, s)
    &&& forall|e: (i64, Rc<StateDiff>)| #[trigger]
        heap.contains(e) ==> (e.1.prev_state matches Some(p) ==> closed.contains(p.state@))
    &&& forall|b: Seq<i32>| #[trigger] closed.contains(b) ==> is_board(size, b)
    &&& !closed.contains(goal)
}

/// A finite set of boards that can all be reached from `start` shows
/// that as many boards as it holds can be reached.
pub proof fn lemma_reaches_many(size: int, start: Seq<i32>, boards: Set<Seq<i32>>)
    requires
        boards.finite(),
        forall|b: Seq<i32>| #[trigger] boards.contains(b) ==> reachable(size, start, b),
    ensures
        reaches_many(size, start, boards.len()),
{
    assert(boards.finite() && boards.len() == boards.len());
}

/// A board can be reached from itself.
pub proof fn lemma_reachable_from_itself(size: int, cells: Seq<i32>)
    ensures
        reachable(size, cells, cells),
{
    assert(replayed(size, cells, Seq::<MoveDirection>::empty()) == Some(cells));
}

/// One more move leads from a board that can be reached to another.
pub proof fn lemma_reachable_by_one_more(
    size: int,
    from: Seq<i32>,
    over: Seq<i32>,
    direction: MoveDirection,
)
    requires
        reachable(size, from, over),
        can_move(size, over, direction),
    ensures
        reachable(size, from, moved(size, over, direction)),
{
    let moves = choose|moves: Seq<MoveDirection>| #[trigger]
        replayed(size, from, moves) == Some(over);
    let longer = moves.push(direction);
    assert(longer.drop_last() =~= moves);
    assert(replayed(size, from, longer) == Some(moved(size, over, direction)));
}

/// The board of a node at the end of a chain can be reached from the
/// chain's first board.
pub proof fn lemma_path_is_reachable(node: StateDiff, start: Seq<i32>)
    requires
        is_path(node, start),
    ensures
        reachable(node.state.size() as int, start, node.state@),
{
    lemma_path_replays(node, start);
}

/// A set of boards that holds `start` and, with every board, the boards
/// one move from it holds every board that can be reached from `start`.
pub proof fn lemma_closed_holds_reachable(
    size: int,
    start: Seq<i32>,
    closed: Set<Seq<i32>>,
    moves: Seq<MoveDirection>,
)
    requires
        closed.contains(start),
        forall|b: Seq<i32>, d: MoveDirection|
            #![trigger closed.contains(b), can_move(size, b, d)]
            closed.contains(b) && can_move(size, b, d) ==> closed.contains(moved(size, b, d)),
        replayed(size, start, moves) is Some,
    ensures
        closed.contains(replayed(size, start, moves)->Some_0),
    decreases moves.len(),
{
    if moves.len() > 0 {
        lemma_closed_holds_reachable(size, start, closed, moves.drop_last());
        let before = replayed(size, start, moves.drop_last())->Some_0;
        assert(closed.contains(before) && can_move(size, before, moves.last()));
    }
}

/// When the frontier is empty and nothing was lost, the goal cannot be
/// reached.
pub proof fn lemma_empty_frontier_means_unreachable(
    size: int,
    start: Seq<i32>,
    goal: Seq<i32>,
    closed: Set<Seq<i32>>,
    heap: Multiset<(i64, Rc<StateDiff>)>,
    seen: Set<Seq<i32>>,
)
    requires
        covers(size, start, goal, closed, heap, seen),
        heap.len() == 0,
    ensures
        !reachable(size, start, goal),
{
    assert forall|b: Seq<i32>| !in_frontier(heap, b) by {
        if in_frontier(heap, b) {
            let e = choose|e: (i64, Rc<StateDiff>)| #[trigger] heap.contains(e) && e.1.state@ == b;
            assert(heap.count(e) <= heap.len());
        }
    }
    assert forall|b: Seq<i32>, d: MoveDirection|
        #![trigger closed.contains(b), can_move(size, b, d)]
        closed.contains(b) && can_move(size, b, d) implies closed.contains(
        moved(size, b, d),
    ) by {
        assert(known(closed, heap, moved(size, b, d)));
    }
    assert(known(closed, heap, start));
    if reachable(size, start, goal) {
        let moves = choose|moves: Seq<MoveDirection>| #[trigger]
            replayed(size, start, moves) == Some(goal);
        lemma_closed_holds_reachable(size, start, closed, moves);
    }
}

/// A board that was known before a node left the frontier is known after
/// the node has been expanded.
proof fn lemma_known_kept(
    closed: Set<Seq<i32>>,
    before: Multiset<(i64, Rc<StateDiff>)>,
    taken: (i64, Rc<StateDiff>),
    after: Multiset<(i64, Rc<StateDiff>)>,
    cells: Seq<i32>,
)
    requires
        known(closed, before, cells),
        before.remove(taken).subset_of(after),
    ensures
        known(closed.insert(taken.1.state@), after, cells),
{
    if !closed.contains(cells) {
        let e = choose|e: (i64, Rc<StateDiff>)| #[trigger] before.contains(e) && e.1.state@ == cells;
        if e != taken {
            assert(before.remove(taken).count(e) == before.count(e));
            assert(before.remove(taken).count(e) <= after.count(e));
            assert(after.contains(e));
        }
    }
}

/// Expanding a node that is not the goal loses nothing: what held when
/// the node was in the frontier holds again once its successors have been
/// offered and all of them are in the visited set.
pub proof fn lemma_cover_step(
    size: int,
    start: Seq<i32>,
    goal: Seq<i32>,
    closed: Set<Seq<i32>>,
    before: Multiset<(i64, Rc<StateDiff>)>,
    taken: (i64, Rc<StateDiff>),
    after: Multiset<(i64, Rc<StateDiff>)>,
    seen_before: Set<Seq<i32>>,
    seen_after: Set<Seq<i32>>,
)
    requires
        covers(size, start, goal, closed, before, seen_before),
        before.contains(taken),
        is_path(*taken.1, start),
        taken.1.state.size() == size,
        taken.1.state@ != goal,
        before.remove(taken).subset_of(after),
        forall|e: (i64, Rc<StateDiff>)| #[trigger]
            after.contains(e) ==> before.remove(taken).contains(e) || is_child(
                *e.1,
                taken.1,
                e.1.direction,
            ),
        forall|s: Seq<i32>| #[trigger]
            seen_after.contains(s) ==> seen_before.contains(s) || is_successor(
                successors(size, taken.1.state@, taken.1.direction),
                s,
            ),
        forall|k: int|
            0 <= k < successors(size, taken.1.state@, taken.1.direction).len() ==> {
                let e = #[trigger] successors(size, taken.1.state@, taken.1.direction)[k];
                &&& seen_after.contains(e.1)
                &&& seen_before.contains(e.1) || has_child(after, taken.1, e.0)
            },
    ensures
        covers(size, start, goal, closed.insert(taken.1.state@), after, seen_after),
{
    let node = taken.1;
    let cells = node.state@;
    let all = successors(size, cells, node.direction);
    let closed2 = closed.insert(cells);
    lemma_successors_are_moves(size, cells, node.direction);
    // Every successor is known afterwards.
    assert forall|k: int| 0 <= k < all.len() implies known(closed2, after, (#[trigger] all[k]).1) by {
        if seen_before.contains(all[k].1) {
            lemma_known_kept(closed, before, taken, after, all[k].1);
        } else {
            let e = choose|e: (i64, Rc<StateDiff>)|
                #[trigger] after.contains(e) && e.0 == e.1.score && is_child(*e.1, node, all[k].0);
            assert(e.1.state@ == all[k].1);
        }
    }
    assert(known(closed2, after, start)) by {
        lemma_known_kept(closed, before, taken, after, start);
    }
    assert forall|b: Seq<i32>, d: MoveDirection|
        #![trigger closed2.contains(b), can_move(size, b, d)]
        closed2.contains(b) && can_move(size, b, d) implies known(
        closed2,
        after,
        moved(size, b, d),
    ) by {
        if closed.contains(b) {
            assert(known(closed, before, moved(size, b, d)));
            lemma_known_kept(closed, before, taken, after, moved(size, b, d));
        } else {
            assert(b == cells);
            if d == node.direction.spec_reverse() {
                // The move back leads to the board that the node came from.
                assert(node.prev_state is Some);
                let prev = node.prev_state->Some_0;
                lemma_move_and_back(size, prev.state@, node.direction);
                assert(closed.contains(prev.state@));
            } else {
                lemma_successors_cover(size, cells, node.direction, d);
                let k = choose|k: int|
                    0 <= k < all.len() && #[trigger] all[k] == (d, moved(size, cells, d));
                assert(known(closed2, after, all[k].1));
            }
        }
    }
    assert forall|s: Seq<i32>| #[trigger] seen_after.contains(s) implies known(
        closed2,
        after,
        s,
    ) by {
        if seen_before.contains(s) {
            lemma_known_kept(closed, before, taken, after, s);
        } else {
            let k = choose|k: int| 0 <= k < all.len() && (#[trigger] all[k]).1 == s;
            assert(known(closed2, after, all[k].1));
        }
    }
    assert forall|e: (i64, Rc<StateDiff>)| #[trigger] after.contains(e) implies (
    e.1.prev_state matches Some(p) ==> closed2.contains(p.state@)) by {
        if before.remove(taken).contains(e) {
            assert(before.contains(e));
        }
    }
}

/// No two nodes of the sequence hold the same board.
pub open spec fn boards_differ(nodes: Seq<StateDiff>) -> bool {
    forall|i: int, j: int|
        0 <= i < j < nodes.len() ==> (#[trigger] nodes[i]).state@ != (#[trigger] nodes[j]).state@
}

/// No two nodes of the chain hold the same board, and the boards of all
/// its nodes but the first are in the visited set.
pub open spec fn chain_kept(nodes: Seq<StateDiff>, seen: Set<Seq<i32>>) -> bool {
    &&& boards_differ(nodes)
    &&& forall|i: int| 1 <= i < nodes.len() ==> seen.contains((#[trigger] nodes[i]).state@)
}

/// The only move that leads from the node's board to `start` is the one
/// that undoes the node's own move.
pub open spec fn only_way_back(size: int, node: StateDiff, start: Seq<i32>) -> bool {
    forall|d: MoveDirection| #[trigger]
        can_move(size, node.state@, d) && moved(size, node.state@, d) == start ==> d
            == node.direction.spec_reverse()
}

/// Every board one move from `start` is in the visited set.
pub open spec fn neighbours_seen(size: int, start: Seq<i32>, seen: Set<Seq<i32>>) -> bool {
    forall|d: MoveDirection| #[trigger]
        can_move(size, start, d) ==> seen.contains(moved(size, start, d))
}

/// No move leaves a board as it is.
pub proof fn lemma_move_changes_board(size: int, cells: Seq<i32>, direction: MoveDirection)
    requires
        is_board(size, cells),
        can_move(size, cells, direction),
    ensures
        moved(size, cells, direction) != cells,
{
    lemma_move_and_back(size, cells, direction);
    crate::board::lemma_board_has_value(size, cells, 0);
}

/// A chain stays sound when the visited set grows.
pub proof fn lemma_chain_kept_grows(
    nodes: Seq<StateDiff>,
    before: Set<Seq<i32>>,
    after: Set<Seq<i32>>,
)
    requires
        chain_kept(nodes, before),
        before.subset_of(after),
    ensures
        chain_kept(nodes, after),
{
}

/// A node for a board that is new to the visited set, made of a node with
/// a sound chain, has a sound chain, and can lead back to `start` only by
/// undoing its own move.
pub proof fn lemma_child_is_sound(
    size: int,
    start: Seq<i32>,
    parent: Rc<StateDiff>,
    child: StateDiff,
    before: Set<Seq<i32>>,
    after: Set<Seq<i32>>,
)
    requires
        is_path(*parent, start),
        parent.state.size() == size,
        is_child(child, parent, child.direction),
        chain_kept(chain(*parent), before),
        before.subset_of(after),
        !before.contains(child.state@),
        after.contains(child.state@),
        !after.contains(start),
        parent.state@ == start || neighbours_seen(size, start, before),
    ensures
        chain_kept(chain(child), after),
        only_way_back(size, child, start),
{
    lemma_path_replays(node_at(parent), start);
    let old_chain = chain(node_at(parent));
    let new_chain = chain(child);
    assert(new_chain == old_chain.push(child));
    assert forall|i: int, j: int| 0 <= i < j < new_chain.len() implies (#[trigger] new_chain[i]).state@
        != (#[trigger] new_chain[j]).state@ by {
        if j < old_chain.len() {
            assert(old_chain[i].state@ != old_chain[j].state@);
        } else if i == 0 {
            assert(new_chain[0] == old_chain.first());
        } else {
            assert(before.contains(old_chain[i].state@));
        }
    }
    assert forall|i: int| 1 <= i < new_chain.len() implies after.contains(
        (#[trigger] new_chain[i]).state@,
    ) by {
        if i < old_chain.len() {
            assert(before.contains(old_chain[i].state@));
        }
    }
    let back = child.direction.spec_reverse();
    lemma_move_and_back(size, parent.state@, child.direction);
    assert forall|d: MoveDirection| #[trigger]
        can_move(size, child.state@, d) && moved(size, child.state@, d) == start implies d
        == back by {
        if parent.state@ == start {
            if d != back {
                lemma_moves_differ(size, child.state@, d, back);
            }
        } else {
            lemma_move_and_back(size, child.state@, d);
            assert(can_move(size, start, d.spec_reverse()));
            assert(before.contains(moved(size, start, d.spec_reverse())));
        }
    }
}

/// When every successor of a board is in the visited set, and `last` is
/// no move, every board one move from it is.
pub proof fn lemma_successors_cover_all(
    size: int,
    cells: Seq<i32>,
    last: MoveDirection,
    seen: Set<Seq<i32>>,
)
    requires
        forall|k: int|
            0 <= k < successors(size, cells, last).len() ==> seen.contains(
                (#[trigger] successors(size, cells, last)[k]).1,
            ),
    ensures
        last == MoveDirection::NoMove ==> neighbours_seen(size, cells, seen),
{
    if last == MoveDirection::NoMove {
        assert forall|d: MoveDirection| #[trigger] can_move(size, cells, d) implies seen.contains(
            moved(size, cells, d),
        ) by {
            lemma_successors_cover(size, cells, last, d);
        }
    }
}

/// The successors of a node that can lead back to `start` only by undoing
/// its own move are all different from `start`.
pub proof fn lemma_successors_are_not_start(size: int, start: Seq<i32>, node: StateDiff)
    requires
        only_way_back(size, node, start),
    ensures
        !is_successor(successors(size, node.state@, node.direction), start),
{
    lemma_successors_are_moves(size, node.state@, node.direction);
    let all = successors(size, node.state@, node.direction);
    if is_successor(all, start) {
        let k = choose|k: int| 0 <= k < all.len() && (#[trigger] all[k]).1 == start;
        assert(can_move(size, node.state@, all[k].0) && moved(size, node.state@, all[k].0) == start);
    }
}

} // verus!
