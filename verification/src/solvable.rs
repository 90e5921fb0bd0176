//! The parity pre-check that is made before a search starts.

use vstd::prelude::*;
use crate::board::{index_of_value, is_board, lemma_board_fits, lemma_board_has_value};
use crate::state::State;

verus! {

/// The index at which the goal holds `value`.
pub open spec fn goal_rank(goal: Seq<i32>, value: i32) -> int {
    index_of_value(goal, value as int)
}

/// The value at `k` is owed before the value at `i`: the goal has it
/// earlier.
pub open spec fn owed_before(start: Seq<i32>, goal: Seq<i32>, i: int, k: int) -> bool {
    goal_rank(goal, start[k]) < goal_rank(goal, start[i])
}

/// The number of cells from `i` up to, not including, `to` whose value is
/// owed before the value at `i`.
pub open spec fn owed_on_right(start: Seq<i32>, goal: Seq<i32>, i: int, to: int) -> int
    decreases to - i,
{
    if to <= i {
        0
    } else {
        owed_on_right(start, goal, i, to - 1) + if owed_before(start, goal, i, to - 1) {
            1int
        } else {
            0int
        }
    }
}

/// The inversions counted for the first `n` cells of `start`.
pub open spec fn inversions_prefix(start: Seq<i32>, goal: Seq<i32>, n: int) -> int
    decreases n,
{
    if n <= 0 {
        0
    } else {
        inversions_prefix(start, goal, n - 1) + owed_on_right(
            start,
            goal,
            n - 1,
            start.len() as int,
        )
    }
}

/// The number of pairs of cells that `start` holds in the opposite order
/// to `goal`, the empty slot counted like a tile.
pub open spec fn inversions(start: Seq<i32>, goal: Seq<i32>) -> int {
    inversions_prefix(start, goal, start.len() as int)
}

/// A board has no inversions against itself.
pub proof fn lemma_no_inversions_against_itself(cells: Seq<i32>, n: int)
    requires
        forall|i: int, j: int| 0 <= i < j < cells.len() ==> cells[i] != cells[j],
        0 <= n <= cells.len(),
    ensures
        inversions_prefix(cells, cells, n) == 0,
    decreases n,
{
    if n > 0 {
        lemma_no_inversions_against_itself(cells, n - 1);
        lemma_nothing_owed_on_right(cells, n - 1, cells.len() as int);
    }
}

/// In a board measured against itself, nothing right of a cell is owed
/// before it.
proof fn lemma_nothing_owed_on_right(cells: Seq<i32>, i: int, to: int)
    requires
        forall|i: int, j: int| 0 <= i < j < cells.len() ==> cells[i] != cells[j],
        0 <= i < cells.len(),
        i <= to <= cells.len(),
    ensures
        owed_on_right(cells, cells, i, to) == 0,
    decreases to - i,
{
    if to > i {
        lemma_nothing_owed_on_right(cells, i, to - 1);
        lemma_rank_of_own_value(cells, i);
        lemma_rank_of_own_value(cells, to - 1);
    }
}

/// Where no value occurs twice, a value is found at its own index.
proof fn lemma_rank_of_own_value(cells: Seq<i32>, i: int)
    requires
        forall|i: int, j: int| 0 <= i < j < cells.len() ==> cells[i] != cells[j],
        0 <= i < cells.len(),
    ensures
        goal_rank(cells, cells[i]) == i,
{
    let k = goal_rank(cells, cells[i]);
    if k < i {
        assert(cells[k] != cells[i]);
    } else if i < k {
        assert(cells[i] != cells[k]);
    }
}

/// The index in `goal` of every value.
fn goal_ranks(goal: &State) -> (r: Vec<usize>)
    requires
        goal.wf(),
    ensures
        r@.len() == goal@.len(),
        forall|v: int| 0 <= v < r@.len() ==> #[trigger] r@[v] == index_of_value(goal@, v),
{
    let cells = goal.table();
    let n = cells.len();
    let ghost size = goal.size() as int;
    let mut res: Vec<usize> = vec![0usize; n];
    let mut i: usize = 0;
    while i < n
        invariant
            is_board(size, cells@),
            n == cells@.len(),
            res@.len() == n,
            i <= n,
            forall|j: int| 0 <= j < i ==> res@[#[trigger] cells@[j] as int] == j,
        decreases n - i,
    {
        let v = cells[i];
        let ghost before = res@;
        res.set(v as usize, i);
        proof {
            assert forall|j: int| 0 <= j < i + 1 implies res@[#[trigger] cells@[j] as int] == j by {
                if j < i {
                    assert(cells@[j] != cells@[i as int]);
                    assert(res@[cells@[j] as int] == before[cells@[j] as int]);
                }
            }
        }
        i += 1;
    }
    proof {
        assert forall|v: int| 0 <= v < res@.len() implies #[trigger] res@[v] == index_of_value(
            goal@,
            v,
        ) by {
            lemma_board_has_value(size, goal@, v);
            let j = index_of_value(goal@, v);
            assert(res@[cells@[j] as int] == j);
        }
    }
    res
}

/// The number of pairs of cells that `state` holds in the opposite order
/// to `goal`, the empty slot counted like a tile.
pub fn count_inversions(state: &State, goal: &State) -> (r: u64)
    requires
        state.wf(),
        goal.wf(),
        state.size() == goal.size(),
    ensures
        r == inversions(state@, goal@),
{
    let ranks = goal_ranks(goal);
    let cells = state.table();
    let n = cells.len();
    let ghost size = state.size() as int;
    proof {
        lemma_board_fits(size, state@);
    }
    let mut total: u64 = 0;
    let mut i: usize = 0;
    while i < n
        invariant
            is_board(size, cells@),
            cells@ == state@,
            n == cells@.len(),
            n <= 0x8000_0000,
            ranks@.len() == n,
            forall|v: int| 0 <= v < n ==> #[trigger] ranks@[v] == index_of_value(goal@, v),
            i <= n,
            total == inversions_prefix(cells@, goal@, i as int),
            total <= i * 0x8000_0000,
        decreases n - i,
    {
        let here = ranks[cells[i] as usize];
        let mut owed: u64 = 0;
        let mut k: usize = i;
        while k < n
            invariant
                is_board(size, cells@),
                n == cells@.len(),
                n <= 0x8000_0000,
                ranks@.len() == n,
                forall|v: int| 0 <= v < n ==> #[trigger] ranks@[v] == index_of_value(goal@, v),
                i < n,
                i <= k <= n,
                here == goal_rank(goal@, cells@[i as int]),
                owed == owed_on_right(cells@, goal@, i as int, k as int),
                owed <= k - i,
            decreases n - k,
        {
            if ranks[cells[k] as usize] < here {
                owed = owed + 1;
            }
            k += 1;
        }
        total = total + owed;
        i += 1;
    }
    total
}

/// The parity pre-check: the instance counts as solvable when the number
/// of inversions of `state` against `goal` is even.
pub fn is_solvable(state: &State, goal: &State) -> (r: bool)
    requires
        state.wf(),
        goal.wf(),
        state.size() == goal.size(),
    ensures
        r == (inversions(state@, goal@) % 2 == 0),
{
    count_inversions(state, goal) % 2 == 0
}

} // verus!
