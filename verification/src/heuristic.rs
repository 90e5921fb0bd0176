//! Scores that estimate how far a board is from the goal.

use vstd::prelude::*;
use crate::board::{
    blank_index, can_move, col_of, in_grid, index_of_value, is_board, lemma_board_fits,
    lemma_board_has_value, lemma_coordinates, lemma_index, lemma_move_and_back, moved, row_of,
    target_index,
};
use crate::direction::MoveDirection;
use crate::goal::{lemma_spiral_is_board, positions, spiral_cells, MAX_SIZE};
use crate::state::State;

verus! {

/// The distance between two integers.
pub open spec fn abs_diff(a: int, b: int) -> int {
    if a >= b {
        a - b
    } else {
        b - a
    }
}

/// The distance between two cells when only steps along rows and columns
/// count.
pub open spec fn manhattan(a: (i32, i32), b: (i32, i32)) -> int {
    abs_diff(a.0 as int, b.0 as int) + abs_diff(a.1 as int, b.1 as int)
}

/// `goal` gives a cell of the grid for every value of a board of side
/// `size`.
pub open spec fn is_position_table(size: int, goal: Seq<(i32, i32)>) -> bool {
    &&& goal.len() == size * size
    &&& forall|v: int| 0 <= v < goal.len() ==> in_grid(size, #[trigger] goal[v])
}

/// The coordinate of the cell at index `i`.
pub open spec fn coordinate(size: int, i: int) -> (i32, i32) {
    (row_of(size, i) as i32, col_of(size, i) as i32)
}

/// What the cell at index `i` adds to the sum of distances: the distance
/// of its tile from the tile's place in the goal. The empty slot adds
/// nothing.
pub open spec fn tile_distance(size: int, cells: Seq<i32>, goal: Seq<(i32, i32)>, i: int) -> int {
    if cells[i] == 0 {
        0
    } else {
        manhattan(coordinate(size, i), goal[cells[i] as int])
    }
}

/// The sum of the tiles' distances over the first `n` cells.
pub open spec fn manhattan_prefix(
    size: int,
    cells: Seq<i32>,
    goal: Seq<(i32, i32)>,
    n: int,
) -> int
    decreases n,
{
    if n <= 0 {
        0
    } else {
        manhattan_prefix(size, cells, goal, n - 1) + tile_distance(size, cells, goal, n - 1)
    }
}

/// The sum over all tiles of the distance to the tile's place in the
/// goal.
pub open spec fn manhattan_sum(size: int, cells: Seq<i32>, goal: Seq<(i32, i32)>) -> int {
    manhattan_prefix(size, cells, goal, cells.len() as int)
}

/// The cell at index `i` holds a tile, and the tile is where the goal has
/// it.
pub open spec fn tile_in_place(size: int, cells: Seq<i32>, goal: Seq<(i32, i32)>, i: int) -> bool {
    cells[i] != 0 && goal[cells[i] as int] == coordinate(size, i)
}

/// The number of tiles in place among the first `n` cells.
pub open spec fn placed_prefix(size: int, cells: Seq<i32>, goal: Seq<(i32, i32)>, n: int) -> int
    decreases n,
{
    if n <= 0 {
        0
    } else {
        placed_prefix(size, cells, goal, n - 1) + if tile_in_place(size, cells, goal, n - 1) {
            1int
        } else {
            0int
        }
    }
}

/// The sum of distances less the number of tiles in place.
pub open spec fn manhattan_plus(size: int, cells: Seq<i32>, goal: Seq<(i32, i32)>) -> int {
    manhattan_sum(size, cells, goal) - placed_prefix(size, cells, goal, cells.len() as int)
}

/// The scores that the library computes itself.
#[derive(Copy, Clone, Debug, PartialEq, Eq, Structural)]
pub enum Heuristic {
    /// The sum of the tiles' distances from their places in the goal. It
    /// never exceeds the number of moves that are needed.
    ManhattanSum,
    /// The sum of distances less the number of tiles in place. It can
    /// exceed the number of moves that are needed.
    ManhattanPlus,
}

impl Heuristic {
    /// The score of `cells` against the position table `goal`.
    pub open spec fn spec_score(self, size: int, cells: Seq<i32>, goal: Seq<(i32, i32)>) -> int {
        match self {
            Heuristic::ManhattanSum => manhattan_sum(size, cells, goal),
            Heuristic::ManhattanPlus => manhattan_plus(size, cells, goal),
        }
    }

    /// The score of `state` against the position table `goal`.
    pub fn score(self, state: &State, goal: &Vec<(i32, i32)>) -> (r: i64)
        requires
            state.wf(),
            is_position_table(state.size() as int, goal@),
        ensures
            r == self.spec_score(state.size() as int, state@, goal@),
    {
        match self {
            Heuristic::ManhattanSum => state.total_manhattan_dist(goal),
            Heuristic::ManhattanPlus => state.total_manhattan_dist_plus(goal),
        }
    }
}

/// The distance between two cells when only steps along rows and columns
/// count.
pub fn manhattan_dist(a: (i32, i32), b: (i32, i32)) -> (r: i64)
    ensures
        r == manhattan(a, b),
{
    let dy = a.0 as i64 - b.0 as i64;
    let dx = a.1 as i64 - b.1 as i64;
    let dy = if dy < 0 {
        -dy
    } else {
        dy
    };
    let dx = if dx < 0 {
        -dx
    } else {
        dx
    };
    dy + dx
}

/// The table of a board's own positions gives a cell of the grid for
/// every value.
pub proof fn lemma_positions_are_table(size: int, cells: Seq<i32>)
    requires
        is_board(size, cells),
    ensures
        is_position_table(size, positions(size, cells)),
        forall|i: int|
            0 <= i < cells.len() ==> positions(size, cells)[#[trigger] cells[i] as int]
                == coordinate(size, i),
{
    lemma_board_fits(size, cells);
    let table = positions(size, cells);
    assert forall|v: int| 0 <= v < table.len() implies in_grid(size, #[trigger] table[v]) by {
        lemma_board_has_value(size, cells, v);
        lemma_coordinates(size, index_of_value(cells, v));
    }
    assert forall|i: int| 0 <= i < cells.len() implies table[#[trigger] cells[i] as int]
        == coordinate(size, i) by {
        lemma_board_has_value(size, cells, cells[i] as int);
    }
}

/// Measured against its own positions, a board has every tile at distance
/// zero and every tile in place: the sum of distances is 0, and the sum
/// less the tiles in place is minus the number of tiles.
pub proof fn lemma_scores_at_home(size: int, cells: Seq<i32>)
    requires
        is_board(size, cells),
    ensures
        manhattan_sum(size, cells, positions(size, cells)) == 0,
        manhattan_plus(size, cells, positions(size, cells)) == 1 - size * size,
        size == 1 ==> manhattan_plus(size, cells, positions(size, cells)) == 0,
{
    lemma_scores_at_home_prefix(size, cells, cells.len() as int);
    lemma_board_has_value(size, cells, 0);
}

/// The first `n` cells of a board, measured against the board's own
/// positions.
proof fn lemma_scores_at_home_prefix(size: int, cells: Seq<i32>, n: int)
    requires
        is_board(size, cells),
        0 <= n <= cells.len(),
    ensures
        manhattan_prefix(size, cells, positions(size, cells), n) == 0,
        placed_prefix(size, cells, positions(size, cells), n) == if blank_index(cells) < n {
            n - 1
        } else {
            n
        },
    decreases n,
{
    if n > 0 {
        lemma_scores_at_home_prefix(size, cells, n - 1);
        lemma_positions_are_table(size, cells);
        lemma_board_has_value(size, cells, 0);
        assert(positions(size, cells)[cells[n - 1] as int] == coordinate(size, n - 1));
    }
}

impl State {
    /// The sum over all tiles of the distance to the tile's place in
    /// `goal`. The empty slot is not counted.
    pub fn total_manhattan_dist(&self, goal: &Vec<(i32, i32)>) -> (r: i64)
        requires
            self.wf(),
            is_position_table(self.size() as int, goal@),
        ensures
            r == manhattan_sum(self.size() as int, self@, goal@),
    {
        let size = self.size();
        let cells = self.table();
        let n = cells.len();
        proof {
            lemma_board_fits(size as int, self@);
        }
        let mut total: i64 = 0;
        let mut i: usize = 0;
        while i < n
            invariant
                is_board(size as int, cells@),
                is_position_table(size as int, goal@),
                0 < size <= 46340,
                n == cells@.len(),
                n <= 0x8000_0000,
                i <= n,
                total == manhattan_prefix(size as int, cells@, goal@, i as int),
                0 <= total <= i * 92680,
            decreases n - i,
        {
            proof {
                lemma_coordinates(size as int, i as int);
            }
            let v = cells[i];
            if v != 0 {
                let here = ((i / size) as i32, (i % size) as i32);
                let there = goal[v as usize];
                assert(in_grid(size as int, goal@[v as int]));
                total = total + manhattan_dist(here, there);
            }
            i += 1;
        }
        total
    }

    /// The sum of distances less the number of tiles that are in place.
    /// The empty slot is not counted.
    pub fn total_manhattan_dist_plus(&self, goal: &Vec<(i32, i32)>) -> (r: i64)
        requires
            self.wf(),
            is_position_table(self.size() as int, goal@),
        ensures
            r == manhattan_plus(self.size() as int, self@, goal@),
    {
        let size = self.size();
        let cells = self.table();
        let n = cells.len();
        proof {
            lemma_board_fits(size as int, self@);
        }
        let mut total: i64 = self.total_manhattan_dist(goal);
        proof {
            lemma_manhattan_bound(size as int, cells@, goal@, n as int);
            assert(n * (2 * size) <= n * 92680) by (nonlinear_arith)
                requires
                    0 <= n,
                    size <= 46340,
            ;
        }
        let mut i: usize = 0;
        while i < n
            invariant
                is_board(size as int, cells@),
                is_position_table(size as int, goal@),
                0 < size <= 46340,
                n == cells@.len(),
                n <= 0x8000_0000,
                i <= n,
                0 <= manhattan_sum(size as int, cells@, goal@) <= n * 92680,
                total == manhattan_sum(size as int, cells@, goal@) - placed_prefix(
                    size as int,
                    cells@,
                    goal@,
                    i as int,
                ),
                0 <= placed_prefix(size as int, cells@, goal@, i as int) <= i,
            decreases n - i,
        {
            proof {
                lemma_coordinates(size as int, i as int);
            }
            let v = cells[i];
            if v != 0 {
                let here = ((i / size) as i32, (i % size) as i32);
                let there = goal[v as usize];
                if there.0 == here.0 && there.1 == here.1 {
                    total = total - 1;
                }
            }
            i += 1;
        }
        total
    }
}

/// The sum of distances over `n` cells is at most `n` times the longest
/// way across the grid.
pub proof fn lemma_manhattan_bound(size: int, cells: Seq<i32>, goal: Seq<(i32, i32)>, n: int)
    requires
        is_board(size, cells),
        is_position_table(size, goal),
        0 <= n <= cells.len(),
    ensures
        0 <= manhattan_prefix(size, cells, goal, n) <= n * (2 * size),
    decreases n,
{
    if n > 0 {
        lemma_manhattan_bound(size, cells, goal, n - 1);
        lemma_coordinates(size, n - 1);
        lemma_board_fits(size, cells);
        assert(in_grid(size, goal[cells[n - 1] as int]));
        assert(n * (2 * size) == (n - 1) * (2 * size) + 2 * size) by (nonlinear_arith);
    }
}

/// Where two boards agree on all cells but those at `a` and `b`, their
/// sums over the first `n` cells differ by what these two cells add.
proof fn lemma_prefix_differs_at_two(
    size: int,
    one: Seq<i32>,
    other: Seq<i32>,
    goal: Seq<(i32, i32)>,
    a: int,
    b: int,
    n: int,
)
    requires
        one.len() == other.len(),
        0 <= n <= one.len(),
        0 <= a < one.len(),
        0 <= b < one.len(),
        a != b,
        forall|i: int| 0 <= i < one.len() && i != a && i != b ==> one[i] == other[i],
    ensures
        manhattan_prefix(size, other, goal, n) - manhattan_prefix(size, one, goal, n) == (if a < n {
            tile_distance(size, other, goal, a) - tile_distance(size, one, goal, a)
        } else {
            0
        }) + (if b < n {
            tile_distance(size, other, goal, b) - tile_distance(size, one, goal, b)
        } else {
            0
        }),
    decreases n,
{
    if n > 0 {
        lemma_prefix_differs_at_two(size, one, other, goal, a, b, n - 1);
    }
}

/// A move changes the sum of distances by exactly one, up or down: one
/// tile goes one step.
pub proof fn lemma_move_changes_manhattan_by_one(
    size: int,
    cells: Seq<i32>,
    goal: Seq<(i32, i32)>,
    direction: MoveDirection,
)
    requires
        is_board(size, cells),
        is_position_table(size, goal),
        can_move(size, cells, direction),
    ensures
        manhattan_sum(size, moved(size, cells, direction), goal) == manhattan_sum(
            size,
            cells,
            goal,
        ) + 1 || manhattan_sum(size, moved(size, cells, direction), goal) == manhattan_sum(
            size,
            cells,
            goal,
        ) - 1,
{
    lemma_move_and_back(size, cells, direction);
    lemma_board_has_value(size, cells, 0);
    lemma_board_fits(size, cells);
    let b = blank_index(cells);
    let t = target_index(size, cells, direction);
    let after = moved(size, cells, direction);
    lemma_prefix_differs_at_two(size, cells, after, goal, b, t, cells.len() as int);
    lemma_coordinates(size, b);
    lemma_coordinates(size, t);
    let y = row_of(size, b);
    let x = col_of(size, b);
    assert((y + 1) * size == y * size + size) by (nonlinear_arith);
    assert((y - 1) * size == y * size - size) by (nonlinear_arith);
    match direction {
        MoveDirection::NoMove => {},
        MoveDirection::Up => {
            lemma_index(size, y + 1, x);
        },
        MoveDirection::Down => {
            lemma_index(size, y - 1, x);
        },
        MoveDirection::Left => {
            lemma_index(size, y, x + 1);
        },
        MoveDirection::Right => {
            lemma_index(size, y, x - 1);
        },
    }
    assert(in_grid(size, goal[cells[t] as int]));
}

/// The solved layout scores 0 by the sum of distances against its own
/// positions, and minus the number of its tiles once the tiles in place
/// are taken off; the latter is 0 on the grid of side 1 only.
pub proof fn lemma_goal_scores(size: int)
    requires
        0 < size <= MAX_SIZE,
    ensures
        manhattan_sum(size, spiral_cells(size), positions(size, spiral_cells(size))) == 0,
        manhattan_plus(size, spiral_cells(size), positions(size, spiral_cells(size))) == 1 - size
            * size,
        size == 1 ==> manhattan_plus(size, spiral_cells(size), positions(size, spiral_cells(size)))
            == 0,
{
    lemma_spiral_is_board(size);
    lemma_scores_at_home(size, spiral_cells(size));
}

} // verus!
