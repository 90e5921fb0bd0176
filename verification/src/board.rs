//! The mathematical model of a board: a sequence of cells in row-major
//! order, and what a move does to it.

use vstd::prelude::*;
use vstd::set_lib::*;
use crate::direction::MoveDirection;
use crate::seqs::exchanged;

verus! {

/// `cells` is an arrangement of the values `0..size²−1` on a `size`×`size`
/// grid: every value is in range, no value occurs twice, and one cell is the
/// empty slot.
pub open spec fn is_board(size: int, cells: Seq<i32>) -> bool {
    &&& 0 < size
    &&& cells.len() == size * size
    &&& forall|i: int| 0 <= i < cells.len() ==> 0 <= #[trigger] cells[i] < cells.len()
    &&& forall|i: int, j: int| 0 <= i < j < cells.len() ==> cells[i] != cells[j]
    &&& exists|i: int| 0 <= i < cells.len() && cells[i] == 0
}

/// Some index at which `cells` holds `value`; on a board there is one such
/// index for every value in range.
pub open spec fn index_of_value(cells: Seq<i32>, value: int) -> int {
    choose|i: int| 0 <= i < cells.len() && cells[i] == value
}

/// The index of the empty slot.
pub open spec fn blank_index(cells: Seq<i32>) -> int {
    index_of_value(cells, 0)
}

/// The index at which the empty slot arrives when a tile slides in
/// `direction`.
pub open spec fn target_index(size: int, cells: Seq<i32>, direction: MoveDirection) -> int {
    let b = blank_index(cells);
    match direction {
        MoveDirection::NoMove => b,
        MoveDirection::Up => b + size,
        MoveDirection::Down => b - size,
        MoveDirection::Left => b + 1,
        MoveDirection::Right => b - 1,
    }
}

/// A tile can slide in `direction`: the empty slot has a neighbour on the
/// side the tile comes from.
pub open spec fn can_move(size: int, cells: Seq<i32>, direction: MoveDirection) -> bool {
    let b = blank_index(cells);
    match direction {
        MoveDirection::NoMove => false,
        MoveDirection::Up => b / size + 1 < size,
        MoveDirection::Down => b / size >= 1,
        MoveDirection::Left => b % size + 1 < size,
        MoveDirection::Right => b % size >= 1,
    }
}

/// The board after a tile has slid in `direction`: the empty slot and the
/// neighbouring tile have changed places.
pub open spec fn moved(size: int, cells: Seq<i32>, direction: MoveDirection) -> Seq<i32> {
    exchanged(cells, blank_index(cells), target_index(size, cells, direction))
}

/// The successor in `direction`, unless no tile can slide that way or the
/// move would undo `last`.
pub open spec fn successor_entry(
    size: int,
    cells: Seq<i32>,
    last: MoveDirection,
    direction: MoveDirection,
) -> Seq<(MoveDirection, Seq<i32>)> {
    if can_move(size, cells, direction) && direction != last.spec_reverse() {
        seq![(direction, moved(size, cells, direction))]
    } else {
        Seq::empty()
    }
}

/// The successors of a board, in the order up, down, left, right.
pub open spec fn successors(size: int, cells: Seq<i32>, last: MoveDirection) -> Seq<
    (MoveDirection, Seq<i32>),
> {
    successor_entry(size, cells, last, MoveDirection::Up) + successor_entry(
        size,
        cells,
        last,
        MoveDirection::Down,
    ) + successor_entry(size, cells, last, MoveDirection::Left) + successor_entry(
        size,
        cells,
        last,
        MoveDirection::Right,
    )
}

/// The board that a sequence of moves makes of `cells`, or `None` where
/// one of the moves cannot be made.
pub open spec fn replayed(size: int, cells: Seq<i32>, moves: Seq<MoveDirection>) -> Option<
    Seq<i32>,
>
    decreases moves.len(),
{
    if moves.len() == 0 {
        Some(cells)
    } else {
        match replayed(size, cells, moves.drop_last()) {
            Some(before) => if can_move(size, before, moves.last()) {
                Some(moved(size, before, moves.last()))
            } else {
                None
            },
            None => None,
        }
    }
}

/// The row of the cell at index `i`.
pub open spec fn row_of(size: int, i: int) -> int {
    i / size
}

/// The column of the cell at index `i`.
pub open spec fn col_of(size: int, i: int) -> int {
    i % size
}

/// `pos` names a cell of the grid, as (row, column).
pub open spec fn in_grid(size: int, pos: (i32, i32)) -> bool {
    0 <= pos.0 < size && 0 <= pos.1 < size
}

/// An index below `size²` splits into a row and a column of the grid.
pub proof fn lemma_coordinates(size: int, i: int)
    requires
        0 < size,
        0 <= i < size * size,
    ensures
        0 <= row_of(size, i) < size,
        0 <= col_of(size, i) < size,
        row_of(size, i) * size + col_of(size, i) == i,
{
    vstd::arithmetic::div_mod::lemma_fundamental_div_mod(i, size);
    vstd::arithmetic::div_mod::lemma_mod_bound(i, size);
    let q = i / size;
    let r = i % size;
    assert(0 <= q < size) by (nonlinear_arith)
        requires
            0 < size,
            0 <= i < size * size,
            0 <= r < size,
            i == size * q + r,
    ;
    assert(q * size == size * q) by (nonlinear_arith);
}

/// A row and a column of the grid join into an index below `size²`.
pub proof fn lemma_index(size: int, y: int, x: int)
    requires
        0 <= y < size,
        0 <= x < size,
    ensures
        0 <= y * size + x < size * size,
        row_of(size, y * size + x) == y,
        col_of(size, y * size + x) == x,
{
    assert(0 <= y * size && y * size + size <= size * size) by (nonlinear_arith)
        requires
            0 <= y < size,
    ;
    vstd::arithmetic::div_mod::lemma_fundamental_div_mod_converse(y * size + x, size, y, x);
}

/// The cells as mathematical integers.
pub open spec fn as_ints(cells: Seq<i32>) -> Seq<int> {
    cells.map_values(|v: i32| v as int)
}

/// On a board every value of `0..size²−1` occurs, at exactly one index.
pub proof fn lemma_board_has_value(size: int, cells: Seq<i32>, value: int)
    requires
        is_board(size, cells),
        0 <= value < cells.len(),
    ensures
        0 <= index_of_value(cells, value) < cells.len(),
        cells[index_of_value(cells, value)] == value,
        forall|i: int| 0 <= i < cells.len() && cells[i] == value ==> i == index_of_value(cells, value),
{
    let s = as_ints(cells);
    let n = cells.len() as int;
    assert(s.no_duplicates()) by {
        assert forall|i: int, j: int| 0 <= i < s.len() && 0 <= j < s.len() && i != j implies s[i]
            != s[j] by {
            if i < j {
                assert(cells[i] != cells[j]);
            } else {
                assert(cells[j] != cells[i]);
            }
        }
    }
    s.unique_seq_to_set();
    lemma_int_range(0, n);
    assert(s.to_set().subset_of(set_int_range(0, n))) by {
        assert forall|v: int| s.to_set().contains(v) implies set_int_range(0, n).contains(v) by {
            let i = choose|i: int| 0 <= i < s.len() && s[i] == v;
            assert(0 <= cells[i] < n);
        }
    }
    lemma_subset_equality(s.to_set(), set_int_range(0, n));
    assert(set_int_range(0, n).contains(value));
    assert(s.to_set().contains(value));
    let w = choose|i: int| 0 <= i < s.len() && s[i] == value;
    assert(cells[w] == value);
    let k = index_of_value(cells, value);
    assert forall|i: int| 0 <= i < cells.len() && cells[i] == value implies i == k by {
        if i < k {
            assert(cells[i] != cells[k]);
        } else if k < i {
            assert(cells[k] != cells[i]);
        }
    }
}

/// A board has at most 2³¹ cells, since its values are `i32`.
pub proof fn lemma_board_fits(size: int, cells: Seq<i32>)
    requires
        is_board(size, cells),
    ensures
        cells.len() <= 0x8000_0000,
        size <= 46340,
{
    assert(cells.len() <= 0x8000_0000) by {
        if cells.len() > 0x8000_0000 {
            lemma_board_has_value(size, cells, 0x8000_0000);
        }
    }
    assert(size <= 46340) by (nonlinear_arith)
        requires
            0 < size,
            size * size <= 0x8000_0000,
    ;
}

/// Exchanging two cells of a board leaves a board.
pub proof fn lemma_exchanged_is_board(size: int, cells: Seq<i32>, i: int, j: int)
    requires
        is_board(size, cells),
        0 <= i < cells.len(),
        0 <= j < cells.len(),
    ensures
        is_board(size, exchanged(cells, i, j)),
{
    let s = exchanged(cells, i, j);
    assert forall|a: int, b: int| 0 <= a < b < s.len() implies s[a] != s[b] by {
        let pa = if a == i { j } else if a == j { i } else { a };
        let pb = if b == i { j } else if b == j { i } else { b };
        assert(s[a] == cells[pa]);
        assert(s[b] == cells[pb]);
        if pa < pb {
            assert(cells[pa] != cells[pb]);
        } else {
            assert(cells[pb] != cells[pa]);
        }
    }
    let z = choose|z: int| 0 <= z < cells.len() && cells[z] == 0;
    let pz = if z == i { j } else if z == j { i } else { z };
    assert(s[pz] == 0);
    assert forall|a: int| 0 <= a < s.len() implies 0 <= #[trigger] s[a] < s.len() by {
        let pa = if a == i { j } else if a == j { i } else { a };
        assert(s[a] == cells[pa]);
    }
}

/// Every successor is the board that its own move makes, the move can be
/// made, and it does not undo `last`.
pub proof fn lemma_successors_are_moves(size: int, cells: Seq<i32>, last: MoveDirection)
    ensures
        successors(size, cells, last).len() <= 4,
        forall|k: int|
            0 <= k < successors(size, cells, last).len() ==> {
                let e = #[trigger] successors(size, cells, last)[k];
                &&& can_move(size, cells, e.0)
                &&& e.0 != last.spec_reverse()
                &&& e.1 == moved(size, cells, e.0)
            },
{
    let a = successor_entry(size, cells, last, MoveDirection::Up);
    let b = successor_entry(size, cells, last, MoveDirection::Down);
    let c = successor_entry(size, cells, last, MoveDirection::Left);
    let d = successor_entry(size, cells, last, MoveDirection::Right);
    let all = successors(size, cells, last);
    assert(all == a + b + c + d);
    assert forall|k: int| 0 <= k < all.len() implies {
        let e = #[trigger] all[k];
        &&& can_move(size, cells, e.0)
        &&& e.0 != last.spec_reverse()
        &&& e.1 == moved(size, cells, e.0)
    } by {
        if k < a.len() {
            assert(all[k] == a[k]);
        } else if k < a.len() + b.len() {
            assert(all[k] == b[k - a.len()]);
        } else if k < a.len() + b.len() + c.len() {
            assert(all[k] == c[k - a.len() - b.len()]);
        } else {
            assert(all[k] == d[k - a.len() - b.len() - c.len()]);
        }
    }
}

/// Every move that can be made and does not undo `last` has its entry
/// among the successors.
pub proof fn lemma_successors_cover(
    size: int,
    cells: Seq<i32>,
    last: MoveDirection,
    direction: MoveDirection,
)
    requires
        can_move(size, cells, direction),
        direction != last.spec_reverse(),
    ensures
        exists|k: int|
            0 <= k < successors(size, cells, last).len() && #[trigger] successors(
                size,
                cells,
                last,
            )[k] == (direction, moved(size, cells, direction)),
{
    let a = successor_entry(size, cells, last, MoveDirection::Up);
    let b = successor_entry(size, cells, last, MoveDirection::Down);
    let c = successor_entry(size, cells, last, MoveDirection::Left);
    let d = successor_entry(size, cells, last, MoveDirection::Right);
    let all = successors(size, cells, last);
    assert(all == a + b + c + d);
    let k = match direction {
        MoveDirection::Up => 0,
        MoveDirection::Down => a.len() as int,
        MoveDirection::Left => (a.len() + b.len()) as int,
        _ => (a.len() + b.len() + c.len()) as int,
    };
    assert(all[k] == (direction, moved(size, cells, direction)));
}

/// No two successors of a board come by the same move or hold the same
/// cells.
pub proof fn lemma_successors_differ(size: int, cells: Seq<i32>, last: MoveDirection)
    requires
        is_board(size, cells),
    ensures
        forall|j: int, k: int|
            0 <= j < k < successors(size, cells, last).len() ==> {
                &&& (#[trigger] successors(size, cells, last)[j]).0 != (#[trigger] successors(
                    size,
                    cells,
                    last,
                )[k]).0
                &&& successors(size, cells, last)[j].1 != successors(size, cells, last)[k].1
            },
{
    let a = successor_entry(size, cells, last, MoveDirection::Up);
    let b = successor_entry(size, cells, last, MoveDirection::Down);
    let c = successor_entry(size, cells, last, MoveDirection::Left);
    let d = successor_entry(size, cells, last, MoveDirection::Right);
    let all = successors(size, cells, last);
    assert(all == a + b + c + d);
    lemma_successors_are_moves(size, cells, last);
    assert forall|j: int, k: int| 0 <= j < k < all.len() implies {
        &&& (#[trigger] all[j]).0 != (#[trigger] all[k]).0
        &&& all[j].1 != all[k].1
    } by {
        assert(all[j].0 != all[k].0) by {
            if j < a.len() {
                assert(all[j] == a[j]);
            } else if j < a.len() + b.len() {
                assert(all[j] == b[j - a.len()]);
            } else if j < a.len() + b.len() + c.len() {
                assert(all[j] == c[j - a.len() - b.len()]);
            } else {
                assert(all[j] == d[j - a.len() - b.len() - c.len()]);
            }
            if k < a.len() {
                assert(all[k] == a[k]);
            } else if k < a.len() + b.len() {
                assert(all[k] == b[k - a.len()]);
            } else if k < a.len() + b.len() + c.len() {
                assert(all[k] == c[k - a.len() - b.len()]);
            } else {
                assert(all[k] == d[k - a.len() - b.len() - c.len()]);
            }
        }
        lemma_moves_differ(size, cells, all[j].0, all[k].0);
    }
}

/// Two different moves make different boards of a board.
pub proof fn lemma_moves_differ(
    size: int,
    cells: Seq<i32>,
    one: MoveDirection,
    other: MoveDirection,
)
    requires
        is_board(size, cells),
        can_move(size, cells, one),
        can_move(size, cells, other),
        one != other,
    ensures
        moved(size, cells, one) != moved(size, cells, other),
{
    lemma_move_and_back(size, cells, one);
    lemma_move_and_back(size, cells, other);
    let t1 = target_index(size, cells, one);
    let t2 = target_index(size, cells, other);
    let b = blank_index(cells);
    lemma_board_has_value(size, cells, 0);
    lemma_coordinates(size, b);
    assert(size >= 2) by {
        if size == 1 {
            assert(cells.len() == 1) by (nonlinear_arith)
                requires
                    cells.len() == size * size,
                    size == 1,
            ;
        }
    }
    assert(t1 != t2);
    assert(moved(size, cells, one)[t1] == 0);
    assert(moved(size, cells, other)[t1] == cells[t1]);
}

/// A move exchanges the empty slot with a tile next to it and leaves every
/// other cell as it was; the result is a board again, and the opposite
/// move leads back.
pub proof fn lemma_move_and_back(size: int, cells: Seq<i32>, direction: MoveDirection)
    requires
        is_board(size, cells),
        can_move(size, cells, direction),
    ensures
        is_board(size, moved(size, cells, direction)),
        0 <= target_index(size, cells, direction) < cells.len(),
        blank_index(moved(size, cells, direction)) == target_index(size, cells, direction),
        moved(size, cells, direction)[blank_index(cells)] == cells[target_index(
            size,
            cells,
            direction,
        )],
        cells[target_index(size, cells, direction)] != 0,
        forall|i: int|
            0 <= i < cells.len() && i != blank_index(cells) && i != target_index(
                size,
                cells,
                direction,
            ) ==> moved(size, cells, direction)[i] == cells[i],
        can_move(size, moved(size, cells, direction), direction.spec_reverse()),
        moved(size, moved(size, cells, direction), direction.spec_reverse()) == cells,
{
    lemma_board_has_value(size, cells, 0);
    let b = blank_index(cells);
    let t = target_index(size, cells, direction);
    lemma_coordinates(size, b);
    let y = row_of(size, b);
    let x = col_of(size, b);
    let (ty, tx) = match direction {
        MoveDirection::NoMove => (y, x),
        MoveDirection::Up => (y + 1, x),
        MoveDirection::Down => (y - 1, x),
        MoveDirection::Left => (y, x + 1),
        MoveDirection::Right => (y, x - 1),
    };
    assert((y + 1) * size == y * size + size) by (nonlinear_arith);
    assert((y - 1) * size == y * size - size) by (nonlinear_arith);
    assert(t == ty * size + tx);
    lemma_index(size, ty, tx);
    let after = moved(size, cells, direction);
    lemma_exchanged_is_board(size, cells, b, t);
    lemma_board_has_value(size, after, 0);
    assert(after[t] == 0);
    assert(blank_index(after) == t);
    assert(cells[t] != 0) by {
        if b < t {
            assert(cells[b] != cells[t]);
        } else {
            assert(cells[t] != cells[b]);
        }
    }
    assert(target_index(size, after, direction.spec_reverse()) == b);
    assert(moved(size, after, direction.spec_reverse()) =~= cells);
}

} // verus!
