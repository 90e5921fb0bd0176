//! The board as a value: validated on construction, never changed
//! afterwards.

use vstd::prelude::*;
use crate::board::{
    blank_index, can_move, in_grid, is_board, lemma_board_fits, lemma_board_has_value,
    lemma_coordinates, lemma_exchanged_is_board, lemma_index, moved, replayed, row_of, col_of,
    successors, successor_entry, target_index,
};
use crate::seqs::exchanged;
use crate::direction::MoveDirection;
use crate::error::PuzzleError;

verus! {

/// A board: `size`×`size` cells in row-major order, holding each of
/// `0..size²−1` once, where 0 is the empty slot.
#[derive(Debug, Hash)]
pub struct State {
    size: usize,
    table: Vec<i32>,
    // Position of the empty (zero) cell, as (row, column)
    empty: (i32, i32),
}

impl View for State {
    type V = Seq<i32>;

    /// The cells in row-major order.
    closed spec fn view(&self) -> Seq<i32> {
        self.table@
    }
}

/// Moves that cannot be replayed up to some point cannot be replayed to
/// the end.
pub proof fn lemma_replay_stays_stuck(size: int, cells: Seq<i32>, moves: Seq<MoveDirection>, n: int)
    requires
        0 <= n <= moves.len(),
        replayed(size, cells, moves.take(n)) is None,
    ensures
        replayed(size, cells, moves) is None,
    decreases moves.len() - n,
{
    if n < moves.len() {
        assert(moves.take(n + 1).drop_last() =~= moves.take(n));
        lemma_replay_stays_stuck(size, cells, moves, n + 1);
    } else {
        assert(moves.take(n) =~= moves);
    }
}

/// The pairs of a successor list with each board taken by its cells.
pub open spec fn successor_views(list: Seq<(MoveDirection, State)>) -> Seq<
    (MoveDirection, Seq<i32>),
> {
    list.map_values(|e: (MoveDirection, State)| (e.0, e.1@))
}

impl State {
    /// The side length.
    pub closed spec fn spec_size(&self) -> usize {
        self.size
    }

    /// The cached coordinate is that of the empty slot.
    pub closed spec fn blank_cached(&self) -> bool {
        &&& 0 <= self.empty.0 < self.size
        &&& 0 <= self.empty.1 < self.size
        &&& self.empty.0 * self.size + self.empty.1 == blank_index(self.table@)
    }

    /// The cells form a board of this size, and the cached coordinate of
    /// the empty slot is right.
    pub open spec fn wf(&self) -> bool {
        &&& is_board(self.spec_size() as int, self@)
        &&& self.blank_cached()
    }

    /// Builds a board from its side length and its cells in row-major
    /// order. Fails unless the cells are an arrangement of `0..size²−1`.
    pub fn new(size: usize, table: Vec<i32>) -> (r: Result<State, PuzzleError>)
        ensures
            r is Ok <==> is_board(size as int, table@),
            r matches Ok(s) ==> s.wf() && s.size() == size && s@ == table@,
            r matches Err(e) ==> e == PuzzleError::InvalidInput,
    {
        let cells = match size.checked_mul(size) {
            Some(n) => n,
            None => {
                assert(table@.len() == table.len() <= usize::MAX < size * size);
                return Err(PuzzleError::InvalidInput);
            },
        };
        if size == 0 || table.len() != cells {
            return Err(PuzzleError::InvalidInput);
        }
        let mut seen: Vec<bool> = vec![false; cells];
        let mut blank: Option<usize> = None;
        let mut i: usize = 0;
        while i < cells
            invariant
                0 < size,
                cells == size * size,
                table.len() == cells,
                seen.len() == cells,
                i <= cells,
                forall|j: int| 0 <= j < i ==> 0 <= #[trigger] table@[j] < cells,
                forall|j: int, k: int| 0 <= j < k < i ==> table@[j] != table@[k],
                forall|v: int|
                    0 <= v < cells ==> (#[trigger] seen@[v] <==> exists|j: int|
                        0 <= j < i && table@[j] == v),
                match blank {
                    Some(b) => b < i && table@[b as int] == 0,
                    None => forall|j: int| 0 <= j < i ==> table@[j] != 0,
                },
            decreases cells - i,
        {
            let v = table[i];
            if v < 0 || v as usize >= cells {
                return Err(PuzzleError::InvalidInput);
            }
            if seen[v as usize] {
                proof {
                    let j = choose|j: int| 0 <= j < i && table@[j] == v;
                    assert(table@[j] == table@[i as int]);
                }
                return Err(PuzzleError::InvalidInput);
            }
            let ghost before = seen@;
            seen.set(v as usize, true);
            if v == 0 {
                blank = Some(i);
            }
            proof {
                assert forall|w: int| 0 <= w < cells implies (#[trigger] seen@[w] <==> exists|
                    j: int,
                | 0 <= j < i + 1 && table@[j] == w) by {
                    if w == v {
                        assert(table@[i as int] == w);
                    } else {
                        assert(seen@[w] == before[w]);
                        if before[w] {
                            let j = choose|j: int| 0 <= j < i && table@[j] == w;
                            assert(0 <= j < i + 1 && table@[j] == w);
                        }
                    }
                }
            }
            i += 1;
        }
        match blank {
            None => Err(PuzzleError::InvalidInput),
            Some(b) => {
                proof {
                    assert(is_board(size as int, table@));
                    lemma_board_fits(size as int, table@);
                    lemma_coordinates(size as int, b as int);
                    lemma_board_has_value(size as int, table@, 0);
                }
                let empty = ((b / size) as i32, (b % size) as i32);
                Ok(State { size, table, empty })
            },
        }
    }

    /// The cells in row-major order.
    pub fn table(&self) -> (r: &Vec<i32>)
        ensures
            r@ == self@,
    {
        &self.table
    }

    /// The side length.
    #[verifier::when_used_as_spec(spec_size)]
    pub fn size(&self) -> (r: usize)
        ensures
            r == self.spec_size(),
    {
        self.size
    }

    /// The value of the cell at `pos`, given as (row, column), or `None`
    /// where `pos` lies outside the grid.
    pub fn at(&self, pos: (i32, i32)) -> (r: Option<i32>)
        requires
            self.wf(),
        ensures
            in_grid(self.size() as int, pos) ==> r == Some(self@[pos.0 * self.size() + pos.1]),
            !in_grid(self.size() as int, pos) ==> r is None,
    {
        let (y, x) = pos;
        if y < 0 || x < 0 || y as usize >= self.size || x as usize >= self.size {
            return None;
        }
        let row = y as usize;
        let col = x as usize;
        proof {
            lemma_index(self.size as int, row as int, col as int);
            assert(self.table.len() == self.size * self.size);
        }
        Some(self.table[row * self.size + col])
    }

    /// Every cell with its coordinate, in row-major order.
    pub fn cells(&self) -> (r: Vec<((i32, i32), i32)>)
        requires
            self.wf(),
        ensures
            r@.len() == self@.len(),
            forall|i: int|
                0 <= i < r@.len() ==> #[trigger] r@[i] == (
                    (row_of(self.size() as int, i) as i32, col_of(self.size() as int, i) as i32),
                    self@[i],
                ),
    {
        proof {
            lemma_board_fits(self.size as int, self.table@);
        }
        let n = self.table.len();
        let mut res: Vec<((i32, i32), i32)> = Vec::with_capacity(n);
        let mut i: usize = 0;
        while i < n
            invariant
                0 < self.size <= 46340,
                n == self.table@.len(),
                n == self.size * self.size,
                i <= n,
                res@.len() == i,
                forall|k: int|
                    0 <= k < i ==> #[trigger] res@[k] == (
                        (row_of(self.size as int, k) as i32, col_of(self.size as int, k) as i32),
                        self.table@[k],
                    ),
            decreases n - i,
        {
            proof {
                lemma_coordinates(self.size as int, i as int);
            }
            let y = (i / self.size) as i32;
            let x = (i % self.size) as i32;
            res.push(((y, x), self.table[i]));
            i += 1;
        }
        res
    }

    /// The board after a tile has slid in `direction`, or `None` where no
    /// tile can slide that way. `self` is not changed.
    pub fn apply(&self, direction: MoveDirection) -> (r: Option<State>)
        requires
            self.wf(),
        ensures
            r is Some <==> can_move(self.size() as int, self@, direction),
            r matches Some(s) ==> s.wf() && s.size() == self.size() && s@ == moved(
                self.size() as int,
                self@,
                direction,
            ),
    {
        let size = self.size;
        let y = self.empty.0 as usize;
        let x = self.empty.1 as usize;
        proof {
            lemma_board_fits(size as int, self.table@);
            lemma_index(size as int, y as int, x as int);
        }
        let (ty, tx) = match direction {
            MoveDirection::NoMove => {
                return None;
            },
            MoveDirection::Up => {
                if y + 1 < size {
                    (y + 1, x)
                } else {
                    return None;
                }
            },
            MoveDirection::Down => {
                if y > 0 {
                    (y - 1, x)
                } else {
                    return None;
                }
            },
            MoveDirection::Left => {
                if x + 1 < size {
                    (y, x + 1)
                } else {
                    return None;
                }
            },
            MoveDirection::Right => {
                if x > 0 {
                    (y, x - 1)
                } else {
                    return None;
                }
            },
        };
        proof {
            lemma_index(size as int, ty as int, tx as int);
            assert((y + 1) * size == y * size + size) by (nonlinear_arith);
            assert((y - 1) * size == y * size - size) by (nonlinear_arith);
        }
        let from = y * size + x;
        let to = ty * size + tx;
        assert(to == target_index(size as int, self.table@, direction));
        let mut table = self.table.clone();
        let tile = table[to];
        table.set(from, tile);
        table.set(to, 0);
        proof {
            assert(table@ =~= exchanged(self.table@, from as int, to as int));
            lemma_exchanged_is_board(size as int, self.table@, from as int, to as int);
            lemma_board_has_value(size as int, table@, 0);
        }
        Some(State { size, table, empty: (ty as i32, tx as i32) })
    }

    /// The board after the given moves have been made in turn, or `None`
    /// where one of them cannot be made. `self` is not changed.
    pub fn replay(&self, moves: &Vec<MoveDirection>) -> (r: Option<State>)
        requires
            self.wf(),
        ensures
            r is Some <==> replayed(self.size() as int, self@, moves@) is Some,
            r matches Some(s) ==> s.wf() && s.size() == self.size() && Some(s@) == replayed(
                self.size() as int,
                self@,
                moves@,
            ),
    {
        let mut current = self.clone();
        let mut i: usize = 0;
        while i < moves.len()
            invariant
                i <= moves@.len(),
                current.wf(),
                current.size() == self.size(),
                replayed(self.size() as int, self@, moves@.take(i as int)) == Some(current@),
            decreases moves@.len() - i,
        {
            proof {
                assert(moves@.take(i + 1).drop_last() =~= moves@.take(i as int));
            }
            match current.apply(moves[i]) {
                Some(next) => {
                    current = next;
                },
                None => {
                    proof {
                        lemma_replay_stays_stuck(self.size() as int, self@, moves@, i + 1);
                    }
                    return None;
                },
            }
            i += 1;
        }
        proof {
            assert(moves@.take(moves@.len() as int) =~= moves@);
        }
        Some(current)
    }

    /// The boards one move away, each with the direction of its move, in
    /// the order up, down, left, right. The move that would undo
    /// `last_direction` is left out. `self` is not changed.
    pub fn moves(&self, last_direction: MoveDirection) -> (r: Vec<(MoveDirection, State)>)
        requires
            self.wf(),
        ensures
            successor_views(r@) == successors(self.size() as int, self@, last_direction),
            r@.len() <= 4,
            forall|k: int|
                0 <= k < r@.len() ==> (#[trigger] r@[k]).1.wf() && r@[k].1.size() == self.size(),
    {
        let mut res: Vec<(MoveDirection, State)> = Vec::with_capacity(4);
        let skip = last_direction.reverse();
        let ghost size = self.size() as int;
        let ghost last = last_direction;
        if skip != MoveDirection::Up {
            if let Some(s) = self.apply(MoveDirection::Up) {
                res.push((MoveDirection::Up, s));
            }
        }
        assert(successor_views(res@) =~= successor_entry(size, self@, last, MoveDirection::Up));
        if skip != MoveDirection::Down {
            if let Some(s) = self.apply(MoveDirection::Down) {
                res.push((MoveDirection::Down, s));
            }
        }
        assert(successor_views(res@) =~= successor_entry(size, self@, last, MoveDirection::Up)
            + successor_entry(size, self@, last, MoveDirection::Down));
        if skip != MoveDirection::Left {
            if let Some(s) = self.apply(MoveDirection::Left) {
                res.push((MoveDirection::Left, s));
            }
        }
        assert(successor_views(res@) =~= successor_entry(size, self@, last, MoveDirection::Up)
            + successor_entry(size, self@, last, MoveDirection::Down) + successor_entry(
            size,
            self@,
            last,
            MoveDirection::Left,
        ));
        if skip != MoveDirection::Right {
            if let Some(s) = self.apply(MoveDirection::Right) {
                res.push((MoveDirection::Right, s));
            }
        }
        assert(successor_views(res@) =~= successors(size, self@, last));
        res
    }
}

impl Clone for State {
    /// A board with the same cells.
    fn clone(&self) -> (r: State)
        ensures
            r@ == self@,
            r.size() == self.size(),
            self.wf() ==> r.wf(),
    {
        State { size: self.size, table: self.table.clone(), empty: self.empty }
    }
}

impl PartialEq for State {
    /// Two boards are equal when their cells are.
    fn eq(&self, other: &State) -> (r: bool) {
        let r = self.table == other.table;
        proof {
            if r {
                assert(self.table@ =~= other.table@);
            }
        }
        r
    }
}

impl vstd::std_specs::cmp::PartialEqSpecImpl for State {
    open spec fn obeys_eq_spec() -> bool {
        true
    }

    open spec fn eq_spec(&self, other: &State) -> bool {
        self@ == other@
    }
}

impl Eq for State {

}

} // verus!
