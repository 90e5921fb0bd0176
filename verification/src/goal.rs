//! The solved layout: the values 1, 2, 3, … laid along a clockwise spiral
//! from the top-left corner inwards, with the empty slot on the last cell
//! of the spiral.

use vstd::prelude::*;
use crate::board::{
    col_of, index_of_value, is_board, lemma_board_fits, lemma_board_has_value, lemma_coordinates,
    lemma_index, row_of,
};
use crate::state::State;

verus! {

/// The smaller of two integers.
pub open spec fn min2(a: int, b: int) -> int {
    if a <= b {
        a
    } else {
        b
    }
}

/// The ring of the grid that the cell lies on, counted from the border
/// inwards: its distance to the nearest edge.
pub open spec fn ring_of(size: int, y: int, x: int) -> int {
    min2(min2(y, x), min2(size - 1 - y, size - 1 - x))
}

/// The number of cells on the rings outside ring `k`.
pub open spec fn ring_base(size: int, k: int) -> int {
    4 * k * (size - k)
}

/// The place of a cell in the spiral, counted from 0 at the top-left
/// corner. A ring is walked along its top row from left to right, down its
/// right column, along its bottom row from right to left and up its left
/// column.
pub open spec fn spiral_rank(size: int, y: int, x: int) -> int {
    let k = ring_of(size, y, x);
    let m = size - 2 * k;
    let r = y - k;
    let c = x - k;
    if r == 0 {
        ring_base(size, k) + c
    } else if c == m - 1 {
        ring_base(size, k) + (m - 1) + r
    } else if r == m - 1 {
        ring_base(size, k) + 2 * (m - 1) + (m - 1 - c)
    } else {
        ring_base(size, k) + 3 * (m - 1) + (m - 1 - r)
    }
}

/// The value of a cell in the solved layout: one more than its place in
/// the spiral, but the empty slot on the last place.
pub open spec fn spiral_value(size: int, y: int, x: int) -> int {
    let rank = spiral_rank(size, y, x);
    if rank + 1 == size * size {
        0
    } else {
        rank + 1
    }
}

/// The solved layout of a grid of side `size`, in row-major order.
pub open spec fn spiral_cells(size: int) -> Seq<i32> {
    Seq::new(
        (size * size) as nat,
        |i: int| spiral_value(size, row_of(size, i), col_of(size, i)) as i32,
    )
}

/// The coordinate of `value` on a board, as (row, column).
pub open spec fn position_of(size: int, cells: Seq<i32>, value: int) -> (i32, i32) {
    let i = index_of_value(cells, value);
    (row_of(size, i) as i32, col_of(size, i) as i32)
}

/// The table that gives the coordinate of each value on a board.
pub open spec fn positions(size: int, cells: Seq<i32>) -> Seq<(i32, i32)> {
    Seq::new(cells.len(), |v: int| position_of(size, cells, v))
}

/// The cell at row `y` and column `x` of a table in row-major order.
pub open spec fn cell_at(table: Seq<i32>, size: int, y: int, x: int) -> int {
    table[y * size + x] as int
}

/// The rings outside ring `k` and the square that ring `k` encloses make up
/// the grid.
pub proof fn lemma_ring_base(size: int, k: int)
    ensures
        ring_base(size, k) + (size - 2 * k) * (size - 2 * k) == size * size,
        ring_base(size, k + 1) == ring_base(size, k) + 4 * (size - 2 * k - 1),
{
    assert(4 * k * (size - k) + (size - 2 * k) * (size - 2 * k) == size * size)
        by (nonlinear_arith);
    assert(4 * (k + 1) * (size - (k + 1)) == 4 * k * (size - k) + 4 * (size - 2 * k - 1))
        by (nonlinear_arith);
}

/// Inner rings start later in the spiral than outer rings end.
pub proof fn lemma_ring_base_grows(size: int, j: int, k: int)
    requires
        0 <= j <= k,
        2 * k <= size,
    ensures
        ring_base(size, j) <= ring_base(size, k),
    decreases k - j,
{
    if j < k {
        lemma_ring_base(size, j);
        lemma_ring_base_grows(size, j + 1, k);
    }
}

/// The places of a ring's cells lie between the ring's first place and
/// the next ring's first place.
pub proof fn lemma_rank_in_ring(size: int, y: int, x: int)
    requires
        0 <= y < size,
        0 <= x < size,
    ensures
        0 <= ring_of(size, y, x),
        2 * ring_of(size, y, x) <= size - 1,
        ring_base(size, ring_of(size, y, x)) <= spiral_rank(size, y, x),
        size - 2 * ring_of(size, y, x) >= 2 ==> spiral_rank(size, y, x) < ring_base(
            size,
            ring_of(size, y, x) + 1,
        ),
        size - 2 * ring_of(size, y, x) == 1 ==> spiral_rank(size, y, x) == ring_base(
            size,
            ring_of(size, y, x),
        ),
        0 <= spiral_rank(size, y, x) < size * size,
{
    let k = ring_of(size, y, x);
    lemma_ring_base(size, k);
    lemma_ring_base_grows(size, 0, k);
    let m = size - 2 * k;
    assert(ring_base(size, 0) == 0);
    if m >= 2 {
        assert(m * m >= 4 * (m - 1)) by (nonlinear_arith)
            requires
                m >= 2,
        ;
    } else {
        assert(m == 1);
        assert(m * m == 1);
    }
}

/// No two cells have the same place in the spiral.
pub proof fn lemma_rank_injective(size: int, y1: int, x1: int, y2: int, x2: int)
    requires
        0 <= y1 < size,
        0 <= x1 < size,
        0 <= y2 < size,
        0 <= x2 < size,
        spiral_rank(size, y1, x1) == spiral_rank(size, y2, x2),
    ensures
        y1 == y2,
        x1 == x2,
{
    let k1 = ring_of(size, y1, x1);
    let k2 = ring_of(size, y2, x2);
    lemma_rank_in_ring(size, y1, x1);
    lemma_rank_in_ring(size, y2, x2);
    if k1 < k2 {
        lemma_ring_base_grows(size, k1 + 1, k2);
    } else if k2 < k1 {
        lemma_ring_base_grows(size, k2 + 1, k1);
    }
    assert(k1 == k2);
}

/// The last place of the spiral is the centre of a grid of odd side, and
/// the cell left of the centre's lower right for an even side.
pub proof fn lemma_last_rank(size: int)
    requires
        0 < size,
    ensures
        0 <= size / 2 < size,
        0 <= (size - 1) / 2 < size,
        spiral_rank(size, size / 2, (size - 1) / 2) + 1 == size * size,
{
    let y = size / 2;
    let x = (size - 1) / 2;
    let k = ring_of(size, y, x);
    assert(k == x);
    lemma_ring_base(size, k);
    let m = size - 2 * k;
    if size % 2 == 1 {
        assert(m * m == 1) by (nonlinear_arith)
            requires
                m == 1,
        ;
    } else {
        assert(m * m == 4) by (nonlinear_arith)
            requires
                m == 2,
        ;
    }
}

/// The largest side of a grid whose values fit the cells' type.
pub const MAX_SIZE: usize = 46340;

/// The solved layout is a board: a permutation of `0..size²−1` with one
/// empty slot, whatever the side of the grid.
pub proof fn lemma_spiral_is_board(size: int)
    requires
        0 < size <= MAX_SIZE,
    ensures
        is_board(size, spiral_cells(size)),
{
    let cells = spiral_cells(size);
    assert(1 <= size * size <= 0x7fff_ffff) by (nonlinear_arith)
        requires
            0 < size <= 46340,
    ;
    assert forall|i: int| 0 <= i < cells.len() implies 0 <= #[trigger] cells[i] < cells.len() by {
        lemma_coordinates(size, i);
        lemma_rank_in_ring(size, row_of(size, i), col_of(size, i));
    }
    assert forall|i: int, j: int| 0 <= i < j < cells.len() implies cells[i] != cells[j] by {
        lemma_coordinates(size, i);
        lemma_coordinates(size, j);
        lemma_rank_in_ring(size, row_of(size, i), col_of(size, i));
        lemma_rank_in_ring(size, row_of(size, j), col_of(size, j));
        if cells[i] == cells[j] {
            lemma_rank_injective(
                size,
                row_of(size, i),
                col_of(size, i),
                row_of(size, j),
                col_of(size, j),
            );
        }
    }
    lemma_last_rank(size);
    let z = (size / 2) * size + (size - 1) / 2;
    lemma_index(size, size / 2, (size - 1) / 2);
    assert(cells[z] == 0);
}

/// Writes `start`, `start + 1`, … along row `y`, beginning at column `x`
/// and going left where `leftward` holds, right otherwise.
fn fill_row(
    size: usize,
    table: &mut Vec<i32>,
    y: usize,
    x: usize,
    count: usize,
    start: i32,
    leftward: bool,
)
    requires
        old(table)@.len() == size * size,
        y < size,
        x < size,
        leftward ==> count <= x + 1,
        !leftward ==> x + count <= size,
        0 <= start,
        start + count <= i32::MAX,
    ensures
        final(table)@.len() == old(table)@.len(),
        forall|yy: int, xx: int|
            0 <= yy < size && 0 <= xx < size ==> #[trigger] cell_at(final(table)@, size as int, yy, xx)
                == if yy == y && !leftward && x <= xx < x + count {
                start + (xx - x)
            } else if yy == y && leftward && x - count < xx <= x {
                start + (x - xx)
            } else {
                cell_at(old(table)@, size as int, yy, xx)
            },
{
    let mut j: usize = 0;
    while j < count
        invariant
            table@.len() == size * size,
            table@.len() == old(table)@.len(),
            y < size,
            x < size,
            leftward ==> count <= x + 1,
            !leftward ==> x + count <= size,
            0 <= start,
            start + count <= i32::MAX,
            j <= count,
            forall|yy: int, xx: int|
                0 <= yy < size && 0 <= xx < size ==> #[trigger] cell_at(table@, size as int, yy, xx)
                    == if yy == y && !leftward && x <= xx < x + j {
                    start + (xx - x)
                } else if yy == y && leftward && x - j < xx <= x {
                    start + (x - xx)
                } else {
                    cell_at(old(table)@, size as int, yy, xx)
                },
        decreases count - j,
    {
        let col = if leftward {
            x - j
        } else {
            x + j
        };
        proof {
            lemma_index(size as int, y as int, col as int);
            assert(table.len() == size * size);
        }
        let ghost before = table@;
        table.set(y * size + col, start + j as i32);
        proof {
            assert forall|yy: int, xx: int| 0 <= yy < size && 0 <= xx < size implies #[trigger] cell_at(
                table@,
                size as int,
                yy,
                xx,
            ) == if yy == y && !leftward && x <= xx < x + j + 1 {
                start + (xx - x)
            } else if yy == y && leftward && x - (j + 1) < xx <= x {
                start + (x - xx)
            } else {
                cell_at(old(table)@, size as int, yy, xx)
            } by {
                lemma_index(size as int, yy, xx);
                assert(cell_at(before, size as int, yy, xx) == before[yy * size + xx]);
                if yy * size + xx != y * size + col {
                    assert(table@[yy * size + xx] == before[yy * size + xx]);
                }
            }
        }
        j += 1;
    }
}

/// Writes `start`, `start + 1`, … along column `x`, beginning at row `y`
/// and going up where `upward` holds, down otherwise.
fn fill_column(
    size: usize,
    table: &mut Vec<i32>,
    x: usize,
    y: usize,
    count: usize,
    start: i32,
    upward: bool,
)
    requires
        old(table)@.len() == size * size,
        y < size,
        x < size,
        upward ==> count <= y + 1,
        !upward ==> y + count <= size,
        0 <= start,
        start + count <= i32::MAX,
    ensures
        final(table)@.len() == old(table)@.len(),
        forall|yy: int, xx: int|
            0 <= yy < size && 0 <= xx < size ==> #[trigger] cell_at(final(table)@, size as int, yy, xx)
                == if xx == x && !upward && y <= yy < y + count {
                start + (yy - y)
            } else if xx == x && upward && y - count < yy <= y {
                start + (y - yy)
            } else {
                cell_at(old(table)@, size as int, yy, xx)
            },
{
    let mut j: usize = 0;
    while j < count
        invariant
            table@.len() == size * size,
            table@.len() == old(table)@.len(),
            y < size,
            x < size,
            upward ==> count <= y + 1,
            !upward ==> y + count <= size,
            0 <= start,
            start + count <= i32::MAX,
            j <= count,
            forall|yy: int, xx: int|
                0 <= yy < size && 0 <= xx < size ==> #[trigger] cell_at(table@, size as int, yy, xx)
                    == if xx == x && !upward && y <= yy < y + j {
                    start + (yy - y)
                } else if xx == x && upward && y - j < yy <= y {
                    start + (y - yy)
                } else {
                    cell_at(old(table)@, size as int, yy, xx)
                },
        decreases count - j,
    {
        let row = if upward {
            y - j
        } else {
            y + j
        };
        proof {
            lemma_index(size as int, row as int, x as int);
            assert(table.len() == size * size);
        }
        let ghost before = table@;
        table.set(row * size + x, start + j as i32);
        proof {
            assert forall|yy: int, xx: int| 0 <= yy < size && 0 <= xx < size implies #[trigger] cell_at(
                table@,
                size as int,
                yy,
                xx,
            ) == if xx == x && !upward && y <= yy < y + j + 1 {
                start + (yy - y)
            } else if xx == x && upward && y - (j + 1) < yy <= y {
                start + (y - yy)
            } else {
                cell_at(old(table)@, size as int, yy, xx)
            } by {
                lemma_index(size as int, yy, xx);
                assert(cell_at(before, size as int, yy, xx) == before[yy * size + xx]);
                if yy * size + xx != row * size + x {
                    assert(table@[yy * size + xx] == before[yy * size + xx]);
                }
            }
        }
        j += 1;
    }
}

impl State {
    /// The solved layout for a board of this size. It depends on the size
    /// alone.
    pub fn goal(&self) -> (r: State)
        requires
            self.wf(),
        ensures
            r.wf(),
            r.size() == self.size(),
            r@ == spiral_cells(self.size() as int),
    {
        let n = self.size();
        proof {
            lemma_board_fits(n as int, self@);
            assert(1 <= n * n <= 0x7fff_ffff) by (nonlinear_arith)
                requires
                    0 < n <= 46340,
            ;
        }
        let mut table: Vec<i32> = vec![0i32; n * n];
        let mut k: usize = 0;
        proof {
            assert forall|y: int, x: int| 0 <= y < n && 0 <= x < n implies #[trigger] cell_at(
                table@,
                n as int,
                y,
                x,
            ) == 0 by {
                lemma_index(n as int, y, x);
            }
        }
        while n - 2 * k >= 2
            invariant
                0 < n <= 46340,
                n * n <= 0x7fff_ffff,
                2 * k <= n,
                table@.len() == n * n,
                forall|y: int, x: int|
                    0 <= y < n && 0 <= x < n ==> #[trigger] cell_at(table@, n as int, y, x) == if ring_of(
                        n as int,
                        y,
                        x,
                    ) < k {
                        spiral_value(n as int, y, x)
                    } else {
                        0
                    },
            decreases n - 2 * k,
        {
            let m = n - 2 * k;
            let lo = k;
            let hi = n - 1 - k;
            proof {
                lemma_ring_base(n as int, k as int);
                assert(0 <= ring_base(n as int, k as int));
                assert(0 <= 4 * k * (n - k) <= n * n) by (nonlinear_arith)
                    requires
                        ring_base(n as int, k as int) == 4 * k * (n - k),
                        ring_base(n as int, k as int) + (n - 2 * k) * (n - 2 * k) == n * n,
                        0 <= k,
                        2 * k <= n,
                ;
                assert(4 * k <= 4 * k * (n - k)) by (nonlinear_arith)
                    requires
                        0 <= k,
                        n - k >= 1,
                ;
                assert(m * m >= 4 * (m - 1)) by (nonlinear_arith)
                    requires
                        m >= 2,
                ;
            }
            let base = (4 * k * (n - k)) as i32;
            let ghost before = table@;
            fill_row(n, &mut table, lo, lo, m, base + 1, false);
            fill_column(n, &mut table, hi, lo + 1, m - 1, base + 1 + m as i32, false);
            if m > 2 {
                proof {
                    assert(m * m >= 4 * (m - 1) + 1) by (nonlinear_arith)
                        requires
                            m >= 3,
                    ;
                }
                fill_row(n, &mut table, hi, hi - 1, m - 1, base + 2 * (m as i32), true);
                fill_column(n, &mut table, lo, hi - 1, m - 2, base + 3 * (m as i32) - 1, true);
            } else {
                proof {
                    assert(m * m == 4) by (nonlinear_arith)
                        requires
                            m == 2,
                    ;
                }
            }
            proof {
                assert forall|y: int, x: int| 0 <= y < n && 0 <= x < n implies #[trigger] cell_at(
                    table@,
                    n as int,
                    y,
                    x,
                ) == if ring_of(n as int, y, x) < k + 1 {
                    spiral_value(n as int, y, x)
                } else {
                    0
                } by {
                    assert(cell_at(before, n as int, y, x) == if ring_of(n as int, y, x) < k {
                        spiral_value(n as int, y, x)
                    } else {
                        0
                    });
                    if ring_of(n as int, y, x) == k {
                        lemma_rank_in_ring(n as int, y, x);
                    }
                }
            }
            k += 1;
        }
        proof {
            lemma_spiral_is_board(n as int);
            assert forall|i: int| 0 <= i < table@.len() implies table@[i] == spiral_cells(
                n as int,
            )[i] by {
                lemma_coordinates(n as int, i);
                let y = row_of(n as int, i);
                let x = col_of(n as int, i);
                lemma_rank_in_ring(n as int, y, x);
                assert(table@[i] == cell_at(table@, n as int, y, x));
                if ring_of(n as int, y, x) >= k {
                    lemma_ring_base(n as int, k as int);
                    assert((n - 2 * k) * (n - 2 * k) == 1) by (nonlinear_arith)
                        requires
                            n - 2 * k == 1,
                    ;
                }
            }
            assert(table@ =~= spiral_cells(n as int));
        }
        match State::new(n, table) {
            Ok(goal) => goal,
            Err(_) => vstd::pervasive::unreached(),
        }
    }

    /// The coordinate of every value on this board: entry `v` is the (row,
    /// column) of the cell that holds `v`.
    pub fn goal_positions(&self) -> (r: Vec<(i32, i32)>)
        requires
            self.wf(),
        ensures
            r@ == positions(self.size() as int, self@),
    {
        let size = self.size();
        let cells = self.table();
        let n = cells.len();
        proof {
            lemma_board_fits(size as int, self@);
        }
        let mut res: Vec<(i32, i32)> = vec![(0i32, 0i32); n];
        let mut i: usize = 0;
        while i < n
            invariant
                is_board(size as int, cells@),
                0 < size <= 46340,
                n == cells@.len(),
                res@.len() == n,
                i <= n,
                forall|j: int|
                    0 <= j < i ==> res@[#[trigger] cells@[j] as int] == (
                        row_of(size as int, j) as i32,
                        col_of(size as int, j) as i32,
                    ),
            decreases n - i,
        {
            proof {
                lemma_coordinates(size as int, i as int);
            }
            let v = cells[i];
            let ghost before = res@;
            res.set(v as usize, ((i / size) as i32, (i % size) as i32));
            proof {
                assert forall|j: int| 0 <= j < i + 1 implies res@[#[trigger] cells@[j] as int] == (
                    row_of(size as int, j) as i32,
                    col_of(size as int, j) as i32,
                ) by {
                    if j < i {
                        assert(cells@[j] != cells@[i as int]);
                        assert(res@[cells@[j] as int] == before[cells@[j] as int]);
                    }
                }
            }
            i += 1;
        }
        proof {
            assert forall|v: int| 0 <= v < n implies res@[v] == position_of(
                size as int,
                self@,
                v,
            ) by {
                lemma_board_has_value(size as int, self@, v);
                let j = index_of_value(self@, v);
                assert(res@[cells@[j] as int] == (
                    row_of(size as int, j) as i32,
                    col_of(size as int, j) as i32,
                ));
            }
            assert(res@ =~= positions(size as int, self@));
        }
        res
    }
}

} // verus!
