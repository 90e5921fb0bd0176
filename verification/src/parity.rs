//! What the parity pre-check measures: every move changes the number of
//! inversions by an odd amount, so the parity of the count tells the parity
//! of the number of moves between two boards.

use vstd::prelude::*;
use crate::board::{
    blank_index, can_move, is_board, lemma_board_has_value, lemma_move_and_back, moved,
    target_index,
};
use crate::direction::MoveDirection;
use crate::seqs::exchanged;
use crate::solvable::{goal_rank, inversions, inversions_prefix, owed_on_right};

verus! {

/// The number of entries of `p` from `from` up to, not including, `to`
/// that are below `v`.
pub open spec fn count_below(p: Seq<int>, v: int, from: int, to: int) -> int
    decreases to - from,
{
    if to <= from {
        0
    } else {
        count_below(p, v, from, to - 1) + if p[to - 1] < v {
            1int
        } else {
            0int
        }
    }
}

/// The number of pairs among the first `n` entries and the entries right
/// of them that stand in falling order.
pub open spec fn disorder_prefix(p: Seq<int>, n: int) -> int
    decreases n,
{
    if n <= 0 {
        0
    } else {
        disorder_prefix(p, n - 1) + count_below(p, p[n - 1], n - 1, p.len() as int)
    }
}

/// The number of pairs of entries that stand in falling order.
pub open spec fn disorder(p: Seq<int>) -> int {
    disorder_prefix(p, p.len() as int)
}

/// No entry occurs twice.
pub open spec fn distinct(p: Seq<int>) -> bool {
    forall|i: int, j: int| 0 <= i < j < p.len() ==> p[i] != p[j]
}

/// For every cell of `start`, the index at which `goal` holds its value.
pub open spec fn ranks(start: Seq<i32>, goal: Seq<i32>) -> Seq<int> {
    Seq::new(start.len(), |k: int| goal_rank(goal, start[k]))
}

/// A count over a range is the sum of the counts over its two parts.
proof fn lemma_count_split(p: Seq<int>, v: int, from: int, mid: int, to: int)
    requires
        from <= mid <= to,
    ensures
        count_below(p, v, from, to) == count_below(p, v, from, mid) + count_below(p, v, mid, to),
    decreases to - mid,
{
    if mid < to {
        lemma_count_split(p, v, from, mid, to - 1);
    }
}

/// Sequences that agree on a range have the same count over it.
proof fn lemma_count_agrees(p: Seq<int>, q: Seq<int>, v: int, from: int, to: int)
    requires
        forall|k: int| from <= k < to ==> p[k] == q[k],
    ensures
        count_below(p, v, from, to) == count_below(q, v, from, to),
    decreases to - from,
{
    if from < to {
        lemma_count_agrees(p, q, v, from, to - 1);
    }
}

/// Exchanging two neighbours inside a range keeps the count over it.
proof fn lemma_count_exchange_inside(p: Seq<int>, a: int, v: int, from: int, to: int)
    requires
        0 <= from <= a,
        a + 1 < to <= p.len(),
    ensures
        count_below(exchanged(p, a, a + 1), v, from, to) == count_below(p, v, from, to),
{
    let q = exchanged(p, a, a + 1);
    lemma_count_split(p, v, from, a, to);
    lemma_count_split(q, v, from, a, to);
    lemma_count_split(p, v, a, a + 2, to);
    lemma_count_split(q, v, a, a + 2, to);
    lemma_count_agrees(p, q, v, from, a);
    lemma_count_agrees(p, q, v, a + 2, to);
    assert(count_below(p, v, a, a + 2) == count_below(q, v, a, a + 2)) by {
        reveal_with_fuel(count_below, 3);
    }
}

/// How exchanging the neighbours at `a` and `a + 1` changes the count of
/// the first `m` entries.
proof fn lemma_prefix_after_exchange(p: Seq<int>, a: int, m: int)
    requires
        0 <= a,
        a + 1 < p.len(),
        0 <= m <= p.len(),
    ensures
        disorder_prefix(exchanged(p, a, a + 1), m) - disorder_prefix(p, m) == (if a < m {
            count_below(exchanged(p, a, a + 1), p[a + 1], a, p.len() as int) - count_below(
                p,
                p[a],
                a,
                p.len() as int,
            )
        } else {
            0
        }) + (if a + 1 < m {
            count_below(exchanged(p, a, a + 1), p[a], a + 1, p.len() as int) - count_below(
                p,
                p[a + 1],
                a + 1,
                p.len() as int,
            )
        } else {
            0
        }),
    decreases m,
{
    if m > 0 {
        lemma_prefix_after_exchange(p, a, m - 1);
        let q = exchanged(p, a, a + 1);
        let i = m - 1;
        if i < a {
            lemma_count_exchange_inside(p, a, p[i], i, p.len() as int);
        } else if i > a + 1 {
            lemma_count_agrees(p, q, p[i], i, p.len() as int);
        }
    }
}

/// Exchanging two neighbours changes the number of falling pairs by one.
proof fn lemma_adjacent_exchange(p: Seq<int>, a: int)
    requires
        distinct(p),
        0 <= a,
        a + 1 < p.len(),
    ensures
        distinct(exchanged(p, a, a + 1)),
        disorder(exchanged(p, a, a + 1)) == disorder(p) + 1 || disorder(exchanged(p, a, a + 1))
            == disorder(p) - 1,
{
    let q = exchanged(p, a, a + 1);
    let n = p.len() as int;
    lemma_exchange_keeps_distinct(p, a, a + 1);
    lemma_prefix_after_exchange(p, a, n);
    // The four counts, each split into the two neighbours and what lies
    // right of them.
    lemma_count_split(p, p[a], a, a + 2, n);
    lemma_count_split(q, p[a + 1], a, a + 2, n);
    lemma_count_split(p, p[a + 1], a + 1, a + 2, n);
    lemma_count_split(q, p[a], a + 1, a + 2, n);
    lemma_count_agrees(p, q, p[a], a + 2, n);
    lemma_count_agrees(p, q, p[a + 1], a + 2, n);
    assert(p[a] != p[a + 1]);
    assert(count_below(p, p[a], a, a + 2) == if p[a + 1] < p[a] {
        1int
    } else {
        0int
    }) by {
        reveal_with_fuel(count_below, 3);
    }
    assert(count_below(q, p[a + 1], a, a + 2) == if p[a] < p[a + 1] {
        1int
    } else {
        0int
    }) by {
        reveal_with_fuel(count_below, 3);
    }
    assert(count_below(p, p[a + 1], a + 1, a + 2) == 0) by {
        reveal_with_fuel(count_below, 2);
    }
    assert(count_below(q, p[a], a + 1, a + 2) == 0) by {
        reveal_with_fuel(count_below, 2);
    }
}

/// Exchanging two entries leaves no entry twice.
proof fn lemma_exchange_keeps_distinct(p: Seq<int>, a: int, b: int)
    requires
        distinct(p),
        0 <= a < p.len(),
        0 <= b < p.len(),
    ensures
        distinct(exchanged(p, a, b)),
{
    let q = exchanged(p, a, b);
    assert forall|i: int, j: int| 0 <= i < j < q.len() implies q[i] != q[j] by {
        let pi = if i == a { b } else if i == b { a } else { i };
        let pj = if j == a { b } else if j == b { a } else { j };
        assert(q[i] == p[pi]);
        assert(q[j] == p[pj]);
        if pi < pj {
            assert(p[pi] != p[pj]);
        } else {
            assert(p[pj] != p[pi]);
        }
    }
}

/// Exchanging any two entries changes the number of falling pairs by an
/// odd amount.
pub proof fn lemma_exchange_flips(p: Seq<int>, a: int, b: int)
    requires
        distinct(p),
        0 <= a < b < p.len(),
    ensures
        distinct(exchanged(p, a, b)),
        (disorder(exchanged(p, a, b)) - disorder(p)) % 2 != 0,
    decreases b - a,
{
    lemma_adjacent_exchange(p, a);
    if b > a + 1 {
        // Bring the entry at `a` next to `b`, exchange there, and bring the
        // other entry back to `a`.
        let shifted = exchanged(p, a, a + 1);
        lemma_exchange_flips(shifted, a + 1, b);
        let crossed = exchanged(shifted, a + 1, b);
        lemma_adjacent_exchange(crossed, a);
        assert(exchanged(crossed, a, a + 1) =~= exchanged(p, a, b));
    }
}

/// What is owed on the right of a cell is a count over the ranks.
proof fn lemma_owed_is_count(start: Seq<i32>, goal: Seq<i32>, i: int, to: int)
    requires
        0 <= i <= to <= start.len(),
        i < start.len(),
    ensures
        owed_on_right(start, goal, i, to) == count_below(
            ranks(start, goal),
            ranks(start, goal)[i],
            i,
            to,
        ),
    decreases to - i,
{
    if i < to {
        lemma_owed_is_count(start, goal, i, to - 1);
    }
}

/// The inversions of a board against a goal are the falling pairs of its
/// ranks.
proof fn lemma_inversions_are_disorder(start: Seq<i32>, goal: Seq<i32>, n: int)
    requires
        0 <= n <= start.len(),
    ensures
        inversions_prefix(start, goal, n) == disorder_prefix(ranks(start, goal), n),
    decreases n,
{
    if n > 0 {
        lemma_inversions_are_disorder(start, goal, n - 1);
        lemma_owed_is_count(start, goal, n - 1, start.len() as int);
    }
}

/// The cells of a board have different ranks in a goal of the same size.
proof fn lemma_ranks_distinct(size: int, start: Seq<i32>, goal: Seq<i32>)
    requires
        is_board(size, start),
        is_board(size, goal),
    ensures
        distinct(ranks(start, goal)),
{
    let p = ranks(start, goal);
    assert forall|i: int, j: int| 0 <= i < j < p.len() implies p[i] != p[j] by {
        lemma_board_has_value(size, goal, start[i] as int);
        lemma_board_has_value(size, goal, start[j] as int);
        assert(start[i] != start[j]);
    }
}

/// A move changes the number of inversions against any goal by an odd
/// amount.
pub proof fn lemma_move_flips_parity(
    size: int,
    cells: Seq<i32>,
    goal: Seq<i32>,
    direction: MoveDirection,
)
    requires
        is_board(size, cells),
        is_board(size, goal),
        can_move(size, cells, direction),
    ensures
        (inversions(moved(size, cells, direction), goal) - inversions(cells, goal)) % 2 != 0,
{
    lemma_move_and_back(size, cells, direction);
    lemma_board_has_value(size, cells, 0);
    let b = blank_index(cells);
    let t = target_index(size, cells, direction);
    let after = moved(size, cells, direction);
    let p = ranks(cells, goal);
    lemma_ranks_distinct(size, cells, goal);
    lemma_inversions_are_disorder(cells, goal, cells.len() as int);
    lemma_inversions_are_disorder(after, goal, after.len() as int);
    assert(cells[t] != 0);
    if b < t {
        assert(ranks(after, goal) =~= exchanged(p, b, t));
        lemma_exchange_flips(p, b, t);
    } else {
        assert(ranks(after, goal) =~= exchanged(p, t, b));
        lemma_exchange_flips(p, t, b);
    }
}

} // verus!
