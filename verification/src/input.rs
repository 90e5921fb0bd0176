//! Reading a puzzle from text: whitespace-separated integers, the side of
//! the grid first and the cells in row-major order after it. A line that
//! begins with `#` is a comment.

use vstd::prelude::*;
use crate::board::is_board;
use crate::error::PuzzleError;
use crate::state::State;

verus! {

/// The byte separates tokens: a blank, a tab, a line feed, a vertical
/// tab, a form feed or a carriage return.
pub open spec fn is_space(b: u8) -> bool {
    b == 32 || 9 <= b <= 13
}

/// The byte is a decimal digit.
pub open spec fn is_digit(b: u8) -> bool {
    48 <= b <= 57
}

/// The index at which the line that holds index `i` begins.
pub open spec fn line_start(s: Seq<u8>, i: int) -> int
    decreases i,
{
    if i <= 0 || s[i - 1] == 10u8 {
        i
    } else {
        line_start(s, i - 1)
    }
}

/// The byte at `i` belongs to a comment: its line begins with `#`.
pub open spec fn in_comment(s: Seq<u8>, i: int) -> bool {
    s[line_start(s, i)] == 35u8
}

/// The text with every comment blanked out.
pub open spec fn visible(s: Seq<u8>) -> Seq<u8> {
    Seq::new(
        s.len(),
        |i: int|
            if in_comment(s, i) {
                32u8
            } else {
                s[i]
            },
    )
}

/// The first index at or after `i` that holds no separator, or the end.
pub open spec fn spaces_end(t: Seq<u8>, i: int) -> int
    decreases t.len() - i,
{
    if 0 <= i < t.len() && is_space(t[i]) {
        spaces_end(t, i + 1)
    } else {
        i
    }
}

/// The first index at or after `i` that holds a separator, or the end.
pub open spec fn token_end(t: Seq<u8>, i: int) -> int
    decreases t.len() - i,
{
    if 0 <= i < t.len() && !is_space(t[i]) {
        token_end(t, i + 1)
    } else {
        i
    }
}

/// The number that a run of digits denotes.
pub open spec fn digits_value(d: Seq<u8>) -> int
    decreases d.len(),
{
    if d.len() == 0 {
        0
    } else {
        digits_value(d.drop_last()) * 10 + (d.last() - 48)
    }
}

/// The token consists of digits only.
pub open spec fn all_digits(d: Seq<u8>) -> bool {
    forall|i: int| 0 <= i < d.len() ==> is_digit(#[trigger] d[i])
}

/// The integer that a token denotes: an optional sign and at least one
/// digit, with a value that an `i32` holds. Any other token denotes none.
pub open spec fn token_value(token: Seq<u8>) -> Option<i32> {
    let signed = token.len() > 0 && (token[0] == 45u8 || token[0] == 43u8);
    let digits = if signed {
        token.subrange(1, token.len() as int)
    } else {
        token
    };
    let value = if token.len() > 0 && token[0] == 45u8 {
        -digits_value(digits)
    } else {
        digits_value(digits)
    };
    if digits.len() > 0 && all_digits(digits) && i32::MIN <= value <= i32::MAX {
        Some(value as i32)
    } else {
        None
    }
}

/// Where the separators and the token that begin at `i` end.
pub proof fn lemma_ends(t: Seq<u8>, i: int)
    requires
        0 <= i <= t.len(),
    ensures
        i <= spaces_end(t, i) <= t.len(),
        spaces_end(t, i) < t.len() ==> !is_space(t[spaces_end(t, i)]),
        i <= token_end(t, i) <= t.len(),
        i < t.len() && !is_space(t[i]) ==> i < token_end(t, i),
    decreases t.len() - i,
{
    if i < t.len() {
        lemma_ends(t, i + 1);
    }
}

/// The integers among the tokens of `t` from index `i` on, in order.
/// Tokens that denote no integer are passed over.
pub open spec fn numbers_from(t: Seq<u8>, i: int) -> Seq<i32>
    decreases t.len() - i,
{
    let a = spaces_end(t, i);
    if i < 0 || i > t.len() || a >= t.len() {
        Seq::empty()
    } else {
        let b = token_end(t, a);
        proof {
            lemma_ends(t, i);
            lemma_ends(t, a);
        }
        let here = match token_value(t.subrange(a, b)) {
            Some(v) => seq![v],
            None => Seq::empty(),
        };
        here + numbers_from(t, b)
    }
}

/// The integers that a text holds outside its comments, in order.
pub open spec fn numbers(s: Seq<u8>) -> Seq<i32> {
    numbers_from(visible(s), 0)
}

/// The puzzle that a list of integers describes: the side of the grid,
/// then its cells in row-major order; what follows the cells is ignored.
/// There is none when the list is empty, the side is negative, cells are
/// missing, or the cells are no board.
pub open spec fn described(nums: Seq<i32>) -> Option<(int, Seq<i32>)> {
    if nums.len() == 0 || nums[0] < 0 || nums.len() - 1 < nums[0] * nums[0] {
        None
    } else {
        let cells = nums.subrange(1, 1 + nums[0] * nums[0]);
        if is_board(nums[0] as int, cells) {
            Some((nums[0] as int, cells))
        } else {
            None
        }
    }
}

/// The text with every comment blanked out.
pub fn blank_comments(input: &[u8]) -> (r: Vec<u8>)
    ensures
        r@ == visible(input@),
{
    let mut out: Vec<u8> = Vec::new();
    let mut comment = false;
    let mut i: usize = 0;
    while i < input.len()
        invariant
            i <= input@.len(),
            out@.len() == i,
            forall|k: int| 0 <= k < i ==> out@[k] == visible(input@)[k],
            0 < i && input@[i - 1] != 10u8 ==> comment == in_comment(input@, i - 1),
        decreases input@.len() - i,
    {
        if i == 0 || input[i - 1] == 10 {
            comment = input[i] == 35;
        }
        assert(comment == in_comment(input@, i as int));
        out.push(if comment {
            32
        } else {
            input[i]
        });
        i += 1;
    }
    assert(out@ =~= visible(input@));
    out
}

/// The integer that the token `text[from..to]` denotes, if any.
fn parse_token(text: &Vec<u8>, from: usize, to: usize) -> (r: Option<i32>)
    requires
        from < to <= text@.len(),
    ensures
        r == token_value(text@.subrange(from as int, to as int)),
{
    let ghost token = text@.subrange(from as int, to as int);
    let negative = text[from] == 45;
    let first = if negative || text[from] == 43 {
        from + 1
    } else {
        from
    };
    let ghost digits = text@.subrange(first as int, to as int);
    assert(token[0] == text@[from as int]);
    assert(digits =~= if token.len() > 0 && (token[0] == 45u8 || token[0] == 43u8) {
        token.subrange(1, token.len() as int)
    } else {
        token
    });
    if first == to {
        return None;
    }
    // One more than the largest magnitude that an `i32` holds.
    let limit: i64 = 0x8000_0001;
    let mut value: i64 = 0;
    let mut k = first;
    while k < to
        invariant
            from < to,
            first <= k <= to <= text@.len(),
            token == text@.subrange(from as int, to as int),
            digits == text@.subrange(first as int, to as int),
            digits == if token.len() > 0 && (token[0] == 45u8 || token[0] == 43u8) {
                token.subrange(1, token.len() as int)
            } else {
                token
            },
            limit == 0x8000_0001,
            all_digits(digits.take(k - first)),
            0 <= value <= limit,
            value == if digits_value(digits.take(k - first)) < limit {
                digits_value(digits.take(k - first))
            } else {
                limit as int
            },
        decreases to - k,
    {
        let b = text[k];
        assert(digits[k - first] == b);
        if b < 48 || b > 57 {
            assert(!all_digits(digits));
            return None;
        }
        proof {
            let longer = digits.take(k - first + 1);
            assert(longer.drop_last() =~= digits.take(k - first));
            assert(longer.last() == b);
            assert forall|j: int| 0 <= j < longer.len() implies is_digit(#[trigger] longer[j]) by {
                if j < k - first {
                    assert(longer[j] == digits.take(k - first)[j]);
                }
            }
        }
        let next = value * 10 + (b - 48) as i64;
        value = if next < limit {
            next
        } else {
            limit
        };
        k += 1;
    }
    assert(digits.take(to - first) =~= digits);
    let signed = if negative {
        -value
    } else {
        value
    };
    if signed < -0x8000_0000 || signed > 0x7fff_ffff {
        None
    } else {
        Some(signed as i32)
    }
}

/// The integers that a text with its comments blanked out holds, in
/// order.
pub fn parse_numbers(text: &Vec<u8>) -> (r: Vec<i32>)
    ensures
        r@ == numbers_from(text@, 0),
{
    let len = text.len();
    let mut out: Vec<i32> = Vec::new();
    let mut i: usize = 0;
    let mut done = false;
    while !done
        invariant
            len == text@.len(),
            i <= len,
            !done ==> numbers_from(text@, 0) == out@ + numbers_from(text@, i as int),
            done ==> numbers_from(text@, 0) == out@,
        decreases len - i + if done { 0int } else { 1int },
    {
        let mut a = i;
        while a < len && (text[a] == 32 || (9 <= text[a] && text[a] <= 13))
            invariant
                len == text@.len(),
                i <= a <= len,
                spaces_end(text@, i as int) == spaces_end(text@, a as int),
            decreases len - a,
        {
            a += 1;
        }
        if a >= len {
            assert(out@ + Seq::<i32>::empty() =~= out@);
            done = true;
        } else {
            let mut b = a + 1;
            assert(token_end(text@, a as int) == token_end(text@, a + 1));
            while b < len && !(text[b] == 32 || (9 <= text[b] && text[b] <= 13))
                invariant
                    len == text@.len(),
                    a < b <= len,
                    token_end(text@, a as int) == token_end(text@, b as int),
                decreases len - b,
            {
                b += 1;
            }
            let ghost before = out@;
            let ghost here = match token_value(text@.subrange(a as int, b as int)) {
                Some(v) => seq![v],
                None => Seq::empty(),
            };
            match parse_token(text, a, b) {
                Some(v) => {
                    out.push(v);
                },
                None => {},
            }
            assert(out@ =~= before + here);
            assert(before + (here + numbers_from(text@, b as int)) =~= (before + here)
                + numbers_from(text@, b as int));
            i = b;
        }
    }
    out
}

/// The puzzle that a list of integers describes: the side of the grid,
/// then its cells in row-major order.
pub fn puzzle_from_numbers(nums: &Vec<i32>) -> (r: Result<State, PuzzleError>)
    ensures
        match described(nums@) {
            Some((size, cells)) => r matches Ok(s) && s.wf() && s.size() == size && s@ == cells,
            None => r matches Err(e) && e == PuzzleError::InvalidInput,
        },
{
    if nums.len() == 0 || nums[0] < 0 {
        return Err(PuzzleError::InvalidInput);
    }
    let size = nums[0] as usize;
    let count = match size.checked_mul(size) {
        Some(c) => c,
        None => {
            assert(nums@.len() == nums.len() <= usize::MAX);
            return Err(PuzzleError::InvalidInput);
        },
    };
    if nums.len() - 1 < count {
        return Err(PuzzleError::InvalidInput);
    }
    let mut cells: Vec<i32> = Vec::with_capacity(count);
    let mut i: usize = 0;
    while i < count
        invariant
            count < nums@.len(),
            i <= count,
            cells@ == nums@.subrange(1, 1 + i),
        decreases count - i,
    {
        cells.push(nums[i + 1]);
        assert(cells@ =~= nums@.subrange(1, 1 + i + 1));
        i += 1;
    }
    State::new(size, cells)
}

/// Reads a puzzle from text: the integers outside the comments give the
/// side of the grid and then its cells.
pub fn parse_puzzle(input: &[u8]) -> (r: Result<State, PuzzleError>)
    ensures
        match described(numbers(input@)) {
            Some((size, cells)) => r matches Ok(s) && s.wf() && s.size() == size && s@ == cells,
            None => r matches Err(e) && e == PuzzleError::InvalidInput,
        },
{
    let text = blank_comments(input);
    let nums = parse_numbers(&text);
    puzzle_from_numbers(&nums)
}

} // verus!
