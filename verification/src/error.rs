use vstd::prelude::*;

verus! {

/// The ways a run can end without a solution.
#[derive(Copy, Clone, Debug, PartialEq, Eq, Structural)]
pub enum PuzzleError {
    /// The input is not an N×N arrangement of the values 0..N²−1.
    InvalidInput,
    /// The parity pre-check rules the instance out.
    Unsolvable,
    /// The frontier ran empty before the goal was reached.
    Exhausted,
    /// The visited set reached its ceiling.
    ResourceExhausted,
    /// The caller called the search off.
    Cancelled,
}

} // verus!
