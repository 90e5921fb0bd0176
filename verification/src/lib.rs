//! A solver for the sliding-tile puzzle on an N×N grid.
//!
//! The crate holds the board, its successor generation, the heuristics, the
//! parity pre-check, the bounded frontier, the visited set and the search
//! driver. Every executable function carries a contract that Verus proves.

pub mod board;
pub mod cover;
pub mod direction;
pub mod error;
pub mod frontier;
pub mod goal;
pub mod heuristic;
pub mod input;
pub mod node;
pub mod parity;
pub mod seqs;
pub mod solvable;
pub mod solver;
pub mod state;
pub mod visited;

pub use direction::MoveDirection;
pub use error::PuzzleError;
pub use node::StateDiff;
pub use state::State;
