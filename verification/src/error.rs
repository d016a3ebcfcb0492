//! What can be wrong with a request.

use vstd::prelude::*;

verus! {

/// A request that the library cannot serve as it was configured.
#[derive(Clone, Copy, PartialEq, Eq, Hash, Debug, Structural)]
pub enum ConfigError {
    /// The outcome of the game is forced before the first move, so that the
    /// empty board is a leaf and there is nothing to solve.
    ForcedRoot,
    /// The winning score of a match is below 1, so that its score grid has
    /// no cell.
    WinningScore,
}

/// Why a move cannot be made.
#[derive(Clone, Copy, PartialEq, Eq, Hash, Debug, Structural)]
pub enum MoveError {
    /// The position is none of 1 to 9.
    BadPosition,
    /// Play has ended on the board, or the cell is taken.
    InvalidMove,
}

} // verus!
