//! Goal tic-tac-toe: a 3×3 positional game in which each of the two players
//! privately holds one of three goals (to win, to lose or to tie the
//! positional game) and scores when the final position meets that goal.
//!
//! The library holds what is exact about the game: boards and their
//! symmetries, the game tree with forced outcomes folded into leaves, the
//! states that carry the goals and what the player to move knows of them,
//! the schedule of a run of regret minimisation, the score grid of a match
//! over several rounds, and the names of the snapshots of a run.

pub mod board;
pub mod ends;
pub mod error;
pub mod folding;
pub mod forced;
pub mod meta;
pub mod outcome;
pub mod payoff;
pub mod play;
pub mod reach;
pub mod schedule;
pub mod score;
pub mod snapshot;
pub mod successors;
pub mod symmetry;
pub mod table;
pub mod tree;
pub mod weights;

pub use board::State;
pub use error::{ConfigError, MoveError};
pub use forced::forced_outcomes;
pub use meta::{InfoState, MetaState};
pub use outcome::{char_to_outcome, Outcome, Player};
pub use payoff::PayoffCase;
pub use schedule::UpdateSchedule;
pub use score::{solve_order, value_of_score, ChildPayoffs, ScoreValue, Subgame};
pub use table::StateMap;
pub use tree::{GameTree, StateId};
