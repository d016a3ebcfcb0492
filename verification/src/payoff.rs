//! Which payoff a finished round pays.

use vstd::prelude::*;

verus! {

/// How a round ended for the two players, by who reached their goal.
#[derive(Clone, Copy, PartialEq, Eq, Hash, Debug, Structural)]
pub enum PayoffCase {
    BothLose,
    P2Win,
    P1Win,
    BothWin,
}

impl PayoffCase {
    /// The case in which the players reached their goals as the pair says,
    /// Player 1 first.
    pub open spec fn spec_of(outcomes: (bool, bool)) -> PayoffCase {
        match outcomes {
            (true, true) => PayoffCase::BothWin,
            (true, false) => PayoffCase::P1Win,
            (false, true) => PayoffCase::P2Win,
            (false, false) => PayoffCase::BothLose,
        }
    }

    /// The place of the case in the order `BothLose`, `P2Win`, `P1Win`,
    /// `BothWin`.
    pub open spec fn spec_index(&self) -> usize {
        match self {
            PayoffCase::BothLose => 0,
            PayoffCase::P2Win => 1,
            PayoffCase::P1Win => 2,
            PayoffCase::BothWin => 3,
        }
    }

    /// The case of a round in which the players reached their goals as
    /// `outcomes` says, Player 1 first.
    pub fn of(outcomes: (bool, bool)) -> (r: PayoffCase)
        ensures
            r == PayoffCase::spec_of(outcomes),
            r.spec_index() == 2 * (if outcomes.0 { 1int } else { 0int }) + (if outcomes.1 {
                1int
            } else {
                0int
            }),
    {
        match outcomes {
            (true, true) => PayoffCase::BothWin,
            (true, false) => PayoffCase::P1Win,
            (false, true) => PayoffCase::P2Win,
            (false, false) => PayoffCase::BothLose,
        }
    }

    /// The place of the case in a table of the four payoffs that is ordered
    /// `BothLose`, `P2Win`, `P1Win`, `BothWin`: twice the point of Player 1
    /// plus the point of Player 2.
    pub fn index(&self) -> (r: usize)
        ensures
            r == self.spec_index(),
    {
        match self {
            PayoffCase::BothLose => 0,
            PayoffCase::P2Win => 1,
            PayoffCase::P1Win => 2,
            PayoffCase::BothWin => 3,
        }
    }
}

} // verus!
