//! Outcomes of the positional game and the two players.

use vstd::prelude::*;

verus! {

/// Result of the positional game, always told from Player 1's side: `Win`
/// means that Player 1 completed a line, `Lose` that Player 2 did.
///
/// The same three values serve as the private goals of the players.
#[derive(Clone, Copy, PartialEq, Eq, Hash, Debug, Structural)]
pub enum Outcome {
    Win,
    Lose,
    Tie,
}

impl Outcome {
    /// The same result told from the other player's side.
    pub open spec fn spec_reverse(&self) -> Outcome {
        match self {
            Outcome::Win => Outcome::Lose,
            Outcome::Lose => Outcome::Win,
            Outcome::Tie => Outcome::Tie,
        }
    }

    /// Swaps `Win` and `Lose` and keeps `Tie`.
    #[verifier::when_used_as_spec(spec_reverse)]
    pub fn reverse(&self) -> (r: Outcome)
        ensures
            r == self.spec_reverse(),
    {
        match self {
            Outcome::Win => Outcome::Lose,
            Outcome::Lose => Outcome::Win,
            Outcome::Tie => Outcome::Tie,
        }
    }

    /// The outcome that a draw of 0, 1 or anything else stands for.
    pub open spec fn spec_from_index(i: u8) -> Outcome {
        if i == 0 {
            Outcome::Win
        } else if i == 1 {
            Outcome::Lose
        } else {
            Outcome::Tie
        }
    }

    /// The outcome that a number stands for when a goal is drawn: `Win` for
    /// 0, `Lose` for 1, `Tie` for every other number.
    pub fn from_index(i: u8) -> (r: Outcome)
        ensures
            r == Outcome::spec_from_index(i),
    {
        if i == 0 {
            Outcome::Win
        } else if i == 1 {
            Outcome::Lose
        } else {
            Outcome::Tie
        }
    }

    /// Reversing twice gives the outcome back.
    pub proof fn lemma_reverse_involution(o: Outcome)
        ensures
            o.spec_reverse().spec_reverse() == o,
    {
    }
}

/// The outcome that a letter names: `w` for a win, `t` for a tie, `l` for a
/// loss.
pub open spec fn spec_char_to_outcome(c: char) -> Option<Outcome> {
    if c == 'w' {
        Some(Outcome::Win)
    } else if c == 't' {
        Some(Outcome::Tie)
    } else if c == 'l' {
        Some(Outcome::Lose)
    } else {
        None
    }
}

/// The outcome that the letter `c` names, if it names one.
pub fn char_to_outcome(c: char) -> (r: Option<Outcome>)
    ensures
        r == spec_char_to_outcome(c),
{
    if c == 'w' {
        Some(Outcome::Win)
    } else if c == 't' {
        Some(Outcome::Tie)
    } else if c == 'l' {
        Some(Outcome::Lose)
    } else {
        None
    }
}

/// One of the two players. Player 1 moves first.
#[derive(Clone, Copy, PartialEq, Eq, Hash, Debug, Structural)]
pub enum Player {
    Player1,
    Player2,
}

impl Player {
    /// The other player.
    pub open spec fn spec_opponent(&self) -> Player {
        match self {
            Player::Player1 => Player::Player2,
            Player::Player2 => Player::Player1,
        }
    }

    /// The other player.
    #[verifier::when_used_as_spec(spec_opponent)]
    pub fn opponent(&self) -> (r: Player)
        ensures
            r == self.spec_opponent(),
    {
        match self {
            Player::Player1 => Player::Player2,
            Player::Player2 => Player::Player1,
        }
    }
}

} // verus!
