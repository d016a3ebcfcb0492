//! The bookkeeping of a run of regret minimisation: which player's rows an
//! iteration moves, and when the iteration counter advances.

use vstd::prelude::*;

use crate::outcome::Player;

verus! {

/// Where a run of regret minimisation stands: the iteration counter, and the
/// player whose rows the next round moves. Without a player, every round
/// moves the rows of both.
#[derive(Clone, Copy, PartialEq, Eq, Hash, Debug, Structural)]
pub struct UpdateSchedule {
    pub t: usize,
    pub player_to_update: Option<Player>,
}

impl UpdateSchedule {
    /// The start of a run.
    pub open spec fn spec_new(alternating_updates: bool) -> UpdateSchedule {
        UpdateSchedule {
            t: 0,
            player_to_update: if alternating_updates {
                Some(Player::Player1)
            } else {
                None
            },
        }
    }

    /// The round moves the rows of the boards on which `mover` moves.
    pub open spec fn spec_updates(&self, mover: Player) -> bool {
        match self.player_to_update {
            Some(p) => p == mover,
            None => true,
        }
    }

    /// The round is the last of its iteration: it moves the rows of Player 2,
    /// or those of both players.
    pub open spec fn closes_iteration(&self) -> bool {
        self.spec_updates(Player::Player2)
    }

    /// The schedule after the round.
    pub open spec fn spec_advanced(&self) -> UpdateSchedule {
        UpdateSchedule {
            t: if self.closes_iteration() {
                (self.t + 1) as usize
            } else {
                self.t
            },
            player_to_update: match self.player_to_update {
                Some(p) => Some(p.spec_opponent()),
                None => None,
            },
        }
    }

    /// The start of a run: iteration 0, and Player 1 to update first where
    /// the updates alternate.
    pub fn new(alternating_updates: bool) -> (r: UpdateSchedule)
        ensures
            r == UpdateSchedule::spec_new(alternating_updates),
    {
        UpdateSchedule {
            t: 0,
            player_to_update: if alternating_updates {
                Some(Player::Player1)
            } else {
                None
            },
        }
    }

    /// Whether the round moves the rows of the boards on which `mover`
    /// moves. The regrets that are discounted, the regrets that are added and
    /// the rows of the average strategy that are moved all go by this.
    #[verifier::when_used_as_spec(spec_updates)]
    pub fn updates(&self, mover: Player) -> (b: bool)
        ensures
            b == self.spec_updates(mover),
    {
        match self.player_to_update {
            Some(p) => p == mover,
            None => true,
        }
    }

    /// Ends the round: the counter advances if the round closed an
    /// iteration, and the other player is the next to update.
    pub fn advance(&mut self)
        requires
            old(self).t < usize::MAX,
        ensures
            *final(self) == old(self).spec_advanced(),
    {
        if self.updates(Player::Player2) {
            self.t = self.t + 1;
        }
        self.player_to_update = match self.player_to_update {
            Some(p) => Some(p.opponent()),
            None => None,
        };
    }

    /// Where the updates alternate, a round of Player 1 and the round of
    /// Player 2 after it make one iteration: after the two the counter is one
    /// higher and Player 1 is to update again.
    pub proof fn lemma_two_rounds_make_an_iteration(s: UpdateSchedule)
        requires
            s.player_to_update == Some(Player::Player1),
            s.t < usize::MAX,
        ensures
            s.spec_advanced().t == s.t,
            s.spec_advanced().player_to_update == Some(Player::Player2),
            s.spec_advanced().spec_advanced().t == s.t + 1,
            s.spec_advanced().spec_advanced().player_to_update == Some(Player::Player1),
    {
    }

    /// Where the updates do not alternate, every round moves the rows of both
    /// players and is an iteration.
    pub proof fn lemma_every_round_is_an_iteration(s: UpdateSchedule, mover: Player)
        requires
            s.player_to_update is None,
            s.t < usize::MAX,
        ensures
            s.spec_updates(mover),
            s.spec_advanced().t == s.t + 1,
            s.spec_advanced().player_to_update is None,
    {
    }

    /// A round moves the rows of exactly one player where the updates
    /// alternate.
    pub proof fn lemma_one_player_per_round(s: UpdateSchedule, mover: Player)
        requires
            s.player_to_update is Some,
        ensures
            s.spec_updates(mover) != s.spec_updates(mover.spec_opponent()),
    {
    }
}

/// After iteration `iteration`, counted from 0, a run of `every` iterations
/// is complete.
pub open spec fn spec_check_is_due(iteration: usize, every: usize) -> bool {
    iteration % every == every - 1
}

/// Whether the exploitability is due to be looked at after iteration
/// `iteration`, counted from 0, where it is looked at every `every`
/// iterations: after the last iteration of each run of `every`.
#[verifier::when_used_as_spec(spec_check_is_due)]
pub fn check_is_due(iteration: usize, every: usize) -> (b: bool)
    requires
        every > 0,
    ensures
        b == spec_check_is_due(iteration, every),
{
    iteration % every == every - 1
}

/// The first check comes after `every` iterations, and from one check to the
/// next there are `every` iterations.
pub proof fn lemma_checks_are_evenly_spaced(iteration: usize, every: usize)
    requires
        every > 0,
        iteration + every <= usize::MAX,
    ensures
        spec_check_is_due((every - 1) as usize, every),
        forall|i: usize| i < every - 1 ==> !spec_check_is_due(i, every),
        spec_check_is_due(iteration, every) ==> spec_check_is_due(
            (iteration + every) as usize,
            every,
        ),
        spec_check_is_due(iteration, every) ==> forall|i: usize|
            iteration < i < iteration + every ==> !spec_check_is_due(i, every),
{
    assert((every - 1) % (every as int) == every - 1) by (nonlinear_arith)
        requires
            every > 0,
    ;
    assert forall|i: usize| i < every - 1 implies !spec_check_is_due(i, every) by {
        assert(i as int % (every as int) == i) by (nonlinear_arith)
            requires
                0 <= i < every,
        ;
    }
    if spec_check_is_due(iteration, every) {
        vstd::arithmetic::div_mod::lemma_mod_add_multiples_vanish(
            iteration as int,
            every as int,
        );
        assert forall|i: usize| iteration < i < iteration + every implies !spec_check_is_due(
            i,
            every,
        ) by {
            let d = i - iteration;
            vstd::arithmetic::div_mod::lemma_fundamental_div_mod(iteration as int, every as int);
            let q = iteration as int / every as int;
            assert(i == every * (q + 1) + (d - 1)) by (nonlinear_arith)
                requires
                    iteration == every * q + (every - 1),
                    d == i - iteration,
            ;
            vstd::arithmetic::div_mod::lemma_fundamental_div_mod_converse(
                i as int,
                every as int,
                q + 1,
                d - 1,
            );
        }
    }
}

} // verus!
