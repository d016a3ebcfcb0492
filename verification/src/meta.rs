//! Boards together with the private goals of the players: the state that a
//! value belongs to, and what the player to move knows of it.

use vstd::prelude::*;

use crate::outcome::{Outcome, Player};
use crate::tree::{GameTree, StateId};

verus! {

/// A board of the game tree with the goal of each player.
#[derive(Clone, Copy, PartialEq, Eq, Hash, Debug, Structural)]
pub struct MetaState {
    pub state: StateId,
    pub p1goal: Outcome,
    pub p2goal: Outcome,
}

/// What the player to move knows: the board and that player's own goal.
#[derive(Clone, Copy, PartialEq, Eq, Hash, Debug, Structural)]
pub struct InfoState {
    pub state: StateId,
    pub goal: Outcome,
}

impl MetaState {
    /// The same goals on board `state`.
    pub open spec fn on_board(&self, state: StateId) -> MetaState {
        MetaState { state, p1goal: self.p1goal, p2goal: self.p2goal }
    }

    /// The board with the goal of the player who moves on it.
    pub open spec fn spec_info_state(&self, tree: &GameTree) -> InfoState {
        InfoState {
            state: self.state,
            goal: if tree.states@[self.state as int].spec_current_player() == Player::Player1 {
                self.p1goal
            } else {
                self.p2goal
            },
        }
    }

    /// Which players reach their goal where the positional game ends with
    /// `outcome`: Player 1 where it is the goal of Player 1, Player 2 where
    /// it is, told from the side of Player 2, the goal of Player 2.
    pub open spec fn realization(&self, outcome: Outcome) -> (bool, bool) {
        (self.p1goal == outcome, self.p2goal == outcome.spec_reverse())
    }

    /// What the player to move knows of this state: the board and the goal
    /// of that player. The goal of the other player stays hidden.
    pub fn info_state(&self, tree: &GameTree) -> (r: InfoState)
        requires
            self.state < tree.states@.len(),
        ensures
            r == self.spec_info_state(tree),
    {
        InfoState {
            state: self.state,
            goal: if tree.states[self.state].current_player() == Player::Player1 {
                self.p1goal
            } else {
                self.p2goal
            },
        }
    }

    /// The states that a move leads to: the successors of the board, in
    /// their order, each with the same two goals.
    pub fn children(&self, tree: &GameTree) -> (r: Vec<MetaState>)
        requires
            tree.children@.contains_key(self.state),
        ensures
            r@.len() == tree.children@[self.state]@.len(),
            forall|k: int|
                0 <= k < r@.len() ==> #[trigger] r@[k] == self.on_board(
                    tree.children@[self.state]@[k],
                ),
    {
        let mut result: Vec<MetaState> = Vec::new();
        let listed = match tree.children.get(&self.state) {
            Some(listed) => listed,
            None => { return result; },
        };
        let mut k: usize = 0;
        while k < listed.len()
            invariant
                0 <= k <= listed@.len(),
                listed@ == tree.children@[self.state]@,
                result@.len() == k,
                forall|j: int| 0 <= j < k ==> #[trigger] result@[j] == self.on_board(listed@[j]),
            decreases listed@.len() - k,
        {
            result.push(MetaState { state: listed[k], p1goal: self.p1goal, p2goal: self.p2goal });
            k = k + 1;
        }
        result
    }

    /// The state that play came from: the parent of the board with the same
    /// two goals, and `None` on a board without a parent.
    pub fn parent(&self, tree: &GameTree) -> (r: Option<MetaState>)
        ensures
            r == if tree.parents@.contains_key(self.state) {
                Some(self.on_board(tree.parents@[self.state]))
            } else {
                None
            },
    {
        match tree.parents.get(&self.state) {
            Some(parent) => Some(
                MetaState { state: *parent, p1goal: self.p1goal, p2goal: self.p2goal },
            ),
            None => None,
        }
    }

    /// Which players have reached their goal, on a board at which play ends;
    /// `None` on every other board.
    pub fn outcomes(&self, tree: &GameTree) -> (r: Option<(bool, bool)>)
        ensures
            r is Some <==> tree.terminals@.contains_key(self.state),
            r == if tree.terminals@.contains_key(self.state) {
                Some(self.realization(tree.terminals@[self.state]))
            } else {
                None
            },
    {
        match tree.terminals.get(&self.state) {
            Some(outcome) => Some(
                (self.p1goal == *outcome, self.p2goal == outcome.reverse()),
            ),
            None => None,
        }
    }
}

impl InfoState {
    /// The state in which the player to move has this goal and the other
    /// player the goal `other_goal`.
    pub open spec fn spec_completed_by(&self, tree: &GameTree, other_goal: Outcome) -> MetaState {
        if tree.states@[self.state as int].spec_current_player() == Player::Player1 {
            MetaState { state: self.state, p1goal: self.goal, p2goal: other_goal }
        } else {
            MetaState { state: self.state, p1goal: other_goal, p2goal: self.goal }
        }
    }

    /// One of the states that the player to move cannot tell apart: the
    /// state in which the other player has the goal `other_goal`.
    pub fn completed_by(&self, tree: &GameTree, other_goal: Outcome) -> (r: MetaState)
        requires
            self.state < tree.states@.len(),
        ensures
            r == self.spec_completed_by(tree, other_goal),
            r.spec_info_state(tree) == *self,
    {
        if tree.states[self.state].current_player() == Player::Player1 {
            MetaState { state: self.state, p1goal: self.goal, p2goal: other_goal }
        } else {
            MetaState { state: self.state, p1goal: other_goal, p2goal: self.goal }
        }
    }

    /// Every state is the completion of what its mover knows by the goal of
    /// the other player.
    pub proof fn lemma_completion_gives_state_back(tree: &GameTree, m: MetaState)
        ensures
            m.spec_info_state(tree).spec_completed_by(
                tree,
                if tree.states@[m.state as int].spec_current_player() == Player::Player1 {
                    m.p2goal
                } else {
                    m.p1goal
                },
            ) == m,
    {
    }
}

} // verus!
