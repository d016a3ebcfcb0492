//! Forced outcomes: boards from which every line of play ends the same way.

use vstd::prelude::*;

use crate::board::State;
use crate::outcome::Outcome;
use crate::reach::{children_follow, occurs_after};
use crate::table::StateMap;

verus! {

impl State {
    /// Each of the first `k` successors has a forced outcome, the one that
    /// the first successor has.
    pub open spec fn children_agree(&self, k: int) -> bool
        decreases self.empty_cells(), k,
    {
        if k <= 0 || k > self.spec_children().len() {
            true
        } else {
            proof {
                self.lemma_child_props(k - 1);
                self.lemma_child_props(0);
            }
            &&& self.children_agree(k - 1)
            &&& self.spec_children()[k - 1].spec_forced_outcome() is Some
            &&& self.spec_children()[k - 1].spec_forced_outcome()
                == self.spec_children()[0].spec_forced_outcome()
        }
    }

    /// The outcome that play from this board cannot avoid, if there is one:
    /// the outcome of a board on which the game is over, and on an open board
    /// the forced outcome that all its successors share.
    pub open spec fn spec_forced_outcome(&self) -> Option<Outcome>
        decreases self.empty_cells(), self.spec_children().len() + 1,
    {
        if self.spec_outcome() is Some {
            self.spec_outcome()
        } else if self.spec_children().len() > 0 && self.children_agree(
            self.spec_children().len() as int,
        ) {
            proof {
                self.lemma_child_props(0);
            }
            self.spec_children()[0].spec_forced_outcome()
        } else {
            None
        }
    }

    /// Successors that agree up to `m` agree up to any `k` below.
    pub proof fn lemma_agree_prefix(&self, k: int, m: int)
        requires
            0 <= k <= m <= self.spec_children().len(),
            self.children_agree(m),
        ensures
            self.children_agree(k),
        decreases m - k,
    {
        if k < m {
            self.lemma_agree_prefix(k, m - 1);
        }
    }

    /// Where an open board has a forced outcome, each successor has the same.
    pub proof fn lemma_forced_passes_down(&self, k: int)
        requires
            self.spec_outcome() is None,
            self.spec_forced_outcome() is Some,
            0 <= k < self.spec_children().len(),
        ensures
            self.spec_children()[k].spec_forced_outcome() == self.spec_forced_outcome(),
    {
        self.lemma_agree_prefix(k + 1, self.spec_children().len() as int);
    }
}

/// Whether the two are the same.
fn same_outcome(a: Option<Outcome>, b: Option<Outcome>) -> (r: bool)
    ensures
        r == (a == b),
{
    match (a, b) {
        (Some(x), Some(y)) => x == y,
        (None, None) => true,
        _ => false,
    }
}

/// The forced outcome of every board of `all_states`, worked out from the
/// back of the list.
///
/// The list has to hold the successors of each of its boards behind that
/// board, as a depth-first list of descendants does.
pub fn forced_outcomes(all_states: &Vec<State>) -> (result: StateMap<Option<Outcome>>)
    requires
        children_follow(all_states@),
        forall|p: int|
            0 <= p < all_states@.len() && (#[trigger] all_states@[p]).spec_outcome() is None
                ==> all_states@[p].max_move() < u8::MAX,
    ensures
        forall|s: State| result@.contains_key(s) <==> all_states@.contains(s),
        forall|s: State| result@.contains_key(s) ==> result@[s] == s.spec_forced_outcome(),
{
    let mut result: StateMap<Option<Outcome>> = StateMap::new();
    let mut i: usize = all_states.len();
    while i > 0
        invariant
            0 <= i <= all_states@.len(),
            children_follow(all_states@),
            forall|p: int|
                0 <= p < all_states@.len() && (#[trigger] all_states@[p]).spec_outcome() is None
                    ==> all_states@[p].max_move() < u8::MAX,
            forall|s: State|
                result@.contains_key(s) <==> exists|q: int|
                    i <= q < all_states@.len() && all_states@[q] == s,
            forall|s: State| result@.contains_key(s) ==> result@[s] == s.spec_forced_outcome(),
        decreases i,
    {
        i = i - 1;
        let state = all_states[i];
        let ghost before = result@;
        let mut outcome: Option<Outcome> = state.outcome();
        if outcome.is_none() {
            let kids = state.children();
            assert forall|k: int| 0 <= k < kids@.len() implies result@.contains_key(
                #[trigger] kids@[k],
            ) by {
                assert(occurs_after(all_states@, i as int, state.spec_children()[k]));
            }
            let mut k: usize = 0;
            let mut stopped = false;
            while k < kids.len() && !stopped
                invariant
                    0 <= k <= kids@.len(),
                    kids@ == state.spec_children(),
                    state.spec_outcome() is None,
                    forall|j: int| 0 <= j < kids@.len() ==> result@.contains_key(#[trigger] kids@[j]),
                    forall|s: State|
                        result@.contains_key(s) ==> result@[s] == s.spec_forced_outcome(),
                    stopped ==> outcome is None && !state.children_agree(kids@.len() as int),
                    !stopped && k == 0 ==> outcome is None,
                    !stopped && k > 0 ==> outcome is Some && state.children_agree(k as int)
                        && outcome == kids@[0].spec_forced_outcome(),
                decreases kids@.len() - k + if stopped { 0int } else { 1int },
            {
                let child_outcome: Option<Outcome> = match result.get(&kids[k]) {
                    Some(found) => *found,
                    None => None,
                };
                assert(child_outcome == kids@[k as int].spec_forced_outcome());
                if child_outcome.is_none() || (outcome.is_some() && !same_outcome(
                    child_outcome,
                    outcome,
                )) {
                    proof {
                        assert(!state.children_agree(k + 1));
                        if state.children_agree(kids@.len() as int) {
                            state.lemma_agree_prefix(k + 1, kids@.len() as int);
                        }
                    }
                    outcome = None;
                    stopped = true;
                } else {
                    proof {
                        assert(state.children_agree(k as int));
                        assert(child_outcome == kids@[0].spec_forced_outcome());
                        assert(state.children_agree(k + 1));
                    }
                    outcome = child_outcome;
                    k = k + 1;
                }
            }
            assert(outcome == state.spec_forced_outcome());
        }
        result.insert(state, outcome);
        proof {
            assert forall|s: State| result@.contains_key(s) <==> exists|q: int|
                i <= q < all_states@.len() && all_states@[q] == s by {
                if before.contains_key(s) {
                    let q = choose|q: int| i + 1 <= q < all_states@.len() && all_states@[q] == s;
                    assert(i <= q < all_states@.len() && all_states@[q] == s);
                }
                if s == state {
                    assert(all_states@[i as int] == s);
                }
            }
        }
    }
    result
}

} // verus!
