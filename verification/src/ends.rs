//! What a forced outcome means: every game that can still be played from the
//! board ends with that outcome.

use vstd::prelude::*;

use crate::board::State;
use crate::outcome::Outcome;

verus! {

impl State {
    /// Every finished game among the descendants of the board has the
    /// outcome `o`.
    pub open spec fn all_ends_are(&self, o: Outcome) -> bool {
        forall|p: int|
            0 <= p < self.spec_descendants().len() && (#[trigger] self.spec_descendants()[p]).spec_outcome() is Some
                ==> self.spec_descendants()[p].spec_outcome() == Some(o)
    }

    /// A finished game is among the descendants of the board.
    pub open spec fn has_end(&self) -> bool {
        exists|p: int|
            0 <= p < self.spec_descendants().len() && (#[trigger] self.spec_descendants()[p]).spec_outcome() is Some
    }

    /// What is reached through the first `k` successors is what is reached
    /// from one of them.
    pub proof fn lemma_reached_through_child(&self, k: int, x: State)
        requires
            0 <= k <= self.spec_children().len(),
        ensures
            self.descendants_of_children(k).contains(x) <==> exists|j: int|
                0 <= j < k && (#[trigger] self.spec_children()[j]).spec_descendants().contains(x),
        decreases k,
    {
        if k > 0 {
            self.lemma_reached_through_child(k - 1, x);
            let d0 = self.descendants_of_children(k - 1);
            let d1 = self.spec_children()[k - 1].spec_descendants();
            let d = self.descendants_of_children(k);
            assert(d =~= d0 + d1);
            if d0.contains(x) {
                let i = choose|i: int| 0 <= i < d0.len() && d0[i] == x;
                assert(d[i] == x);
            }
            if d1.contains(x) {
                let i = choose|i: int| 0 <= i < d1.len() && d1[i] == x;
                assert(d[i + d0.len()] == x);
            }
            if d.contains(x) {
                let i = choose|i: int| 0 <= i < d.len() && d[i] == x;
                if i < d0.len() {
                    assert(d0[i] == x);
                } else {
                    assert(d1[i - d0.len()] == x);
                }
            }
        } else {
            assert(self.descendants_of_children(k) =~= Seq::<State>::empty());
        }
    }

    /// Successors that all have the forced outcome `o` agree.
    proof fn lemma_same_forced_agree(&self, o: Outcome, k: int)
        requires
            0 <= k <= self.spec_children().len(),
            forall|j: int|
                0 <= j < self.spec_children().len() ==> (#[trigger] self.spec_children()[j]).spec_forced_outcome()
                    == Some(o),
        ensures
            self.children_agree(k),
        decreases k,
    {
        if k > 0 {
            self.lemma_same_forced_agree(o, k - 1);
            assert(self.spec_children()[k - 1].spec_forced_outcome() == Some(o));
            assert(self.spec_children()[0].spec_forced_outcome() == Some(o));
        }
    }

    /// Play from any board can come to an end, and the board has the forced
    /// outcome `o` exactly if every finished game among its descendants has
    /// the outcome `o`.
    pub proof fn lemma_forced_is_what_all_ends_share(&self, o: Outcome)
        ensures
            self.has_end(),
            self.spec_forced_outcome() == Some(o) <==> self.all_ends_are(o),
        decreases self.empty_cells(),
    {
        let d = self.spec_descendants();
        let kids = self.spec_children();
        let n = kids.len() as int;
        let below = self.descendants_of_children(n);
        assert(d =~= seq![*self] + below);
        if self.spec_outcome() is Some {
            assert(n == 0);
            assert(below =~= Seq::<State>::empty());
            assert(d[0] == *self);
        } else {
            self.lemma_open_board_has_child();
            assert forall|j: int| 0 <= j < n implies (#[trigger] kids[j]).has_end() && (
            kids[j].spec_forced_outcome() == Some(o) <==> kids[j].all_ends_are(o)) by {
                self.lemma_child_props(j);
                kids[j].lemma_forced_is_what_all_ends_share(o);
            }
            // A finished game below the first successor is one below the board.
            assert(self.has_end()) by {
                let c = kids[0];
                assert(c.has_end());
                let q = choose|q: int|
                    0 <= q < c.spec_descendants().len() && (#[trigger] c.spec_descendants()[q]).spec_outcome() is Some;
                let x = c.spec_descendants()[q];
                assert(c.spec_descendants().contains(x));
                self.lemma_reached_through_child(n, x);
                let i = choose|i: int| 0 <= i < below.len() && below[i] == x;
                assert(d[i + 1] == x);
            }
            if self.spec_forced_outcome() == Some(o) {
                assert forall|p: int|
                    0 <= p < d.len() && (#[trigger] d[p]).spec_outcome() is Some implies d[p].spec_outcome()
                    == Some(o) by {
                    let x = d[p];
                    assert(p > 0);
                    assert(below[p - 1] == x);
                    assert(below.contains(x));
                    self.lemma_reached_through_child(n, x);
                    let j = choose|j: int|
                        0 <= j < n && (#[trigger] kids[j]).spec_descendants().contains(x);
                    self.lemma_forced_passes_down(j);
                    assert(kids[j].all_ends_are(o));
                    let q = choose|q: int|
                        0 <= q < kids[j].spec_descendants().len() && kids[j].spec_descendants()[q]
                            == x;
                    assert(kids[j].spec_descendants()[q].spec_outcome() == Some(o));
                }
            }
            if self.all_ends_are(o) {
                assert forall|j: int| 0 <= j < n implies (#[trigger] kids[j]).spec_forced_outcome()
                    == Some(o) by {
                    let c = kids[j];
                    assert forall|q: int|
                        0 <= q < c.spec_descendants().len() && (#[trigger] c.spec_descendants()[q]).spec_outcome() is Some implies c.spec_descendants()[q].spec_outcome()
                        == Some(o) by {
                        let x = c.spec_descendants()[q];
                        assert(c.spec_descendants().contains(x));
                        self.lemma_reached_through_child(n, x);
                        let i = choose|i: int| 0 <= i < below.len() && below[i] == x;
                        assert(d[i + 1] == x);
                    }
                    assert(c.all_ends_are(o));
                }
                self.lemma_same_forced_agree(o, n);
            }
        }
    }
}

} // verus!
