//! What holds of the depth-first list of a board's descendants: no board
//! occurs twice, every successor stands behind its parent, and a successor
//! has one parent only.

use vstd::prelude::*;

use crate::board::State;

verus! {

/// `s` stands in `d` behind position `p`.
pub open spec fn occurs_after(d: Seq<State>, p: int, s: State) -> bool {
    exists|q: int| p < q < d.len() && d[q] == s
}

/// Every successor of a board of `d` stands in `d` behind that board.
pub open spec fn children_follow(d: Seq<State>) -> bool {
    forall|p: int, k: int|
        0 <= p < d.len() && 0 <= k < d[p].spec_children().len() ==> occurs_after(
            d,
            p,
            #[trigger] d[p].spec_children()[k],
        )
}

/// The board at position `q` of `d` is a successor of a board that stands
/// before it.
pub open spec fn has_parent_before(d: Seq<State>, q: int) -> bool {
    exists|p: int, k: int|
        0 <= p < q && 0 <= k < d[p].spec_children().len() && #[trigger] d[p].spec_children()[k]
            == d[q]
}

/// Every board of `d` but the first is a successor of a board before it.
pub open spec fn parents_precede(d: Seq<State>) -> bool {
    forall|q: int| 0 < q < d.len() ==> #[trigger] has_parent_before(d, q)
}

impl State {
    /// The board at position `p` of `d` is one of the first `k` successors
    /// of this board, or a successor of a board that stands before it.
    pub open spec fn child_or_later(&self, k: int, d: Seq<State>, p: int) -> bool {
        has_parent_before(d, p) || exists|j: int|
            0 <= j < k && #[trigger] self.spec_children()[j] == d[p]
    }

    /// The turns still to come do not run past the largest cell value.
    pub open spec fn playable(&self) -> bool {
        self.max_move() + self.empty_cells() <= u8::MAX
    }

    /// `later` records a continuation of the game on this board: it keeps
    /// every mark of this board, and holds later turns in some of the cells
    /// that are empty here.
    pub open spec fn continued_by(&self, later: &State) -> bool {
        forall|i: int|
            0 <= i < 9 ==> if self.moves[i] != 0 {
                later.moves[i] == self.moves[i]
            } else {
                later.moves[i] == 0 || later.moves[i] > self.max_move()
            }
    }

    /// `later` continues this board, can be played to the end, and is well
    /// formed if this board is.
    pub open spec fn leads_to(&self, later: &State) -> bool {
        &&& self.continued_by(later)
        &&& later.playable()
        &&& self.well_formed() ==> later.well_formed()
    }

    /// `later` is reached through one of the first `k` successors.
    pub open spec fn leads_through(&self, k: int, later: &State) -> bool {
        exists|j: int| 0 <= j < k && (#[trigger] self.spec_children()[j]).leads_to(later)
    }

    /// What continues a continuation continues the board.
    pub proof fn lemma_leads_on(&self, middle: &State, later: &State)
        requires
            self.leads_to(middle),
            middle.leads_to(later),
        ensures
            self.leads_to(later),
    {
        assert(middle.max_move() >= self.max_move());
    }

    /// A playable board leads to each of its successors.
    pub proof fn lemma_leads_to_child(&self, k: int)
        requires
            self.playable(),
            0 <= k < self.spec_children().len(),
        ensures
            self.leads_to(&self.spec_children()[k]),
            self.max_move() < u8::MAX,
    {
        self.lemma_child_props(k);
    }

    /// Boards reached through different successors differ, and none of them
    /// is the board itself.
    pub proof fn lemma_branches_differ(&self, j: int, k: int, x: &State, y: &State)
        requires
            self.playable(),
            0 <= j < k < self.spec_children().len(),
            self.spec_children()[j].leads_to(x),
            self.spec_children()[k].leads_to(y),
        ensures
            *x != *y,
            *x != *self,
            *y != *self,
    {
        self.lemma_child_props(j);
        self.lemma_child_props(k);
        self.lemma_kept_cells(9);
        let a = self.kept_cells(9)[j];
        let b = self.kept_cells(9)[k];
        assert(a < b);
        assert(x.moves[a] == self.next_turn());
        assert(y.moves[b] == self.next_turn());
        assert(self.spec_children()[k].moves[a] == 0);
        assert(y.moves[a] != self.next_turn());
    }

    /// A board is the successor of one playable board only.
    pub proof fn lemma_one_parent(&self, other: &State, j: int, k: int)
        requires
            self.playable(),
            other.playable(),
            0 <= j < self.spec_children().len(),
            0 <= k < other.spec_children().len(),
            self.spec_children()[j] == other.spec_children()[k],
        ensures
            *self == *other,
    {
        self.lemma_child_props(j);
        other.lemma_child_props(k);
        self.lemma_same_successor(self.kept_cells(9)[j], other, other.kept_cells(9)[k]);
    }

    /// No cell holds more than the last turn.
    pub proof fn lemma_cells_bounded(&self)
        ensures
            forall|i: int| 0 <= i < 9 ==> self.moves[i] <= self.max_move(),
    {
    }

    /// Two boards that a move each turns into the same board are the same.
    proof fn lemma_same_successor(&self, a: int, other: &State, b: int)
        requires
            0 <= a < 9,
            0 <= b < 9,
            self.moves[a] == 0,
            other.moves[b] == 0,
            self.max_move() < u8::MAX,
            other.max_move() < u8::MAX,
            self.successor(a) == other.successor(b),
        ensures
            *self == *other,
    {
        let c = self.successor(a);
        self.lemma_successor(a);
        other.lemma_successor(b);
        assert(self.max_move() == other.max_move());
        assert(a == b) by {
            if a != b {
                self.lemma_cells_bounded();
                assert(c.moves[b] == self.moves[b]);
                assert(c.moves[b] == other.next_turn());
            }
        }
        assert forall|i: int| 0 <= i < 9 implies self.moves[i] == other.moves[i] by {
            if i != a {
                assert(self.moves[i] == c.moves[i]);
                assert(other.moves[i] == c.moves[i]);
            }
        }
        assert(self.moves =~= other.moves);
    }

    /// The descendants of a playable board, in depth-first order: the board
    /// leads to each, none occurs twice, and the successors of each stand
    /// behind it.
    pub proof fn lemma_descendants(&self)
        requires
            self.playable(),
        ensures
            self.spec_descendants().len() >= 1,
            self.spec_descendants()[0] == *self,
            forall|p: int|
                0 <= p < self.spec_descendants().len() ==> self.leads_to(
                    &#[trigger] self.spec_descendants()[p],
                ),
            self.spec_descendants().no_duplicates(),
            children_follow(self.spec_descendants()),
            parents_precede(self.spec_descendants()),
        decreases self.empty_cells(), self.spec_children().len() + 1,
    {
        let n = self.spec_children().len() as int;
        let below = self.descendants_of_children(n);
        let d = self.spec_descendants();
        self.lemma_descendants_of_children(n);
        assert(d =~= seq![*self] + below);
        assert forall|q: int| 0 < q < d.len() implies #[trigger] has_parent_before(d, q) by {
            assert(d[q] == below[q - 1]);
            assert(self.child_or_later(n, below, q - 1));
            if has_parent_before(below, q - 1) {
                let (p, k) = choose|p: int, k: int|
                    0 <= p < q - 1 && 0 <= k < below[p].spec_children().len()
                        && #[trigger] below[p].spec_children()[k] == below[q - 1];
                assert(d[p + 1] == below[p]);
                assert(d[p + 1].spec_children()[k] == d[q]);
            } else {
                let j = choose|j: int| 0 <= j < n && #[trigger] self.spec_children()[j] == below[q
                    - 1];
                assert(d[0].spec_children()[j] == d[q]);
            }
        }
        assert forall|p: int| 0 <= p < d.len() implies self.leads_to(&#[trigger] d[p]) by {
            if p > 0 {
                let x = below[p - 1];
                assert(d[p] == x);
                assert(self.leads_through(n, &x));
                let j = choose|j: int|
                    0 <= j < n && (#[trigger] self.spec_children()[j]).leads_to(&x);
                self.lemma_leads_to_child(j);
                self.lemma_leads_on(&self.spec_children()[j], &x);
            }
        }
        assert forall|p: int, q: int| 0 <= p < d.len() && 0 <= q < d.len() && p != q implies d[p]
            != d[q] by {
            if p > 0 && q > 0 {
                assert(d[p] == below[p - 1] && d[q] == below[q - 1]);
            } else {
                let r = if p > 0 {
                    p
                } else {
                    q
                };
                let x = below[r - 1];
                assert(d[r] == x);
                assert(self.leads_through(n, &x));
                let j = choose|j: int|
                    0 <= j < n && (#[trigger] self.spec_children()[j]).leads_to(&x);
                self.lemma_child_props(j);
                assert(x.moves[self.kept_cells(9)[j]] == self.next_turn());
            }
        }
        assert forall|p: int, k: int|
            0 <= p < d.len() && 0 <= k < d[p].spec_children().len() implies occurs_after(
            d,
            p,
            #[trigger] d[p].spec_children()[k],
        ) by {
            let c = d[p].spec_children()[k];
            if p == 0 {
                assert(below.contains(self.spec_children()[k]));
                let q = choose|q: int| 0 <= q < below.len() && below[q] == c;
                assert(d[q + 1] == c);
            } else {
                assert(d[p] == below[p - 1]);
                assert(occurs_after(below, p - 1, below[p - 1].spec_children()[k]));
                let q = choose|q: int| p - 1 < q < below.len() && below[q] == c;
                assert(d[q + 1] == c);
            }
        }
    }

    /// The same of what is reached through the first `k` successors, each of
    /// which stands in that list.
    pub proof fn lemma_descendants_of_children(&self, k: int)
        requires
            self.playable(),
            0 <= k <= self.spec_children().len(),
        ensures
            forall|p: int|
                0 <= p < self.descendants_of_children(k).len() ==> self.leads_through(
                    k,
                    &#[trigger] self.descendants_of_children(k)[p],
                ),
            self.descendants_of_children(k).no_duplicates(),
            children_follow(self.descendants_of_children(k)),
            forall|j: int|
                0 <= j < k ==> self.descendants_of_children(k).contains(
                    #[trigger] self.spec_children()[j],
                ),
            forall|p: int|
                0 <= p < self.descendants_of_children(k).len() ==> #[trigger] self.child_or_later(
                    k,
                    self.descendants_of_children(k),
                    p,
                ),
        decreases self.empty_cells(), k,
    {
        if k > 0 {
            let c = self.spec_children()[k - 1];
            let d0 = self.descendants_of_children(k - 1);
            let d1 = c.spec_descendants();
            let d = self.descendants_of_children(k);
            self.lemma_leads_to_child(k - 1);
            self.lemma_child_props(k - 1);
            self.lemma_descendants_of_children(k - 1);
            c.lemma_descendants();
            assert(d =~= d0 + d1);
            assert forall|p: int| 0 <= p < d.len() implies #[trigger] self.child_or_later(
                k,
                d,
                p,
            ) by {
                if p < d0.len() {
                    assert(d[p] == d0[p]);
                    assert(self.child_or_later(k - 1, d0, p));
                    if has_parent_before(d0, p) {
                        let (q, i) = choose|q: int, i: int|
                            0 <= q < p && 0 <= i < d0[q].spec_children().len()
                                && #[trigger] d0[q].spec_children()[i] == d0[p];
                        assert(d[q] == d0[q]);
                        assert(d[q].spec_children()[i] == d[p]);
                    } else {
                        let j = choose|j: int|
                            0 <= j < k - 1 && #[trigger] self.spec_children()[j] == d0[p];
                        assert(self.spec_children()[j] == d[p]);
                    }
                } else {
                    let inner = p - d0.len();
                    assert(d[p] == d1[inner]);
                    if inner == 0 {
                        assert(self.spec_children()[k - 1] == d[p]);
                    } else {
                        assert(has_parent_before(d1, inner));
                        let (q, i) = choose|q: int, i: int|
                            0 <= q < inner && 0 <= i < d1[q].spec_children().len()
                                && #[trigger] d1[q].spec_children()[i] == d1[inner];
                        assert(d[q + d0.len()] == d1[q]);
                        assert(d[q + d0.len()].spec_children()[i] == d[p]);
                    }
                }
            }
            assert forall|p: int| 0 <= p < d.len() implies self.leads_through(k, &#[trigger] d[p]) by {
                if p < d0.len() {
                    assert(d[p] == d0[p]);
                    assert(self.leads_through(k - 1, &d0[p]));
                    let j = choose|j: int|
                        0 <= j < k - 1 && (#[trigger] self.spec_children()[j]).leads_to(&d0[p]);
                    assert(self.spec_children()[j].leads_to(&d[p]));
                } else {
                    assert(d[p] == d1[p - d0.len()]);
                    assert(self.spec_children()[k - 1].leads_to(&d[p]));
                }
            }
            assert forall|p: int, q: int|
                0 <= p < d.len() && 0 <= q < d.len() && p != q implies d[p] != d[q] by {
                if p < d0.len() && q < d0.len() {
                    assert(d[p] == d0[p] && d[q] == d0[q]);
                } else if p >= d0.len() && q >= d0.len() {
                    assert(d[p] == d1[p - d0.len()] && d[q] == d1[q - d0.len()]);
                } else {
                    let (lo, hi) = if p < q {
                        (p, q)
                    } else {
                        (q, p)
                    };
                    let x = d0[lo];
                    let y = d1[hi - d0.len()];
                    assert(d[lo] == x && d[hi] == y);
                    assert(self.leads_through(k - 1, &x));
                    let j = choose|j: int|
                        0 <= j < k - 1 && (#[trigger] self.spec_children()[j]).leads_to(&x);
                    self.lemma_branches_differ(j, k - 1, &x, &y);
                }
            }
            assert forall|p: int, i: int|
                0 <= p < d.len() && 0 <= i < d[p].spec_children().len() implies occurs_after(
                d,
                p,
                #[trigger] d[p].spec_children()[i],
            ) by {
                let e = d[p].spec_children()[i];
                if p < d0.len() {
                    assert(d[p] == d0[p]);
                    assert(occurs_after(d0, p, d0[p].spec_children()[i]));
                    let q = choose|q: int| p < q < d0.len() && d0[q] == e;
                    assert(d[q] == e);
                } else {
                    let inner = p - d0.len();
                    assert(d[p] == d1[inner]);
                    assert(occurs_after(d1, inner, d1[inner].spec_children()[i]));
                    let q = choose|q: int| inner < q < d1.len() && d1[q] == e;
                    assert(d[q + d0.len()] == e);
                }
            }
            assert forall|j: int| 0 <= j < k implies d.contains(
                #[trigger] self.spec_children()[j],
            ) by {
                if j < k - 1 {
                    assert(d0.contains(self.spec_children()[j]));
                    let q = choose|q: int| 0 <= q < d0.len() && d0[q] == self.spec_children()[j];
                    assert(d[q] == self.spec_children()[j]);
                } else {
                    assert(d[d0.len() as int] == d1[0]);
                }
            }
        } else {
            assert(self.descendants_of_children(k) =~= Seq::<State>::empty());
        }
    }
}

} // verus!
