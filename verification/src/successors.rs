//! The moves from a board: its successors with symmetric duplicates left
//! out, and everything that can be reached through them.

use vstd::prelude::*;

use crate::board::State;

verus! {

impl State {
    /// The number of the turn that the player to move makes.
    pub open spec fn next_turn(&self) -> u8 {
        if self.max_move() < u8::MAX {
            (self.max_move() + 1) as u8
        } else {
            u8::MAX
        }
    }

    /// The board with `cell` set to `turn`.
    pub open spec fn with_mark(&self, cell: int, turn: u8) -> State {
        State {
            moves: [
                if cell == 0 { turn } else { self.moves[0] },
                if cell == 1 { turn } else { self.moves[1] },
                if cell == 2 { turn } else { self.moves[2] },
                if cell == 3 { turn } else { self.moves[3] },
                if cell == 4 { turn } else { self.moves[4] },
                if cell == 5 { turn } else { self.moves[5] },
                if cell == 6 { turn } else { self.moves[6] },
                if cell == 7 { turn } else { self.moves[7] },
                if cell == 8 { turn } else { self.moves[8] },
            ],
        }
    }

    /// The board after the player to move has marked `cell`.
    pub open spec fn successor(&self, cell: int) -> State {
        self.with_mark(cell, self.next_turn())
    }

    /// The successors through the cells `cells`, in that order.
    pub open spec fn successors_at(&self, cells: Seq<int>) -> Seq<State> {
        Seq::new(cells.len(), |k: int| self.successor(cells[k]))
    }

    /// With the move order forgotten, this board is a symmetric image of one
    /// of `kept`.
    pub open spec fn seen_up_to_symmetry(&self, kept: Seq<State>) -> bool {
        exists|k: int|
            0 <= k < kept.len() && self.spec_drop_history().spec_is_symmetry(
                &(#[trigger] kept[k]).spec_drop_history(),
            )
    }

    /// The cells below `n` whose successor is kept when the cells are scanned
    /// from 0: the empty cells whose successor is, with the move order
    /// forgotten, no symmetric image of a successor kept before.
    pub open spec fn kept_cells(&self, n: int) -> Seq<int>
        decreases n,
    {
        if n <= 0 {
            Seq::empty()
        } else {
            let before = self.kept_cells(n - 1);
            if self.moves[n - 1] == 0 && !self.successor(n - 1).seen_up_to_symmetry(
                self.successors_at(before),
            ) {
                before.push(n - 1)
            } else {
                before
            }
        }
    }

    /// The successors of the board: none when the game is over, else one for
    /// each kept cell, in the order of the cells.
    pub open spec fn spec_children(&self) -> Seq<State> {
        if self.spec_outcome() is None {
            self.successors_at(self.kept_cells(9))
        } else {
            Seq::empty()
        }
    }

    /// What is reached through the first `k` successors: their descendants,
    /// one successor after the other.
    pub open spec fn descendants_of_children(&self, k: int) -> Seq<State>
        decreases self.empty_cells(), k,
    {
        if k <= 0 || k > self.spec_children().len() {
            Seq::empty()
        } else {
            proof {
                self.lemma_child_props(k - 1);
            }
            self.descendants_of_children(k - 1) + self.spec_children()[k - 1].spec_descendants()
        }
    }

    /// The board and all that is reached from it, in depth-first order: the
    /// board itself, then the descendants of its first successor, then those
    /// of the second, and so on.
    pub open spec fn spec_descendants(&self) -> Seq<State>
        decreases self.empty_cells(), self.spec_children().len() + 1,
    {
        seq![*self] + self.descendants_of_children(self.spec_children().len() as int)
    }

    /// The kept cells below `n` are empty cells below `n` in rising order.
    pub proof fn lemma_kept_cells(&self, n: int)
        requires
            0 <= n <= 9,
        ensures
            self.kept_cells(n).len() <= n,
            forall|k: int|
                0 <= k < self.kept_cells(n).len() ==> 0 <= (#[trigger] self.kept_cells(n)[k]) < n
                    && self.moves[self.kept_cells(n)[k]] == 0,
            forall|j: int, k: int|
                0 <= j < k < self.kept_cells(n).len() ==> self.kept_cells(n)[j] < self.kept_cells(
                    n,
                )[k],
        decreases n,
    {
        if n > 0 {
            self.lemma_kept_cells(n - 1);
        }
    }

    /// Marking an empty cell adds the next turn and leaves the rest alone.
    pub proof fn lemma_successor(&self, cell: int)
        requires
            0 <= cell < 9,
            self.moves[cell] == 0,
        ensures
            self.successor(cell).moves[cell] == self.next_turn(),
            forall|i: int| 0 <= i < 9 && i != cell ==> self.successor(cell).moves[i] == self.moves[i],
            self.successor(cell).max_move() == self.next_turn(),
            self.successor(cell).empty_cells() + 1 == self.empty_cells(),
            self.well_formed() ==> self.successor(cell).well_formed(),
    {
        let next = self.successor(cell);
        if self.well_formed() {
            assert(next.no_turn_twice()) by {
                reveal(State::no_turn_twice);
                assert forall|i: int| 0 <= i < 9 && i != cell implies next.moves[i]
                    == self.moves[i] && self.moves[i] < next.moves[cell] by {}
            }
            assert forall|turn: int| 1 <= turn <= next.max_move() implies #[trigger] next.has_move(
                turn,
            ) by {
                if turn <= self.max_move() {
                    assert(self.has_move(turn));
                    let j = choose|j: int| 0 <= j < 9 && self.moves[j] == turn;
                    assert(next.moves[j] == turn);
                } else {
                    assert(next.moves[cell] == turn);
                }
            }
        }
    }

    /// Successor `k` comes from marking an empty cell: it has one turn more
    /// and one empty cell fewer than the board, and is well formed where the
    /// board is.
    pub proof fn lemma_child_props(&self, k: int)
        requires
            0 <= k < self.spec_children().len(),
        ensures
            self.spec_outcome() is None,
            0 <= self.kept_cells(9)[k] < 9,
            self.moves[self.kept_cells(9)[k]] == 0,
            self.spec_children()[k] == self.successor(self.kept_cells(9)[k]),
            self.spec_children()[k].max_move() == self.next_turn(),
            self.spec_children()[k].empty_cells() + 1 == self.empty_cells(),
            self.well_formed() ==> self.spec_children()[k].well_formed(),
    {
        self.lemma_kept_cells(9);
        self.lemma_successor(self.kept_cells(9)[k]);
    }

    /// A board on which the game is open has a successor.
    pub proof fn lemma_open_board_has_child(&self)
        requires
            self.spec_outcome() is None,
        ensures
            self.spec_children().len() > 0,
    {
        assert(!self.is_full());
        let i = choose|i: int| 0 <= i < 9 && self.moves[i] == 0;
        self.lemma_first_kept(i + 1);
    }

    /// Once an empty cell has been scanned, a cell is kept.
    proof fn lemma_first_kept(&self, n: int)
        requires
            0 < n <= 9,
            self.moves[n - 1] == 0,
        ensures
            self.kept_cells(n).len() > 0,
            forall|m: int| n <= m <= 9 ==> (#[trigger] self.kept_cells(m)).len() > 0,
    {
        assert(self.kept_cells(n).len() > 0) by {
            let before = self.kept_cells(n - 1);
            if before.len() == 0 {
                assert(self.successors_at(before).len() == 0);
            }
        }
        assert forall|m: int| n <= m <= 9 implies (#[trigger] self.kept_cells(m)).len() > 0 by {
            self.lemma_kept_grows(n, m);
        }
    }

    /// Scanning further cells drops no kept cell.
    proof fn lemma_kept_grows(&self, n: int, m: int)
        requires
            0 <= n <= m,
        ensures
            self.kept_cells(n).len() <= self.kept_cells(m).len(),
        decreases m - n,
    {
        if n < m {
            self.lemma_kept_grows(n, m - 1);
        }
    }

    /// A symmetry followed by the one that undoes it shows the board itself.
    pub proof fn lemma_rotate_back(&self, symmetry: u8)
        requires
            symmetry < 8,
        ensures
            self.spec_rotate(symmetry).spec_rotate(inverse_of(symmetry)) == *self,
            inverse_of(symmetry) < 8,
    {
        let back = self.spec_rotate(symmetry).spec_rotate(inverse_of(symmetry));
        assert(back.moves =~= self.moves);
    }

    /// If a symmetry shows `other` as this board, one shows this board as
    /// `other`.
    pub proof fn lemma_symmetry_both_ways(&self, other: &State)
        requires
            self.spec_is_symmetry(other),
        ensures
            other.spec_is_symmetry(self),
    {
        let symmetry = choose|symmetry: u8|
            symmetry < 8 && *self == #[trigger] other.spec_rotate(symmetry);
        other.lemma_rotate_back(symmetry);
        assert(*other == self.spec_rotate(inverse_of(symmetry)));
    }

    /// Every board is its own image under the identity.
    pub proof fn lemma_symmetry_of_itself(&self)
        ensures
            self.spec_is_symmetry(self),
    {
        assert(self.spec_rotate(0).moves =~= self.moves);
        assert(*self == self.spec_rotate(0));
    }

    /// No two of the successors kept below `n` are, with the move order
    /// forgotten, symmetric images of each other.
    pub proof fn lemma_kept_pairwise_distinct(&self, n: int)
        requires
            0 <= n <= 9,
        ensures
            forall|j: int, k: int|
                #![trigger self.successors_at(self.kept_cells(n))[j], self.successors_at(self.kept_cells(n))[k]]
                0 <= j < self.kept_cells(n).len() && 0 <= k < self.kept_cells(n).len() && j != k
                    ==> !self.successors_at(self.kept_cells(n))[j].spec_drop_history().spec_is_symmetry(
                    &self.successors_at(self.kept_cells(n))[k].spec_drop_history(),
                ),
        decreases n,
    {
        if n > 0 {
            self.lemma_kept_pairwise_distinct(n - 1);
            let before = self.successors_at(self.kept_cells(n - 1));
            let now = self.successors_at(self.kept_cells(n));
            if self.kept_cells(n).len() > self.kept_cells(n - 1).len() {
                let last = now.len() - 1;
                assert(now[last] == self.successor(n - 1));
                assert forall|j: int, k: int|
                    0 <= j < now.len() && 0 <= k < now.len() && j != k implies !(#[trigger] now[j]).spec_drop_history().spec_is_symmetry(
                &(#[trigger] now[k]).spec_drop_history()) by {
                    if j == last {
                        assert(now[k] == before[k]);
                    } else if k == last {
                        assert(now[j] == before[j]);
                        if now[j].spec_drop_history().spec_is_symmetry(
                            &now[k].spec_drop_history(),
                        ) {
                            now[j].spec_drop_history().lemma_symmetry_both_ways(
                                &now[k].spec_drop_history(),
                            );
                        }
                    } else {
                        assert(now[j] == before[j]);
                        assert(now[k] == before[k]);
                    }
                }
            } else {
                assert(now =~= before);
            }
        }
    }

    /// No two successors of a board are, with the move order forgotten,
    /// symmetric images of each other.
    pub proof fn lemma_children_pairwise_distinct(&self)
        ensures
            forall|j: int, k: int|
                #![trigger self.spec_children()[j], self.spec_children()[k]]
                0 <= j < self.spec_children().len() && 0 <= k < self.spec_children().len() && j
                    != k ==> !self.spec_children()[j].spec_drop_history().spec_is_symmetry(
                    &self.spec_children()[k].spec_drop_history(),
                ),
    {
        self.lemma_kept_pairwise_distinct(9);
    }

    /// Every move is represented: the successor through any empty cell of an
    /// open board is, with the move order forgotten, a symmetric image of a
    /// successor that was kept.
    pub proof fn lemma_children_cover_moves(&self, cell: int)
        requires
            self.spec_outcome() is None,
            0 <= cell < 9,
            self.moves[cell] == 0,
        ensures
            self.successor(cell).seen_up_to_symmetry(self.spec_children()),
    {
        self.lemma_seen_stays(9, cell);
    }

    /// Once its cell has been scanned, a successor is represented among those
    /// kept, however many further cells are scanned.
    proof fn lemma_seen_stays(&self, m: int, cell: int)
        requires
            0 <= cell < m <= 9,
            self.moves[cell] == 0,
        ensures
            self.successor(cell).seen_up_to_symmetry(self.successors_at(self.kept_cells(m))),
        decreases m,
    {
        let c = self.successor(cell);
        let before = self.successors_at(self.kept_cells(m - 1));
        let now = self.successors_at(self.kept_cells(m));
        if cell + 1 < m {
            self.lemma_seen_stays(m - 1, cell);
        }
        if c.seen_up_to_symmetry(before) {
            let k = choose|k: int|
                0 <= k < before.len() && c.spec_drop_history().spec_is_symmetry(
                    &(#[trigger] before[k]).spec_drop_history(),
                );
            assert(now[k] == before[k]);
        } else {
            let last = now.len() - 1;
            assert(now[last] == c);
            c.spec_drop_history().lemma_symmetry_of_itself();
        }
    }

    /// Whether, with the move order forgotten, the board is a symmetric image
    /// of one of `kept`.
    fn is_seen(&self, kept: &Vec<State>) -> (b: bool)
        ensures
            b == self.seen_up_to_symmetry(kept@),
    {
        let plain = self.drop_history();
        let mut k: usize = 0;
        while k < kept.len()
            invariant
                0 <= k <= kept.len(),
                plain == self.spec_drop_history(),
                forall|j: int|
                    0 <= j < k ==> !plain.spec_is_symmetry(&(#[trigger] kept@[j]).spec_drop_history()),
            decreases kept.len() - k,
        {
            let other = kept[k].drop_history();
            if plain.is_symmetry(&other) {
                return true;
            }
            k = k + 1;
        }
        false
    }

    /// The successors of the board, one for each move of the player to move
    /// that differs from the moves before it by more than a symmetry. The
    /// cells are tried from 0; of several moves that lead to symmetric
    /// positions the first is kept. A board on which the game is over has
    /// none.
    pub fn children(&self) -> (r: Vec<State>)
        requires
            self.spec_outcome() is None ==> self.max_move() < u8::MAX,
        ensures
            r@ == self.spec_children(),
            forall|j: int, k: int|
                #![trigger r@[j], r@[k]]
                0 <= j < r@.len() && 0 <= k < r@.len() && j != k
                    ==> !r@[j].spec_drop_history().spec_is_symmetry(&r@[k].spec_drop_history()),
    {
        let mut result: Vec<State> = Vec::new();
        if self.outcome().is_none() {
            let move_num = self.last_move();
            let mut i: usize = 0;
            while i < 9
                invariant
                    0 <= i <= 9,
                    move_num == self.max_move(),
                    move_num < u8::MAX,
                    result@ == self.successors_at(self.kept_cells(i as int)),
                decreases 9 - i,
            {
                if self.moves[i] == 0 {
                    let mut clone = *self;
                    clone.moves[i] = move_num + 1;
                    assert(clone.moves =~= self.successor(i as int).moves);
                    if !clone.is_seen(&result) {
                        result.push(clone);
                    }
                }
                i = i + 1;
                assert(result@ =~= self.successors_at(self.kept_cells(i as int)));
            }
        }
        proof {
            self.lemma_children_pairwise_distinct();
            assert(result@ =~= self.spec_children());
        }
        result
    }

    /// Appends the board and all that is reached from it to `result`, in
    /// depth-first order.
    pub fn descendants(&self, result: &mut Vec<State>)
        requires
            self.max_move() + self.empty_cells() <= u8::MAX,
        ensures
            final(result)@ == old(result)@ + self.spec_descendants(),
        decreases self.empty_cells(),
    {
        result.push(*self);
        let kids = self.children();
        let mut k: usize = 0;
        while k < kids.len()
            invariant
                0 <= k <= kids.len(),
                kids@ == self.spec_children(),
                self.max_move() + self.empty_cells() <= u8::MAX,
                result@ == old(result)@ + seq![*self] + self.descendants_of_children(k as int),
            decreases kids.len() - k,
        {
            proof {
                self.lemma_child_props(k as int);
            }
            let ghost before = result@;
            kids[k].descendants(result);
            k = k + 1;
            assert(result@ =~= old(result)@ + seq![*self] + self.descendants_of_children(k as int));
        }
        assert(result@ =~= old(result)@ + self.spec_descendants());
    }
}

/// The number of the symmetry that undoes symmetry `symmetry`.
pub open spec fn inverse_of(symmetry: u8) -> u8 {
    if symmetry == 5 {
        7
    } else if symmetry == 7 {
        5
    } else {
        symmetry
    }
}

} // verus!
