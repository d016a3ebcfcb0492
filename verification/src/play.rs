//! Following a move through the game tree: the tree keeps one of several
//! symmetric successors, so a move leads to the kept board that shows the
//! same position.

use vstd::prelude::*;

use crate::board::State;
use crate::error::MoveError;
use crate::tree::{child_list_ok, GameTree, StateId};

verus! {

impl State {
    /// A symmetry moves the empty cells and keeps their number.
    pub proof fn lemma_rotate_keeps_empty_cells(&self, symmetry: u8)
        requires
            symmetry < 8,
        ensures
            self.spec_rotate(symmetry).empty_cells() == self.empty_cells(),
    {
        let r = self.spec_rotate(symmetry).moves;
        let m = self.moves;
        if symmetry == 0 {
            assert(r[0] == m[0] && r[1] == m[1] && r[2] == m[2] && r[3] == m[3] && r[4] == m[4]
                && r[5] == m[5] && r[6] == m[6] && r[7] == m[7] && r[8] == m[8]);
        } else if symmetry == 1 {
            assert(r[0] == m[0] && r[1] == m[3] && r[2] == m[6] && r[3] == m[1] && r[4] == m[4]
                && r[5] == m[7] && r[6] == m[2] && r[7] == m[5] && r[8] == m[8]);
        } else if symmetry == 2 {
            assert(r[0] == m[6] && r[1] == m[7] && r[2] == m[8] && r[3] == m[3] && r[4] == m[4]
                && r[5] == m[5] && r[6] == m[0] && r[7] == m[1] && r[8] == m[2]);
        } else if symmetry == 3 {
            assert(r[0] == m[8] && r[1] == m[5] && r[2] == m[2] && r[3] == m[7] && r[4] == m[4]
                && r[5] == m[1] && r[6] == m[6] && r[7] == m[3] && r[8] == m[0]);
        } else if symmetry == 4 {
            assert(r[0] == m[2] && r[1] == m[1] && r[2] == m[0] && r[3] == m[5] && r[4] == m[4]
                && r[5] == m[3] && r[6] == m[8] && r[7] == m[7] && r[8] == m[6]);
        } else if symmetry == 5 {
            assert(r[0] == m[2] && r[1] == m[5] && r[2] == m[8] && r[3] == m[1] && r[4] == m[4]
                && r[5] == m[7] && r[6] == m[0] && r[7] == m[3] && r[8] == m[6]);
        } else if symmetry == 6 {
            assert(r[0] == m[8] && r[1] == m[7] && r[2] == m[6] && r[3] == m[5] && r[4] == m[4]
                && r[5] == m[3] && r[6] == m[2] && r[7] == m[1] && r[8] == m[0]);
        } else {
            assert(r[0] == m[6] && r[1] == m[3] && r[2] == m[0] && r[3] == m[7] && r[4] == m[4]
                && r[5] == m[1] && r[6] == m[8] && r[7] == m[5] && r[8] == m[2]);
        }
    }

    /// Boards that are symmetric images of each other once the move order is
    /// forgotten have the same number of empty cells.
    pub proof fn lemma_images_have_equal_empty_cells(&self, other: &State)
        requires
            self.spec_drop_history().spec_is_symmetry(&other.spec_drop_history()),
        ensures
            self.empty_cells() == other.empty_cells(),
    {
        let a = self.spec_drop_history();
        let b = other.spec_drop_history();
        let symmetry = choose|symmetry: u8| symmetry < 8 && a == #[trigger] b.spec_rotate(symmetry);
        let ea = a.empty_cells();
        let eb = b.empty_cells();
        let er = b.spec_rotate(symmetry).empty_cells();
        assert(er == eb) by {
            b.lemma_rotate_keeps_empty_cells(symmetry);
        }
        assert(ea == self.empty_cells()) by {
            self.lemma_drop_history_keeps_empty_cells();
        }
        assert(eb == other.empty_cells()) by {
            other.lemma_drop_history_keeps_empty_cells();
        }
    }

    /// Forgetting the move order keeps the empty cells.
    pub proof fn lemma_drop_history_keeps_empty_cells(&self)
        ensures
            self.spec_drop_history().empty_cells() == self.empty_cells(),
    {
    }
}

impl GameTree {
    /// The last of the first `k` successors of board `state` that shows, with
    /// the move order forgotten, a symmetric image of `moved`.
    pub open spec fn last_image(&self, state: StateId, moved: State, k: int) -> Option<StateId>
        decreases k,
    {
        if k <= 0 {
            None
        } else {
            let child = self.children@[state]@[k - 1];
            if moved.spec_drop_history().spec_is_symmetry(
                &self.states@[child as int].spec_drop_history(),
            ) {
                Some(child)
            } else {
                self.last_image(state, moved, k - 1)
            }
        }
    }

    /// The successor of board `state` that the tree keeps for the move into
    /// `cell`.
    pub open spec fn spec_child_for_move(&self, state: StateId, cell: int) -> Option<StateId> {
        self.last_image(
            state,
            self.states@[state as int].successor(cell),
            self.children@[state]@.len() as int,
        )
    }

    /// The board that the move of the player to move into `cell` leads to
    /// from board `state`: the successor in the tree that shows the position
    /// after the move or a symmetric image of it. There is none where play
    /// has ended or the cell is taken.
    pub fn child_for_move(&self, state: StateId, cell: usize) -> (r: Option<StateId>)
        requires
            self.well_formed(),
            state < self.states@.len(),
            cell < 9,
        ensures
            r == self.spec_child_for_move(state, cell as int),
            r is Some <==> !self.terminals@.contains_key(state) && self.states@[state as int].moves[cell as int]
                == 0,
            r matches Some(child) ==> self.children@[state]@.contains(child),
    {
        let board = self.states[state];
        assert(board.well_formed());
        let turn = board.last_move();
        let mut moved = board;
        moved.moves[cell] = turn + 1;
        assert(moved.moves =~= board.successor(cell as int).moves);
        let plain = moved.drop_history();
        let listed = match self.children.get(&state) {
            Some(listed) => listed,
            None => { return None; },
        };
        assert(child_list_ok(self.states@, state as int, listed@));
        let mut found: Option<StateId> = None;
        let mut k: usize = 0;
        while k < listed.len()
            invariant
                0 <= k <= listed@.len(),
                listed@ == self.children@[state]@,
                state < self.states@.len(),
                child_list_ok(self.states@, state as int, listed@),
                plain == moved.spec_drop_history(),
                found == self.last_image(state, moved, k as int),
            decreases listed@.len() - k,
        {
            let child = listed[k];
            let other = self.states[child].drop_history();
            if plain.is_symmetry(&other) {
                found = Some(child);
            }
            k = k + 1;
        }
        proof {
            self.lemma_child_for_move(state, cell as int);
        }
        found
    }

    /// The board that the move into the cell at `position` leads to, the
    /// cells being counted from 1.
    pub open spec fn spec_child_for_position(&self, state: StateId, position: int) -> Result<
        StateId,
        MoveError,
    > {
        if position < 1 || position > 9 {
            Err(MoveError::BadPosition)
        } else {
            match self.spec_child_for_move(state, position - 1) {
                Some(child) => Ok(child),
                None => Err(MoveError::InvalidMove),
            }
        }
    }

    /// The board that a player's move leads to from board `state`, where the
    /// player names the cell by its position from 1 to 9. Fails on any other
    /// position, and on a move that cannot be made.
    pub fn child_for_position(&self, state: StateId, position: usize) -> (r: Result<
        StateId,
        MoveError,
    >)
        requires
            self.well_formed(),
            state < self.states@.len(),
        ensures
            r == self.spec_child_for_position(state, position as int),
            r is Ok <==> 1 <= position <= 9 && !self.terminals@.contains_key(state)
                && self.states@[state as int].moves[position - 1] == 0,
    {
        if position > 9 || position < 1 {
            return Err(MoveError::BadPosition);
        }
        match self.child_for_move(state, position - 1) {
            Some(child) => Ok(child),
            None => Err(MoveError::InvalidMove),
        }
    }

    /// A matching successor among the first `k` makes `last_image` find one,
    /// and what it finds is a matching successor.
    proof fn lemma_last_image(&self, state: StateId, moved: State, k: int)
        requires
            0 <= k <= self.children@[state]@.len(),
        ensures
            self.last_image(state, moved, k) is Some <==> exists|j: int|
                0 <= j < k && moved.spec_drop_history().spec_is_symmetry(
                    &self.states@[(#[trigger] self.children@[state]@[j]) as int].spec_drop_history(),
                ),
            self.last_image(state, moved, k) matches Some(child) ==> self.children@[state]@.contains(
                child,
            ) && moved.spec_drop_history().spec_is_symmetry(
                &self.states@[child as int].spec_drop_history(),
            ),
        decreases k,
    {
        if k > 0 {
            self.lemma_last_image(state, moved, k - 1);
            let listed = self.children@[state]@;
            let child = listed[k - 1];
            if moved.spec_drop_history().spec_is_symmetry(
                &self.states@[child as int].spec_drop_history(),
            ) {
                assert(listed[k - 1] == child);
            } else {
                if self.last_image(state, moved, k - 1) is Some {
                    let j = choose|j: int|
                        0 <= j < k - 1 && moved.spec_drop_history().spec_is_symmetry(
                            &self.states@[(#[trigger] listed[j]) as int].spec_drop_history(),
                        );
                    assert(0 <= j < k);
                }
            }
        }
    }

    /// In a well-formed tree a move leads on exactly from a board at which
    /// play has not ended, through an empty cell, and then to the one
    /// successor of the board that shows the position after the move or a
    /// symmetric image of it.
    pub proof fn lemma_child_for_move(&self, state: StateId, cell: int)
        requires
            self.well_formed(),
            state < self.states@.len(),
            0 <= cell < 9,
        ensures
            self.spec_child_for_move(state, cell) is Some <==> !self.terminals@.contains_key(state)
                && self.states@[state as int].moves[cell] == 0,
            self.spec_child_for_move(state, cell) matches Some(child)
                ==> self.children@[state]@.contains(child) && self.states@[state as int].successor(
                cell,
            ).spec_drop_history().spec_is_symmetry(&self.states@[child as int].spec_drop_history()),
            forall|k: int|
                0 <= k < self.children@[state]@.len() && self.states@[state as int].successor(
                    cell,
                ).spec_drop_history().spec_is_symmetry(
                    &self.states@[(#[trigger] self.children@[state]@[k]) as int].spec_drop_history(),
                ) ==> self.spec_child_for_move(state, cell) == Some(self.children@[state]@[k]),
    {
        assert forall|k: int|
            0 <= k < self.children@[state]@.len() && self.states@[state as int].successor(
                cell,
            ).spec_drop_history().spec_is_symmetry(
                &self.states@[(#[trigger] self.children@[state]@[k]) as int].spec_drop_history(),
            ) implies self.spec_child_for_move(state, cell) == Some(self.children@[state]@[k]) by {
            let listed = self.children@[state]@;
            let moved = self.states@[state as int].successor(cell).spec_drop_history();
            self.lemma_last_image(state, self.states@[state as int].successor(cell), listed.len() as int);
            let found = self.spec_child_for_move(state, cell)->Some_0;
            let j = choose|j: int| 0 <= j < listed.len() && listed[j] == found;
            if j != k {
                let a = self.states@[listed[j] as int].spec_drop_history();
                let b = self.states@[listed[k] as int].spec_drop_history();
                moved.lemma_symmetry_both_ways(&a);
                a.lemma_symmetry_chain(&moved, &b);
                self.lemma_siblings_differ(state, j, k);
            }
        }
        let f = self.states@;
        let board = f[state as int];
        let moved = board.successor(cell);
        let listed = self.children@[state]@;
        let n = listed.len() as int;
        assert(board.well_formed());
        assert(child_list_ok(f, state as int, listed));
        self.lemma_last_image(state, moved, n);
        if self.terminals@.contains_key(state) {
            assert(n == 0);
        } else {
            assert(board.spec_forced_outcome() is None);
            assert(board.spec_outcome() is None);
            if board.moves[cell] == 0 {
                board.lemma_children_cover_moves(cell);
                let kids = board.spec_children();
                let j = choose|j: int|
                    0 <= j < kids.len() && moved.spec_drop_history().spec_is_symmetry(
                        &(#[trigger] kids[j]).spec_drop_history(),
                    );
                assert(f[listed[j] as int] == kids[j]);
            } else {
                if self.last_image(state, moved, n) is Some {
                    let j = choose|j: int|
                        0 <= j < n && moved.spec_drop_history().spec_is_symmetry(
                            &f[(#[trigger] listed[j]) as int].spec_drop_history(),
                        );
                    let child = f[listed[j] as int];
                    assert(child == board.spec_children()[j]);
                    board.lemma_child_props(j);
                    moved.lemma_images_have_equal_empty_cells(&child);
                    assert(moved.empty_cells() == board.empty_cells());
                }
            }
        }
    }
}

} // verus!
