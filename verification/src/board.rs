//! Boards of the 3×3 game: move order, the player to move, finished games,
//! and the eight symmetries of the square.

use vstd::prelude::*;

use crate::outcome::{Outcome, Player};

verus! {

/// A board. Cell `3 * row + column` holds 0 while it is empty, and otherwise
/// the number of the turn, counted from 1, on which it was marked. Player 1
/// makes the odd turns and Player 2 the even ones.
#[derive(Clone, Copy, PartialEq, Eq, Hash, Debug)]
pub struct State {
    pub moves: [u8; 9],
}

/// The larger of two cell values.
pub open spec fn larger(a: u8, b: u8) -> u8 {
    if a >= b {
        a
    } else {
        b
    }
}

/// 1 for an empty cell, 0 for a marked one.
pub open spec fn vacancy(m: u8) -> nat {
    if m == 0 {
        1
    } else {
        0
    }
}

/// A mark that Player 1 made.
pub open spec fn first_players(m: u8) -> bool {
    m % 2 == 1
}

/// A mark that Player 2 made.
pub open spec fn second_players(m: u8) -> bool {
    m != 0 && m % 2 == 0
}

/// A cell with its place in the move order forgotten: 0 stays 0, a mark of
/// Player 1 becomes 1 and a mark of Player 2 becomes 2.
pub open spec fn owner_mark(m: u8) -> u8 {
    if m == 0 {
        0
    } else if m % 2 == 1 {
        1
    } else {
        2
    }
}

/// The three cells of line `l`: the rows from the top, the columns from the
/// left, the main diagonal, the other diagonal.
pub open spec fn line_cells(l: int) -> (int, int, int) {
    if l == 0 {
        (0, 1, 2)
    } else if l == 1 {
        (3, 4, 5)
    } else if l == 2 {
        (6, 7, 8)
    } else if l == 3 {
        (0, 3, 6)
    } else if l == 4 {
        (1, 4, 7)
    } else if l == 5 {
        (2, 5, 8)
    } else if l == 6 {
        (0, 4, 8)
    } else {
        (2, 4, 6)
    }
}

/// The cell whose content symmetry `symmetry` moves to the cell at `row`,
/// `column`. The symmetries are, from 0: the identity, the transpose, the
/// flip that swaps the top and bottom rows, the transpose about the other
/// diagonal, the flip that swaps the left and right columns, the quarter turn
/// that takes the top left corner to the bottom left, the half turn, and the
/// quarter turn the other way.
pub open spec fn source_cell(symmetry: int, row: int, column: int) -> int {
    if symmetry == 0 {
        row * 3 + column
    } else if symmetry == 1 {
        column * 3 + row
    } else if symmetry == 2 {
        (2 - row) * 3 + column
    } else if symmetry == 3 {
        (2 - column) * 3 + (2 - row)
    } else if symmetry == 4 {
        row * 3 + (2 - column)
    } else if symmetry == 5 {
        column * 3 + (2 - row)
    } else if symmetry == 6 {
        (2 - row) * 3 + (2 - column)
    } else {
        (2 - column) * 3 + row
    }
}

impl State {
    /// The empty board.
    pub open spec fn spec_start() -> State {
        State { moves: [0u8, 0u8, 0u8, 0u8, 0u8, 0u8, 0u8, 0u8, 0u8] }
    }

    /// The number of the last turn made: the largest cell value.
    pub open spec fn max_move(&self) -> u8 {
        larger(
            self.moves[0],
            larger(
                self.moves[1],
                larger(
                    self.moves[2],
                    larger(
                        self.moves[3],
                        larger(
                            self.moves[4],
                            larger(
                                self.moves[5],
                                larger(self.moves[6], larger(self.moves[7], self.moves[8])),
                            ),
                        ),
                    ),
                ),
            ),
        )
    }

    /// How many cells are empty.
    pub open spec fn empty_cells(&self) -> nat {
        vacancy(self.moves[0]) + vacancy(self.moves[1]) + vacancy(self.moves[2]) + vacancy(
            self.moves[3],
        ) + vacancy(self.moves[4]) + vacancy(self.moves[5]) + vacancy(self.moves[6]) + vacancy(
            self.moves[7],
        ) + vacancy(self.moves[8])
    }

    /// No cell is empty.
    pub open spec fn is_full(&self) -> bool {
        forall|i: int| 0 <= i < 9 ==> self.moves[i] != 0
    }

    /// Some cell holds turn `turn`.
    pub open spec fn has_move(&self, turn: int) -> bool {
        exists|i: int| 0 <= i < 9 && self.moves[i] == turn
    }

    /// The board records a real sequence of turns: every turn from 1 to the
    /// last one is on the board, no turn is there twice, and there are as
    /// many marks as turns were made, so that at most nine were made.
    pub open spec fn well_formed(&self) -> bool {
        &&& self.max_move() + self.empty_cells() == 9
        &&& forall|turn: int| 1 <= turn <= self.max_move() ==> #[trigger] self.has_move(turn)
        &&& self.no_turn_twice()
    }

    /// No turn stands in two cells.
    #[verifier::opaque]
    pub open spec fn no_turn_twice(&self) -> bool {
        forall|i: int, j: int|
            0 <= i < j < 9 && self.moves[i] != 0 ==> self.moves[i] != self.moves[j]
    }

    /// On a well-formed board the turn of a marked cell stands in that cell
    /// and nowhere else.
    pub proof fn lemma_turn_stands_once(&self, cell: int)
        requires
            self.well_formed(),
            0 <= cell < 9,
            self.moves[cell] != 0,
        ensures
            forall|i: int| 0 <= i < 9 ==> (self.moves[i] == self.moves[cell] <==> i == cell),
    {
        reveal(State::no_turn_twice);
    }

    /// The player to move: Player 1 after an even number of turns.
    pub open spec fn spec_current_player(&self) -> Player {
        if self.max_move() % 2 == 0 {
            Player::Player1
        } else {
            Player::Player2
        }
    }

    /// What line `l` decides: `Win` where Player 1 holds its three cells,
    /// `Lose` where Player 2 does.
    pub open spec fn line_result(&self, l: int) -> Option<Outcome> {
        let (a, b, c) = line_cells(l);
        if first_players(self.moves[a]) && first_players(self.moves[b]) && first_players(
            self.moves[c],
        ) {
            Some(Outcome::Win)
        } else if second_players(self.moves[a]) && second_players(self.moves[b])
            && second_players(self.moves[c]) {
            Some(Outcome::Lose)
        } else {
            None
        }
    }

    /// What the first decided line among the lines `l`, `l + 1`, .. decides.
    pub open spec fn first_line_result(&self, l: int) -> Option<Outcome>
        decreases 8 - l,
    {
        if l < 0 || l >= 8 {
            None
        } else if self.line_result(l) is Some {
            self.line_result(l)
        } else {
            self.first_line_result(l + 1)
        }
    }

    /// The result of the positional game, if it is over: what the first
    /// decided line says, and a tie on a full board without one.
    pub open spec fn spec_outcome(&self) -> Option<Outcome> {
        if self.first_line_result(0) is Some {
            self.first_line_result(0)
        } else if self.is_full() {
            Some(Outcome::Tie)
        } else {
            None
        }
    }

    /// The game on this board is over.
    pub open spec fn spec_is_final(&self) -> bool {
        self.spec_outcome() is Some
    }

    /// The board with the move order forgotten.
    pub open spec fn spec_drop_history(&self) -> State {
        State {
            moves: [
                owner_mark(self.moves[0]),
                owner_mark(self.moves[1]),
                owner_mark(self.moves[2]),
                owner_mark(self.moves[3]),
                owner_mark(self.moves[4]),
                owner_mark(self.moves[5]),
                owner_mark(self.moves[6]),
                owner_mark(self.moves[7]),
                owner_mark(self.moves[8]),
            ],
        }
    }

    /// The board as symmetry `symmetry` shows it.
    pub open spec fn spec_rotate(&self, symmetry: u8) -> State {
        let s = symmetry as int;
        State {
            moves: [
                self.moves[source_cell(s, 0, 0)],
                self.moves[source_cell(s, 0, 1)],
                self.moves[source_cell(s, 0, 2)],
                self.moves[source_cell(s, 1, 0)],
                self.moves[source_cell(s, 1, 1)],
                self.moves[source_cell(s, 1, 2)],
                self.moves[source_cell(s, 2, 0)],
                self.moves[source_cell(s, 2, 1)],
                self.moves[source_cell(s, 2, 2)],
            ],
        }
    }

    /// Some symmetry of the square shows `other` as this board.
    pub open spec fn spec_is_symmetry(&self, other: &State) -> bool {
        exists|symmetry: u8| symmetry < 8 && *self == #[trigger] other.spec_rotate(symmetry)
    }

    /// The empty board, on which Player 1 is to move.
    pub fn start() -> (r: State)
        ensures
            r == State::spec_start(),
            r.well_formed(),
    {
        let r = State { moves: [0, 0, 0, 0, 0, 0, 0, 0, 0] };
        assert(r.moves =~= State::spec_start().moves);
        assert(r.no_turn_twice()) by {
            reveal(State::no_turn_twice);
        }
        r
    }

    /// The number of the last turn made.
    pub fn last_move(&self) -> (m: u8)
        ensures
            m == self.max_move(),
    {
        let mut m: u8 = self.moves[0];
        let mut i: usize = 1;
        while i < 9
            invariant
                1 <= i <= 9,
                forall|j: int| 0 <= j < i ==> self.moves[j] <= m,
                exists|j: int| 0 <= j < i && self.moves[j] == m,
            decreases 9 - i,
        {
            if self.moves[i] > m {
                m = self.moves[i];
            }
            i = i + 1;
        }
        m
    }

    /// The player to move.
    #[verifier::when_used_as_spec(spec_current_player)]
    pub fn current_player(&self) -> (p: Player)
        ensures
            p == self.spec_current_player(),
    {
        let max = self.last_move();
        if max % 2 == 0 {
            Player::Player1
        } else {
            Player::Player2
        }
    }

    /// Whether the game on this board is over.
    #[verifier::when_used_as_spec(spec_is_final)]
    pub fn is_final(&self) -> (b: bool)
        ensures
            b == self.spec_is_final(),
    {
        self.outcome().is_some()
    }

    /// The result of the positional game, or `None` while it is still open.
    #[verifier::when_used_as_spec(spec_outcome)]
    pub fn outcome(&self) -> (r: Option<Outcome>)
        ensures
            r == self.spec_outcome(),
    {
        let mut l: usize = 0;
        while l < 8
            invariant
                0 <= l <= 8,
                self.first_line_result(0) == self.first_line_result(l as int),
            decreases 8 - l,
        {
            let (a, b, c) = line_of(l);
            let (x, y, z) = (self.moves[a], self.moves[b], self.moves[c]);
            if x % 2 == 1 && y % 2 == 1 && z % 2 == 1 {
                return Some(Outcome::Win);
            }
            if x != 0 && x % 2 == 0 && y != 0 && y % 2 == 0 && z != 0 && z % 2 == 0 {
                return Some(Outcome::Lose);
            }
            l = l + 1;
        }
        let mut i: usize = 0;
        while i < 9
            invariant
                0 <= i <= 9,
                self.first_line_result(0) is None,
                forall|j: int| 0 <= j < i ==> self.moves[j] != 0,
            decreases 9 - i,
        {
            if self.moves[i] == 0 {
                assert(!self.is_full()) by {
                    assert(self.moves[i as int] == 0);
                }
                return None;
            }
            i = i + 1;
        }
        Some(Outcome::Tie)
    }

    /// The board with the move order forgotten: every mark of Player 1
    /// becomes 1 and every mark of Player 2 becomes 2.
    #[verifier::when_used_as_spec(spec_drop_history)]
    pub fn drop_history(&self) -> (r: State)
        ensures
            r == self.spec_drop_history(),
    {
        let mut moves = [0u8;9];
        let mut i: usize = 0;
        while i < 9
            invariant
                0 <= i <= 9,
                forall|j: int| 0 <= j < i ==> moves[j] == owner_mark(self.moves[j]),
            decreases 9 - i,
        {
            let m = self.moves[i];
            moves[i] = if m == 0 {
                0
            } else {
                (m - 1) % 2 + 1
            };
            i = i + 1;
        }
        let r = State { moves };
        assert(r.moves =~= self.spec_drop_history().moves);
        r
    }

    /// The board as one of the eight symmetries of the square shows it; see
    /// `source_cell` for their numbers.
    #[verifier::when_used_as_spec(spec_rotate)]
    pub fn rotate(&self, symmetry: u8) -> (r: State)
        requires
            symmetry < 8,
        ensures
            r == self.spec_rotate(symmetry),
    {
        let mut moves = [0u8;9];
        let mut x: usize = 0;
        while x < 3
            invariant
                0 <= x <= 3,
                symmetry < 8,
                forall|row: int, column: int|
                    0 <= row < x && 0 <= column < 3 ==> moves[row * 3 + column]
                        == self.moves[#[trigger] source_cell(symmetry as int, row, column)],
            decreases 3 - x,
        {
            let mut y: usize = 0;
            while y < 3
                invariant
                    0 <= x < 3,
                    0 <= y <= 3,
                    symmetry < 8,
                    forall|row: int, column: int|
                        0 <= row < x && 0 <= column < 3 ==> moves[row * 3 + column]
                            == self.moves[#[trigger] source_cell(symmetry as int, row, column)],
                    forall|column: int|
                        0 <= column < y ==> moves[x * 3 + column] == self.moves[#[trigger] source_cell(
                            symmetry as int,
                            x as int,
                            column,
                        )],
                decreases 3 - y,
            {
                let from: usize = if symmetry == 0 {
                    x * 3 + y
                } else if symmetry == 1 {
                    y * 3 + x
                } else if symmetry == 2 {
                    (2 - x) * 3 + y
                } else if symmetry == 3 {
                    (2 - y) * 3 + (2 - x)
                } else if symmetry == 4 {
                    x * 3 + (2 - y)
                } else if symmetry == 5 {
                    y * 3 + (2 - x)
                } else if symmetry == 6 {
                    (2 - x) * 3 + (2 - y)
                } else {
                    (2 - y) * 3 + x
                };
                moves[x * 3 + y] = self.moves[from];
                y = y + 1;
            }
            x = x + 1;
        }
        let r = State { moves };
        proof {
            let s = symmetry as int;
            let w = self.spec_rotate(symmetry);
            assert(moves[0int * 3 + 0] == self.moves[source_cell(s, 0, 0)]);
            assert(moves[0int * 3 + 1] == self.moves[source_cell(s, 0, 1)]);
            assert(moves[0int * 3 + 2] == self.moves[source_cell(s, 0, 2)]);
            assert(moves[1int * 3 + 0] == self.moves[source_cell(s, 1, 0)]);
            assert(moves[1int * 3 + 1] == self.moves[source_cell(s, 1, 1)]);
            assert(moves[1int * 3 + 2] == self.moves[source_cell(s, 1, 2)]);
            assert(moves[2int * 3 + 0] == self.moves[source_cell(s, 2, 0)]);
            assert(moves[2int * 3 + 1] == self.moves[source_cell(s, 2, 1)]);
            assert(moves[2int * 3 + 2] == self.moves[source_cell(s, 2, 2)]);
            assert(r.moves =~= w.moves);
        }
        r
    }

    /// Whether the two boards hold the same cells.
    pub fn same_as(&self, other: &State) -> (b: bool)
        ensures
            b == (*self == *other),
    {
        let mut i: usize = 0;
        while i < 9
            invariant
                0 <= i <= 9,
                forall|j: int| 0 <= j < i ==> self.moves[j] == other.moves[j],
            decreases 9 - i,
        {
            if self.moves[i] != other.moves[i] {
                return false;
            }
            i = i + 1;
        }
        assert(self.moves =~= other.moves);
        true
    }

    /// Whether one of the eight symmetries of the square shows `other` as
    /// this board.
    #[verifier::when_used_as_spec(spec_is_symmetry)]
    pub fn is_symmetry(&self, other: &State) -> (b: bool)
        ensures
            b == self.spec_is_symmetry(other),
    {
        let mut i: u8 = 0;
        while i < 8
            invariant
                0 <= i <= 8,
                forall|symmetry: u8| symmetry < i ==> *self != #[trigger] other.spec_rotate(symmetry),
            decreases 8 - i,
        {
            let shown = other.rotate(i);
            if self.same_as(&shown) {
                return true;
            }
            i = i + 1;
        }
        false
    }
}

/// The three cells of line `l`.
fn line_of(l: usize) -> (r: (usize, usize, usize))
    requires
        l < 8,
    ensures
        (r.0 as int, r.1 as int, r.2 as int) == line_cells(l as int),
        r.0 < 9,
        r.1 < 9,
        r.2 < 9,
{
    if l == 0 {
        (0, 1, 2)
    } else if l == 1 {
        (3, 4, 5)
    } else if l == 2 {
        (6, 7, 8)
    } else if l == 3 {
        (0, 3, 6)
    } else if l == 4 {
        (1, 4, 7)
    } else if l == 5 {
        (2, 5, 8)
    } else if l == 6 {
        (0, 4, 8)
    } else {
        (2, 4, 6)
    }
}

} // verus!
