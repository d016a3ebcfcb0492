//! Weights of move orders: a number for the moves of each player that is
//! smaller the earlier the player took the cells with the small numbers.

use vstd::prelude::*;

use crate::board::State;
use crate::outcome::Player;

verus! {

/// 9 to the power of `e`.
pub open spec fn nine_to_the(e: nat) -> int
    decreases e,
{
    if e == 0 {
        1
    } else {
        9 * nine_to_the((e - 1) as nat)
    }
}

/// The weight of turn `turn` in cell `cell`: the number of the cell in the
/// base-9 place that belongs to the turn, the first turn having the highest
/// place.
pub open spec fn mark_weight(turn: u8, cell: int) -> int {
    nine_to_the((8 - turn) as nat) * cell
}

/// Whether `turn` is a turn of `player`.
pub open spec fn made_by(turn: u8, player: Player) -> bool {
    turn != 0 && (turn % 2 == 1 <==> player == Player::Player1)
}

impl State {
    /// The weights of the marks that `player` made in the cells below `n`,
    /// added up.
    pub open spec fn move_sum(&self, player: Player, n: int) -> int
        decreases n,
    {
        if n <= 0 {
            0
        } else if made_by(self.moves[n - 1], player) {
            self.move_sum(player, n - 1) + mark_weight(self.moves[n - 1], n - 1)
        } else {
            self.move_sum(player, n - 1)
        }
    }

    /// The move weights of Player 1 and of Player 2.
    pub open spec fn spec_move_sums(&self) -> (int, int) {
        (self.move_sum(Player::Player1, 9), self.move_sum(Player::Player2, 9))
    }

    /// The move weights of the two players, Player 1 first: for each mark of
    /// the player the number of its cell, times 9 to the power of 8 less the
    /// number of its turn, all added up.
    ///
    /// The board holds no turn above 8.
    pub fn move_sums(&self) -> (r: (i64, i64))
        requires
            forall|i: int| 0 <= i < 9 ==> self.moves[i] <= 8,
        ensures
            (r.0 as int, r.1 as int) == self.spec_move_sums(),
    {
        let mut p1sum: i64 = 0;
        let mut p2sum: i64 = 0;
        let mut i: usize = 0;
        while i < 9
            invariant
                0 <= i <= 9,
                forall|j: int| 0 <= j < 9 ==> self.moves[j] <= 8,
                p1sum == self.move_sum(Player::Player1, i as int),
                p2sum == self.move_sum(Player::Player2, i as int),
                0 <= p1sum <= 38263752 * i,
                0 <= p2sum <= 38263752 * i,
            decreases 9 - i,
        {
            let m = self.moves[i];
            if m != 0 {
                let place = nine_to(8 - m);
                assert(0 <= place * (i as int) <= 38263752) by (nonlinear_arith)
                    requires
                        0 < place <= 4782969,
                        0 <= i < 9,
                ;
                let weight: i64 = place * (i as i64);
                if m % 2 == 1 {
                    p1sum = p1sum + weight;
                } else {
                    p2sum = p2sum + weight;
                }
            }
            i = i + 1;
        }
        (p1sum, p2sum)
    }
}

impl State {
    /// The weights of the marks that `player` made in the cells below `n`
    /// with the turns from `lo` to `hi`, added up.
    pub open spec fn move_sum_between(&self, player: Player, lo: int, hi: int, n: int) -> int
        decreases n,
    {
        if n <= 0 {
            0
        } else if made_by(self.moves[n - 1], player) && lo <= self.moves[n - 1] <= hi {
            self.move_sum_between(player, lo, hi, n - 1) + mark_weight(self.moves[n - 1], n - 1)
        } else {
            self.move_sum_between(player, lo, hi, n - 1)
        }
    }

    /// The boards hold the same marks wherever one of them holds a mark that
    /// `player` made before turn `turn`.
    pub open spec fn same_before(&self, other: &State, player: Player, turn: u8) -> bool {
        forall|i: int|
            0 <= i < 9 && ((made_by(self.moves[i], player) && self.moves[i] < turn) || (made_by(
                other.moves[i],
                player,
            ) && other.moves[i] < turn)) ==> self.moves[i] == other.moves[i]
    }

    /// Turn `turn` stands in cell `cell` and nowhere else.
    pub open spec fn turn_is_at(&self, turn: u8, cell: int) -> bool {
        forall|i: int| 0 <= i < 9 ==> (self.moves[i] == turn <==> i == cell)
    }

    /// The move weight of a player splits into the weights of the turns
    /// before `turn`, of `turn` itself and of the turns after it.
    proof fn lemma_move_sum_splits(&self, player: Player, turn: int, n: int)
        requires
            0 <= n <= 9,
            forall|i: int| 0 <= i < 9 ==> self.moves[i] <= 8,
        ensures
            self.move_sum(player, n) == self.move_sum_between(player, 1, turn - 1, n)
                + self.move_sum_between(player, turn, turn, n) + self.move_sum_between(
                player,
                turn + 1,
                8,
                n,
            ),
        decreases n,
    {
        if n > 0 {
            self.lemma_move_sum_splits(player, turn, n - 1);
        }
    }

    /// Boards with the same early marks of a player have the same weight of
    /// these marks.
    proof fn lemma_same_before(&self, other: &State, player: Player, turn: u8, n: int)
        requires
            0 <= n <= 9,
            self.same_before(other, player, turn),
        ensures
            self.move_sum_between(player, 1, turn - 1, n) == other.move_sum_between(
                player,
                1,
                turn - 1,
                n,
            ),
        decreases n,
    {
        if n > 0 {
            self.lemma_same_before(other, player, turn, n - 1);
        }
    }

    /// The one mark of a turn weighs the number of its cell in the place of
    /// the turn.
    proof fn lemma_one_turn(&self, player: Player, turn: u8, cell: int, n: int)
        requires
            0 <= n <= 9,
            0 <= cell < 9,
            made_by(turn, player),
            self.turn_is_at(turn, cell),
        ensures
            self.move_sum_between(player, turn as int, turn as int, n) == if cell < n {
                mark_weight(turn, cell)
            } else {
                0
            },
        decreases n,
    {
        if n > 0 {
            self.lemma_one_turn(player, turn, cell, n - 1);
        }
    }

    /// The later marks of the player of turn `turn` all weigh less than one
    /// step in the place of `turn`.
    proof fn lemma_later_turns_weigh_little(&self, player: Player, turn: u8, n: int)
        requires
            0 <= n <= 9,
            1 <= turn <= 8,
            made_by(turn, player),
            forall|i: int| 0 <= i < 9 ==> self.moves[i] <= 8,
        ensures
            0 <= self.move_sum_between(player, turn + 1, 8, n),
            162 * self.move_sum_between(player, turn + 1, 8, n) <= nine_to_the((8 - turn) as nat)
                * (n * (n - 1)),
        decreases n,
    {
        lemma_nine_values();
        let w = nine_to_the((8 - turn) as nat);
        if n > 0 {
            self.lemma_later_turns_weigh_little(player, turn, n - 1);
            let m = self.moves[n - 1];
            let before = self.move_sum_between(player, turn + 1, 8, n - 1);
            if made_by(m, player) && turn + 1 <= m <= 8 {
                // a later turn of the same player comes at least two turns later
                assert(m >= turn + 2);
                let v = nine_to_the((8 - m) as nat);
                assert(0 < 81 * v <= w);
                let term = mark_weight(m, n - 1);
                assert(term == v * (n - 1));
                assert(0 <= 162 * term <= 2 * (w * (n - 1))) by (nonlinear_arith)
                    requires
                        0 < 81 * v <= w,
                        term == v * (n - 1),
                        n >= 1,
                ;
                assert(w * ((n - 1) * (n - 2)) + 2 * (w * (n - 1)) == w * (n * (n - 1)))
                    by (nonlinear_arith);
            } else {
                assert(w * ((n - 1) * (n - 2)) <= w * (n * (n - 1))) by (nonlinear_arith)
                    requires
                        w > 0,
                        n >= 1,
                ;
            }
        } else {
            assert(w * (n * (n - 1)) == 0) by (nonlinear_arith)
                requires
                    n == 0,
            ;
        }
    }

    /// The move weights order the ways of a player by the cells taken, the
    /// earlier turns first: of two boards that agree in the marks that
    /// `player` made before turn `turn`, the one on which the player took the
    /// cell with the smaller number at turn `turn` has the smaller weight,
    /// whatever the player did later.
    pub proof fn lemma_smaller_cell_weighs_less(
        &self,
        other: &State,
        player: Player,
        turn: u8,
        cell: int,
        other_cell: int,
    )
        requires
            1 <= turn <= 8,
            made_by(turn, player),
            forall|i: int| 0 <= i < 9 ==> self.moves[i] <= 8 && other.moves[i] <= 8,
            self.same_before(other, player, turn),
            0 <= cell < other_cell < 9,
            self.turn_is_at(turn, cell),
            other.turn_is_at(turn, other_cell),
        ensures
            self.move_sum(player, 9) < other.move_sum(player, 9),
    {
        self.lemma_move_sum_splits(player, turn as int, 9);
        other.lemma_move_sum_splits(player, turn as int, 9);
        self.lemma_same_before(other, player, turn, 9);
        self.lemma_one_turn(player, turn, cell, 9);
        other.lemma_one_turn(player, turn, other_cell, 9);
        self.lemma_later_turns_weigh_little(player, turn, 9);
        other.lemma_later_turns_weigh_little(player, turn, 9);
        let w = nine_to_the((8 - turn) as nat);
        lemma_nine_values();
        assert(w * other_cell >= w * cell + w) by (nonlinear_arith)
            requires
                w > 0,
                other_cell >= cell + 1,
        ;
        assert(w * (9int * (9 - 1)) == 72 * w) by (nonlinear_arith);
    }
}

impl State {
    /// On well-formed boards every turn stands once, so that the move
    /// weights order them: of two well-formed boards that agree in the marks
    /// that `player` made before one of the player's turns, the one with that
    /// turn in the cell with the smaller number has the smaller weight.
    pub proof fn lemma_well_formed_boards_are_ordered(
        &self,
        other: &State,
        player: Player,
        cell: int,
        other_cell: int,
    )
        requires
            self.well_formed(),
            other.well_formed(),
            forall|i: int| 0 <= i < 9 ==> self.moves[i] <= 8 && other.moves[i] <= 8,
            0 <= cell < other_cell < 9,
            self.moves[cell] == other.moves[other_cell],
            made_by(self.moves[cell], player),
            self.same_before(other, player, self.moves[cell]),
        ensures
            self.move_sum(player, 9) < other.move_sum(player, 9),
    {
        let turn = self.moves[cell];
        self.lemma_turn_stands_once(cell);
        other.lemma_turn_stands_once(other_cell);
        self.lemma_smaller_cell_weighs_less(other, player, turn, cell, other_cell);
    }
}

/// The powers of 9 up to the eighth.
pub proof fn lemma_nine_values()
    ensures
        nine_to_the(0) == 1,
        nine_to_the(1) == 9,
        nine_to_the(2) == 81,
        nine_to_the(3) == 729,
        nine_to_the(4) == 6561,
        nine_to_the(5) == 59049,
        nine_to_the(6) == 531441,
        nine_to_the(7) == 4782969,
        nine_to_the(8) == 43046721,
{
    reveal_with_fuel(nine_to_the, 10);
}

/// 9 to the power of `e`.
fn nine_to(e: u8) -> (r: i64)
    requires
        e <= 8,
    ensures
        r == nine_to_the(e as nat),
        0 < r <= 43046721,
        e <= 7 ==> r <= 4782969,
{
    let mut r: i64 = 1;
    let mut i: u8 = 0;
    proof {
        reveal_with_fuel(nine_to_the, 10);
    }
    while i < e
        invariant
            0 <= i <= e <= 8,
            r == nine_to_the(i as nat),
            nine_to_the(0) == 1,
            nine_to_the(1) == 9,
            nine_to_the(2) == 81,
            nine_to_the(3) == 729,
            nine_to_the(4) == 6561,
            nine_to_the(5) == 59049,
            nine_to_the(6) == 531441,
            nine_to_the(7) == 4782969,
            nine_to_the(8) == 43046721,
        decreases e - i,
    {
        r = r * 9;
        i = i + 1;
    }
    r
}

} // verus!
