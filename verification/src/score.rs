//! The score grid of a match over several rounds: the cells, what a round
//! pays in each, and the order in which the cells are solved.

use vstd::prelude::*;

use crate::error::ConfigError;
use crate::payoff::PayoffCase;

verus! {

/// A cell of the score grid: the points of the two players before a round.
#[derive(Clone, Copy, PartialEq, Eq, Hash, Debug, Structural)]
pub struct Subgame {
    pub p1score: i8,
    pub p2score: i8,
}

/// What the match is worth to the player who moves first in the next round,
/// at given scores.
#[derive(Clone, Copy, PartialEq, Eq, Hash, Debug, Structural)]
pub enum ScoreValue {
    /// The player has reached the winning score alone: the value is 1.
    Won,
    /// The other player has reached the winning score alone: the value is -1.
    Lost,
    /// The match goes on with the roles swapped: the value is minus the value
    /// of the cell named.
    MinusValueOf(Subgame),
}

/// What a round in a cell pays in each of the four ways it can end.
#[derive(Clone, Copy, PartialEq, Eq, Hash, Debug, Structural)]
pub struct ChildPayoffs {
    pub both_win: ScoreValue,
    pub p1_win: ScoreValue,
    pub p2_win: ScoreValue,
    pub both_lose: ScoreValue,
}

/// The value of the match at the scores `p1score` and `p2score` where
/// `winning_score` points win: 1 or -1 where one player alone has won; where
/// both have, the match goes on from the cell just below the winning score
/// for both; otherwise it goes on from the cell of the two scores. In both
/// of these cases the other player moves first, so that the value is minus
/// that of the cell with the scores swapped.
pub open spec fn spec_value_of_score(winning_score: i8, p1score: i8, p2score: i8) -> ScoreValue {
    if p1score >= winning_score && p2score >= winning_score {
        ScoreValue::MinusValueOf(
            Subgame {
                p1score: (winning_score - 1) as i8,
                p2score: (winning_score - 1) as i8,
            },
        )
    } else if p1score >= winning_score {
        ScoreValue::Won
    } else if p2score >= winning_score {
        ScoreValue::Lost
    } else {
        ScoreValue::MinusValueOf(Subgame { p1score: p2score, p2score: p1score })
    }
}

/// The value of the match at the scores `p1score` and `p2score`.
pub fn value_of_score(winning_score: i8, p1score: i8, p2score: i8) -> (r: ScoreValue)
    requires
        winning_score > i8::MIN,
    ensures
        r == spec_value_of_score(winning_score, p1score, p2score),
{
    if p1score >= winning_score && p2score >= winning_score {
        ScoreValue::MinusValueOf(
            Subgame { p1score: winning_score - 1, p2score: winning_score - 1 },
        )
    } else if p1score >= winning_score {
        ScoreValue::Won
    } else if p2score >= winning_score {
        ScoreValue::Lost
    } else {
        ScoreValue::MinusValueOf(Subgame { p1score: p2score, p2score: p1score })
    }
}

/// The pair of mirror cells with the scores `larger` and `smaller`: the cell
/// in which Player 1 has the larger score, and the cell in which Player 2
/// has.
pub open spec fn mirror_pair(larger: int, smaller: int) -> (Subgame, Subgame) {
    (
        Subgame { p1score: larger as i8, p2score: smaller as i8 },
        Subgame { p1score: smaller as i8, p2score: larger as i8 },
    )
}

/// The pairs of mirror cells from the pair of `larger` and `smaller` on, in
/// the order in which they are solved: the smaller score falls to 0, then
/// the larger score falls by one and the smaller score starts from it again.
pub open spec fn order_from(larger: int, smaller: int) -> Seq<(Subgame, Subgame)>
    decreases larger, smaller,
    when 0 <= smaller <= larger
{
    seq![mirror_pair(larger, smaller)] + if smaller > 0 {
        order_from(larger, smaller - 1)
    } else if larger > 0 {
        order_from(larger - 1, larger - 1)
    } else {
        Seq::empty()
    }
}

/// The pairs of mirror cells of the grid in the order in which they are
/// solved, from the pair in which both players lack one point.
pub open spec fn spec_solve_order(winning_score: i8) -> Seq<(Subgame, Subgame)> {
    if winning_score >= 1 {
        order_from(winning_score - 1, winning_score - 1)
    } else {
        Seq::empty()
    }
}

/// The pair of `l1` and `s1` is solved no later than the pair of `l2` and
/// `s2`.
pub open spec fn no_later(l1: int, s1: int, l2: int, s2: int) -> bool {
    l1 > l2 || (l1 == l2 && s1 >= s2)
}

/// The larger of the two scores of a cell.
pub open spec fn larger_score(c: Subgame) -> int {
    if c.p1score >= c.p2score {
        c.p1score as int
    } else {
        c.p2score as int
    }
}

/// The smaller of the two scores of a cell.
pub open spec fn smaller_score(c: Subgame) -> int {
    if c.p1score >= c.p2score {
        c.p2score as int
    } else {
        c.p1score as int
    }
}

/// The cell is one of the pair.
pub open spec fn in_pair(c: Subgame, pair: (Subgame, Subgame)) -> bool {
    c == pair.0 || c == pair.1
}

/// The cell lies in the grid of a match that `winning_score` points win.
pub open spec fn in_grid(winning_score: i8, c: Subgame) -> bool {
    0 <= c.p1score < winning_score && 0 <= c.p2score < winning_score
}

/// The value refers to no cell, or to a cell of the grid whose pair is
/// solved no later than the pair of `c`.
pub open spec fn looks_back(winning_score: i8, c: Subgame, value: ScoreValue) -> bool {
    match value {
        ScoreValue::MinusValueOf(d) => in_grid(winning_score, d) && no_later(
            larger_score(d),
            smaller_score(d),
            larger_score(c),
            smaller_score(c),
        ),
        _ => true,
    }
}

impl Subgame {
    /// The cell with the scores of the two players swapped.
    pub open spec fn spec_mirror(&self) -> Subgame {
        Subgame { p1score: self.p2score, p2score: self.p1score }
    }

    /// What a round in this cell pays.
    pub open spec fn spec_child_payoffs(&self, winning_score: i8) -> ChildPayoffs {
        ChildPayoffs {
            both_win: spec_value_of_score(
                winning_score,
                (self.p1score + 1) as i8,
                (self.p2score + 1) as i8,
            ),
            p1_win: spec_value_of_score(winning_score, (self.p1score + 1) as i8, self.p2score),
            p2_win: spec_value_of_score(winning_score, self.p1score, (self.p2score + 1) as i8),
            both_lose: spec_value_of_score(winning_score, self.p1score, self.p2score),
        }
    }

    /// In this cell a round in which both players score does not leave the
    /// cell: both lack one point only.
    pub open spec fn spec_double_score_stays(&self, winning_score: i8) -> bool {
        self.p1score == winning_score - 1 && self.p2score == winning_score - 1
    }

    /// The cell with the scores of the two players swapped.
    #[verifier::when_used_as_spec(spec_mirror)]
    pub fn mirror(&self) -> (r: Subgame)
        ensures
            r == self.spec_mirror(),
    {
        Subgame { p1score: self.p2score, p2score: self.p1score }
    }

    /// What a round in this cell pays in each of the four ways it can end:
    /// the value of the match at the scores after the round.
    pub fn child_payoffs(&self, winning_score: i8) -> (r: ChildPayoffs)
        requires
            winning_score > i8::MIN,
            self.p1score < i8::MAX,
            self.p2score < i8::MAX,
        ensures
            r == self.spec_child_payoffs(winning_score),
    {
        ChildPayoffs {
            both_win: value_of_score(winning_score, self.p1score + 1, self.p2score + 1),
            p1_win: value_of_score(winning_score, self.p1score + 1, self.p2score),
            p2_win: value_of_score(winning_score, self.p1score, self.p2score + 1),
            both_lose: value_of_score(winning_score, self.p1score, self.p2score),
        }
    }

    /// Whether a round in which both players score does not leave this cell.
    pub fn double_score_stays(&self, winning_score: i8) -> (b: bool)
        requires
            winning_score > i8::MIN,
        ensures
            b == self.spec_double_score_stays(winning_score),
    {
        self.p1score == winning_score - 1 && self.p2score == winning_score - 1
    }

    /// Every cell that a payoff of a cell of the grid refers to lies in the
    /// grid, in a pair that is solved no later than the pair of the cell.
    pub proof fn lemma_payoffs_look_back(&self, winning_score: i8)
        requires
            in_grid(winning_score, *self),
        ensures
            looks_back(winning_score, *self, self.spec_child_payoffs(winning_score).both_win),
            looks_back(winning_score, *self, self.spec_child_payoffs(winning_score).p1_win),
            looks_back(winning_score, *self, self.spec_child_payoffs(winning_score).p2_win),
            looks_back(winning_score, *self, self.spec_child_payoffs(winning_score).both_lose),
    {
    }
}

impl ChildPayoffs {
    /// The payoff of the case.
    pub open spec fn spec_get(&self, case: PayoffCase) -> ScoreValue {
        match case {
            PayoffCase::BothWin => self.both_win,
            PayoffCase::P1Win => self.p1_win,
            PayoffCase::P2Win => self.p2_win,
            PayoffCase::BothLose => self.both_lose,
        }
    }

    /// What the round pays where it ends as `case` says.
    #[verifier::when_used_as_spec(spec_get)]
    pub fn get(&self, case: PayoffCase) -> (r: ScoreValue)
        ensures
            r == self.spec_get(case),
    {
        match case {
            PayoffCase::BothWin => self.both_win,
            PayoffCase::P1Win => self.p1_win,
            PayoffCase::P2Win => self.p2_win,
            PayoffCase::BothLose => self.both_lose,
        }
    }
}

/// The pairs of mirror cells of the grid in the order in which they are
/// solved: the pairs with the larger score just below the winning score
/// first, and among pairs with the same larger score those with the larger
/// smaller score. A pair of equal scores holds the same cell twice.
///
/// Fails if the winning score is below 1, so that the grid has no cell.
pub fn solve_order(winning_score: i8) -> (r: Result<Vec<(Subgame, Subgame)>, ConfigError>)
    ensures
        match r {
            Ok(order) => winning_score >= 1 && order@ == spec_solve_order(winning_score),
            Err(e) => winning_score < 1 && e == ConfigError::WinningScore,
        },
{
    if winning_score < 1 {
        return Err(ConfigError::WinningScore);
    }
    let mut order: Vec<(Subgame, Subgame)> = Vec::new();
    let mut larger: i8 = winning_score - 1;
    let mut smaller: i8 = winning_score - 1;
    let mut done = false;
    while !done
        invariant
            winning_score >= 1,
            0 <= smaller <= larger < winning_score,
            !done ==> order@ + order_from(larger as int, smaller as int) == spec_solve_order(
                winning_score,
            ),
            done ==> order@ == spec_solve_order(winning_score),
        decreases larger * 200 + smaller + if done { 0int } else { 1int },
    {
        order.push(
            (
                Subgame { p1score: larger, p2score: smaller },
                Subgame { p1score: smaller, p2score: larger },
            ),
        );
        let ghost rest = if smaller > 0 {
            order_from(larger as int, smaller - 1)
        } else if larger > 0 {
            order_from(larger - 1, larger - 1)
        } else {
            Seq::empty()
        };
        assert(order@ + rest =~= spec_solve_order(winning_score)) by {
            assert(order_from(larger as int, smaller as int) =~= seq![
                mirror_pair(larger as int, smaller as int),
            ] + rest);
        }
        if smaller > 0 {
            smaller = smaller - 1;
        } else if larger > 0 {
            larger = larger - 1;
            smaller = larger;
        } else {
            done = true;
            assert(order@ + Seq::<(Subgame, Subgame)>::empty() =~= order@);
        }
    }
    Ok(order)
}

/// The order from a pair on holds that pair first and then only pairs that
/// are solved later, each later than the one before.
pub proof fn lemma_order_falls(larger: int, smaller: int)
    requires
        0 <= smaller <= larger <= i8::MAX,
    ensures
        order_from(larger, smaller).len() > 0,
        order_from(larger, smaller)[0] == mirror_pair(larger, smaller),
        forall|i: int|
            0 <= i < order_from(larger, smaller).len() ==> no_later(
                larger,
                smaller,
                larger_score((#[trigger] order_from(larger, smaller)[i]).0),
                smaller_score(order_from(larger, smaller)[i].0),
            ) && 0 <= smaller_score(order_from(larger, smaller)[i].0) && order_from(
                larger,
                smaller,
            )[i].1 == order_from(larger, smaller)[i].0.spec_mirror() && order_from(
                larger,
                smaller,
            )[i].0.p1score >= order_from(larger, smaller)[i].0.p2score,
        forall|i: int, j: int|
            0 <= i < j < order_from(larger, smaller).len() ==> no_later(
                larger_score((#[trigger] order_from(larger, smaller)[i]).0),
                smaller_score(order_from(larger, smaller)[i].0),
                larger_score((#[trigger] order_from(larger, smaller)[j]).0),
                smaller_score(order_from(larger, smaller)[j].0),
            ) && order_from(larger, smaller)[i] != order_from(larger, smaller)[j],
    decreases larger, smaller,
{
    let order = order_from(larger, smaller);
    if smaller > 0 {
        lemma_order_falls(larger, smaller - 1);
        let rest = order_from(larger, smaller - 1);
        assert(order =~= seq![mirror_pair(larger, smaller)] + rest);
        assert forall|i: int| 0 < i < order.len() implies #[trigger] order[i] == rest[i - 1] by {}
    } else if larger > 0 {
        lemma_order_falls(larger - 1, larger - 1);
        let rest = order_from(larger - 1, larger - 1);
        assert(order =~= seq![mirror_pair(larger, smaller)] + rest);
        assert forall|i: int| 0 < i < order.len() implies #[trigger] order[i] == rest[i - 1] by {}
    } else {
        assert(order =~= seq![mirror_pair(larger, smaller)]);
    }
}

/// The order from a pair on holds every pair of the grid that is solved no
/// earlier than that pair.
pub proof fn lemma_order_holds_each_pair(larger: int, smaller: int, l: int, s: int)
    requires
        0 <= smaller <= larger <= i8::MAX,
        0 <= s <= l,
        no_later(larger, smaller, l, s),
    ensures
        order_from(larger, smaller).contains(mirror_pair(l, s)),
    decreases larger, smaller,
{
    let order = order_from(larger, smaller);
    if l == larger && s == smaller {
        assert(order[0] == mirror_pair(l, s));
    } else if smaller > 0 {
        lemma_order_holds_each_pair(larger, smaller - 1, l, s);
        let rest = order_from(larger, smaller - 1);
        let k = choose|k: int| 0 <= k < rest.len() && rest[k] == mirror_pair(l, s);
        assert(order[k + 1] == rest[k]);
    } else {
        lemma_order_holds_each_pair(larger - 1, larger - 1, l, s);
        let rest = order_from(larger - 1, larger - 1);
        let k = choose|k: int| 0 <= k < rest.len() && rest[k] == mirror_pair(l, s);
        assert(order[k + 1] == rest[k]);
    }
}

/// Every cell of the grid is in one pair of the order.
pub proof fn lemma_order_holds_each_cell(winning_score: i8, c: Subgame)
    requires
        in_grid(winning_score, c),
    ensures
        exists|k: int|
            0 <= k < spec_solve_order(winning_score).len() && in_pair(
                c,
                #[trigger] spec_solve_order(winning_score)[k],
            ),
{
    let w = winning_score - 1;
    lemma_order_holds_each_pair(w, w, larger_score(c), smaller_score(c));
    let order = spec_solve_order(winning_score);
    let pair = mirror_pair(larger_score(c), smaller_score(c));
    let k = choose|k: int| 0 <= k < order.len() && order[k] == pair;
    assert(in_pair(c, order[k]));
}

} // verus!
