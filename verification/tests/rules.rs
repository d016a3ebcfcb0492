use goal_tictactoe::error::{ConfigError, MoveError};
use goal_tictactoe::schedule::check_is_due;
use goal_tictactoe::score::{solve_order, value_of_score, ChildPayoffs, ScoreValue, Subgame};
use goal_tictactoe::{char_to_outcome, GameTree, Outcome, PayoffCase, Player, State, UpdateSchedule};

fn cell(p1score: i8, p2score: i8) -> Subgame {
    Subgame { p1score, p2score }
}

#[test]
fn schedule_without_alternation_counts_every_round() {
    let mut s = UpdateSchedule::new(false);
    assert_eq!(s, UpdateSchedule { t: 0, player_to_update: None });
    assert!(s.updates(Player::Player1));
    assert!(s.updates(Player::Player2));
    s.advance();
    assert_eq!(s, UpdateSchedule { t: 1, player_to_update: None });
    s.advance();
    assert_eq!(s.t, 2);
}

#[test]
fn schedule_with_alternation_counts_every_second_round() {
    let mut s = UpdateSchedule::new(true);
    assert_eq!(s, UpdateSchedule { t: 0, player_to_update: Some(Player::Player1) });
    assert!(s.updates(Player::Player1));
    assert!(!s.updates(Player::Player2));
    s.advance();
    assert_eq!(s, UpdateSchedule { t: 0, player_to_update: Some(Player::Player2) });
    assert!(!s.updates(Player::Player1));
    assert!(s.updates(Player::Player2));
    s.advance();
    assert_eq!(s, UpdateSchedule { t: 1, player_to_update: Some(Player::Player1) });
    for _ in 0..10 {
        s.advance();
    }
    assert_eq!(s, UpdateSchedule { t: 6, player_to_update: Some(Player::Player1) });
}

#[test]
fn payoff_case_index_is_twice_p1_plus_p2() {
    assert_eq!(PayoffCase::of((false, false)), PayoffCase::BothLose);
    assert_eq!(PayoffCase::of((false, true)), PayoffCase::P2Win);
    assert_eq!(PayoffCase::of((true, false)), PayoffCase::P1Win);
    assert_eq!(PayoffCase::of((true, true)), PayoffCase::BothWin);
    for r1 in [false, true] {
        for r2 in [false, true] {
            assert_eq!(PayoffCase::of((r1, r2)).index(), 2 * r1 as usize + r2 as usize);
        }
    }
}

#[test]
fn outcome_from_index_and_letter() {
    assert_eq!(Outcome::from_index(0), Outcome::Win);
    assert_eq!(Outcome::from_index(1), Outcome::Lose);
    assert_eq!(Outcome::from_index(2), Outcome::Tie);
    assert_eq!(Outcome::from_index(200), Outcome::Tie);
    assert_eq!(char_to_outcome('w'), Some(Outcome::Win));
    assert_eq!(char_to_outcome('t'), Some(Outcome::Tie));
    assert_eq!(char_to_outcome('l'), Some(Outcome::Lose));
    assert_eq!(char_to_outcome('W'), None);
    assert_eq!(char_to_outcome(' '), None);
}

#[test]
fn value_of_score_four_cases() {
    // five points win
    assert_eq!(value_of_score(5, 5, 5), ScoreValue::MinusValueOf(cell(4, 4)));
    assert_eq!(value_of_score(5, 5, 4), ScoreValue::Won);
    assert_eq!(value_of_score(5, 2, 5), ScoreValue::Lost);
    assert_eq!(value_of_score(5, 2, 3), ScoreValue::MinusValueOf(cell(3, 2)));
    assert_eq!(value_of_score(5, 0, 0), ScoreValue::MinusValueOf(cell(0, 0)));
    assert_eq!(value_of_score(5, 6, 7), ScoreValue::MinusValueOf(cell(4, 4)));
}

#[test]
fn child_payoffs_inside_the_grid() {
    let p = cell(1, 2).child_payoffs(5);
    assert_eq!(
        p,
        ChildPayoffs {
            both_win: ScoreValue::MinusValueOf(cell(3, 2)),
            p1_win: ScoreValue::MinusValueOf(cell(2, 2)),
            p2_win: ScoreValue::MinusValueOf(cell(3, 1)),
            both_lose: ScoreValue::MinusValueOf(cell(2, 1)),
        }
    );
    assert_eq!(p.get(PayoffCase::BothWin), p.both_win);
    assert_eq!(p.get(PayoffCase::P1Win), p.p1_win);
    assert_eq!(p.get(PayoffCase::P2Win), p.p2_win);
    assert_eq!(p.get(PayoffCase::BothLose), p.both_lose);
}

#[test]
fn child_payoffs_at_the_last_cell() {
    let c = cell(4, 4);
    assert_eq!(
        c.child_payoffs(5),
        ChildPayoffs {
            both_win: ScoreValue::MinusValueOf(cell(4, 4)),
            p1_win: ScoreValue::Won,
            p2_win: ScoreValue::Lost,
            both_lose: ScoreValue::MinusValueOf(cell(4, 4)),
        }
    );
    assert!(c.double_score_stays(5));
    assert!(!cell(4, 3).double_score_stays(5));
    assert!(!c.double_score_stays(6));
    assert_eq!(cell(1, 3).mirror(), cell(3, 1));
}

#[test]
fn solve_order_for_two_points() {
    let order = solve_order(2).unwrap();
    assert_eq!(
        order,
        vec![(cell(1, 1), cell(1, 1)), (cell(1, 0), cell(0, 1)), (cell(0, 0), cell(0, 0))]
    );
}

#[test]
fn solve_order_for_one_point() {
    assert_eq!(solve_order(1).unwrap(), vec![(cell(0, 0), cell(0, 0))]);
}

#[test]
fn solve_order_refuses_empty_grid() {
    assert_eq!(solve_order(0), Err(ConfigError::WinningScore));
    assert_eq!(solve_order(-3), Err(ConfigError::WinningScore));
}

#[test]
fn solve_order_solves_what_payoffs_refer_to_first() {
    for w in 1..=6i8 {
        let order = solve_order(w).unwrap();
        assert_eq!(order.len(), (w as usize) * (w as usize + 1) / 2);
        let rank = |c: Subgame| order.iter().position(|p| p.0 == c || p.1 == c).unwrap();
        for (k, pair) in order.iter().enumerate() {
            assert_eq!(pair.1, pair.0.mirror());
            for c in [pair.0, pair.1] {
                assert_eq!(rank(c), k);
                let p = c.child_payoffs(w);
                for v in [p.both_win, p.p1_win, p.p2_win, p.both_lose] {
                    if let ScoreValue::MinusValueOf(d) = v {
                        assert!(rank(d) <= k);
                    }
                }
            }
        }
    }
}

#[test]
fn solve_order_largest_winning_score() {
    let order = solve_order(i8::MAX).unwrap();
    assert_eq!(order.len(), 127 * 128 / 2);
    assert_eq!(order[0], (cell(126, 126), cell(126, 126)));
    assert_eq!(order[order.len() - 1], (cell(0, 0), cell(0, 0)));
}

#[test]
fn child_for_move_follows_symmetric_moves() {
    let t = GameTree::new().unwrap();
    let kids = &t.children[&0];
    // corners lead to the kept corner board, edges to the kept edge board
    for corner in [0usize, 2, 6, 8] {
        assert_eq!(t.child_for_move(0, corner), Some(kids[0]));
    }
    for edge in [1usize, 3, 5, 7] {
        assert_eq!(t.child_for_move(0, edge), Some(kids[1]));
    }
    assert_eq!(t.child_for_move(0, 4), Some(kids[2]));
}

#[test]
fn child_for_move_refuses_taken_cells_and_finished_play() {
    let t = GameTree::new().unwrap();
    let corner = t.children[&0][0];
    assert_eq!(t.states[corner], State { moves: [1, 0, 0, 0, 0, 0, 0, 0, 0] });
    assert_eq!(t.child_for_move(corner, 0), None);
    assert!(t.child_for_move(corner, 4).is_some());
    let (leaf, _) = t.terminals.iter().next().unwrap();
    for cell in 0..9 {
        assert_eq!(t.child_for_move(*leaf, cell), None);
    }
}

#[test]
fn child_for_move_agrees_with_empty_cells_everywhere() {
    let t = GameTree::new().unwrap();
    for id in 0..t.states.len() {
        for cell in 0..9 {
            let open = !t.terminals.contains_key(&id) && t.states[id].moves[cell] == 0;
            let got = t.child_for_move(id, cell);
            assert_eq!(got.is_some(), open);
            if let Some(child) = got {
                assert!(t.children[&id].contains(&child));
            }
        }
    }
}

#[test]
fn child_for_position_counts_cells_from_one() {
    let t = GameTree::new().unwrap();
    let kids = &t.children[&0];
    assert_eq!(t.child_for_position(0, 1), Ok(kids[0]));
    assert_eq!(t.child_for_position(0, 9), Ok(kids[0]));
    assert_eq!(t.child_for_position(0, 5), Ok(kids[2]));
    assert_eq!(t.child_for_position(0, 0), Err(MoveError::BadPosition));
    assert_eq!(t.child_for_position(0, 10), Err(MoveError::BadPosition));
    assert_eq!(t.child_for_position(kids[0], 1), Err(MoveError::InvalidMove));
    let (leaf, _) = t.terminals.iter().next().unwrap();
    assert_eq!(t.child_for_position(*leaf, 3), Err(MoveError::InvalidMove));
}

#[test]
fn moves_hand_the_turn_to_the_other_player() {
    let t = GameTree::new().unwrap();
    for (i, kids) in &t.children {
        for j in kids {
            assert_eq!(t.current_player[j], t.current_player[i].opponent());
        }
    }
    for id in 0..t.states.len() {
        assert_eq!(t.parents.contains_key(&id), id != 0);
    }
}

#[test]
fn check_is_due_after_each_run_of_iterations() {
    let due: Vec<usize> = (0..35).filter(|i| check_is_due(*i, 10)).collect();
    assert_eq!(due, vec![9, 19, 29]);
    assert!((0..5).all(|i| check_is_due(i, 1)));
    assert!(!check_is_due(0, 2));
    assert!(check_is_due(1, 2));
}
