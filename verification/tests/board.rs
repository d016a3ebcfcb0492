use goal_tictactoe::{Outcome, Player, State};

fn board(moves: [u8; 9]) -> State {
    State { moves }
}

#[test]
fn start_is_empty_and_player1_moves() {
    let s = State::start();
    assert_eq!(s.moves, [0; 9]);
    assert_eq!(s.current_player(), Player::Player1);
    assert_eq!(s.outcome(), None);
    assert!(!s.is_final());
    assert_eq!(s.last_move(), 0);
}

#[test]
fn current_player_follows_parity_of_last_move() {
    assert_eq!(board([1, 0, 0, 0, 0, 0, 0, 0, 0]).current_player(), Player::Player2);
    assert_eq!(board([1, 0, 0, 0, 2, 0, 0, 0, 0]).current_player(), Player::Player1);
    assert_eq!(board([1, 3, 0, 0, 2, 0, 0, 0, 0]).current_player(), Player::Player2);
    assert_eq!(board([1, 3, 0, 0, 2, 0, 0, 0, 0]).last_move(), 3);
}

#[test]
fn opponent_swaps_players() {
    assert_eq!(Player::Player1.opponent(), Player::Player2);
    assert_eq!(Player::Player2.opponent(), Player::Player1);
}

#[test]
fn reverse_is_an_involution() {
    assert_eq!(Outcome::Win.reverse(), Outcome::Lose);
    assert_eq!(Outcome::Lose.reverse(), Outcome::Win);
    assert_eq!(Outcome::Tie.reverse(), Outcome::Tie);
    for o in [Outcome::Win, Outcome::Lose, Outcome::Tie] {
        assert_eq!(o.reverse().reverse(), o);
    }
}

#[test]
fn outcome_win_on_each_line() {
    let lines = [
        [0, 1, 2],
        [3, 4, 5],
        [6, 7, 8],
        [0, 3, 6],
        [1, 4, 7],
        [2, 5, 8],
        [0, 4, 8],
        [2, 4, 6],
    ];
    for line in lines {
        let mut odd = [0u8; 9];
        let mut even = [0u8; 9];
        for (k, cell) in line.iter().enumerate() {
            odd[*cell] = 2 * k as u8 + 1;
            even[*cell] = 2 * k as u8 + 2;
        }
        assert_eq!(board(odd).outcome(), Some(Outcome::Win));
        assert_eq!(board(even).outcome(), Some(Outcome::Lose));
        assert!(board(odd).is_final());
    }
}

#[test]
fn outcome_tie_on_full_board_without_line() {
    // X O X
    // X O O
    // O X X
    let s = board([1, 2, 3, 5, 4, 6, 8, 7, 9]);
    assert_eq!(s.outcome(), Some(Outcome::Tie));
    assert!(s.is_final());
}

#[test]
fn outcome_open_while_a_cell_is_empty() {
    assert_eq!(board([1, 2, 3, 5, 4, 6, 8, 7, 0]).outcome(), None);
    assert_eq!(board([1, 2, 0, 0, 0, 0, 0, 0, 0]).outcome(), None);
}

#[test]
fn outcome_mixed_line_decides_nothing() {
    // two marks of Player 1 and one of Player 2 in the top row
    assert_eq!(board([1, 2, 3, 0, 0, 0, 0, 0, 0]).outcome(), None);
}

#[test]
fn outcome_first_decided_line_counts() {
    // not a real position: the top row is Player 2's, the middle row Player 1's
    assert_eq!(board([2, 4, 6, 1, 3, 5, 0, 0, 0]).outcome(), Some(Outcome::Lose));
    assert_eq!(board([1, 3, 5, 2, 4, 6, 0, 0, 0]).outcome(), Some(Outcome::Win));
}

#[test]
fn drop_history_keeps_owner_only() {
    let s = board([1, 2, 3, 4, 5, 6, 7, 8, 9]);
    assert_eq!(s.drop_history().moves, [1, 2, 1, 2, 1, 2, 1, 2, 1]);
    let t = board([0, 5, 0, 2, 0, 0, 1, 0, 4]);
    assert_eq!(t.drop_history().moves, [0, 1, 0, 2, 0, 0, 1, 0, 2]);
    assert_eq!(t.drop_history().drop_history(), t.drop_history());
}

#[test]
fn rotate_each_symmetry_on_a_numbered_board() {
    let s = board([1, 2, 3, 4, 5, 6, 7, 8, 9]);
    assert_eq!(s.rotate(0).moves, [1, 2, 3, 4, 5, 6, 7, 8, 9]);
    assert_eq!(s.rotate(1).moves, [1, 4, 7, 2, 5, 8, 3, 6, 9]);
    assert_eq!(s.rotate(2).moves, [7, 8, 9, 4, 5, 6, 1, 2, 3]);
    assert_eq!(s.rotate(3).moves, [9, 6, 3, 8, 5, 2, 7, 4, 1]);
    assert_eq!(s.rotate(4).moves, [3, 2, 1, 6, 5, 4, 9, 8, 7]);
    assert_eq!(s.rotate(5).moves, [3, 6, 9, 2, 5, 8, 1, 4, 7]);
    assert_eq!(s.rotate(6).moves, [9, 8, 7, 6, 5, 4, 3, 2, 1]);
    assert_eq!(s.rotate(7).moves, [7, 4, 1, 8, 5, 2, 9, 6, 3]);
}

#[test]
fn rotate_quarter_turns_undo_each_other() {
    let s = board([1, 0, 3, 0, 2, 0, 0, 4, 0]);
    assert_eq!(s.rotate(5).rotate(7), s);
    assert_eq!(s.rotate(7).rotate(5), s);
    for i in [0u8, 1, 2, 3, 4, 6] {
        assert_eq!(s.rotate(i).rotate(i), s);
    }
    assert_eq!(s.rotate(5).rotate(5), s.rotate(6));
}

#[test]
fn is_symmetry_finds_each_image() {
    let s = board([1, 2, 0, 0, 0, 0, 0, 0, 0]);
    for i in 0..8u8 {
        assert!(s.rotate(i).is_symmetry(&s));
        assert!(s.is_symmetry(&s.rotate(i)));
    }
    assert!(!s.is_symmetry(&board([1, 0, 0, 0, 2, 0, 0, 0, 0])));
    assert!(!s.is_symmetry(&board([2, 1, 0, 0, 0, 0, 0, 0, 0])));
}

#[test]
fn same_as_compares_cells() {
    let s = board([1, 2, 0, 0, 0, 0, 0, 0, 0]);
    assert!(s.same_as(&board([1, 2, 0, 0, 0, 0, 0, 0, 0])));
    assert!(!s.same_as(&board([1, 2, 0, 0, 0, 0, 0, 0, 3])));
}

#[test]
fn children_of_start_are_corner_edge_centre() {
    let kids = State::start().children();
    let cells: Vec<[u8; 9]> = kids.iter().map(|s| s.moves).collect();
    assert_eq!(
        cells,
        vec![
            [1, 0, 0, 0, 0, 0, 0, 0, 0],
            [0, 1, 0, 0, 0, 0, 0, 0, 0],
            [0, 0, 0, 0, 1, 0, 0, 0, 0],
        ]
    );
}

#[test]
fn children_after_corner_opening() {
    let kids = board([1, 0, 0, 0, 0, 0, 0, 0, 0]).children();
    let cells: Vec<[u8; 9]> = kids.iter().map(|s| s.moves).collect();
    // the diagonal through the corner mirrors cells 3, 6 and 7 onto 1, 2 and 5
    assert_eq!(
        cells,
        vec![
            [1, 2, 0, 0, 0, 0, 0, 0, 0],
            [1, 0, 2, 0, 0, 0, 0, 0, 0],
            [1, 0, 0, 0, 2, 0, 0, 0, 0],
            [1, 0, 0, 0, 0, 2, 0, 0, 0],
            [1, 0, 0, 0, 0, 0, 0, 0, 2],
        ]
    );
}

#[test]
fn children_of_finished_game_are_none() {
    assert!(board([1, 3, 5, 2, 4, 0, 0, 0, 0]).children().is_empty());
    assert!(board([1, 2, 3, 5, 4, 6, 8, 7, 9]).children().is_empty());
}

#[test]
fn children_drop_history_before_comparing() {
    // X O X / O X O / . . . : cell 8 mirrors cell 6 once the order of the
    // moves is forgotten, although the boards with history differ
    let kids = board([1, 2, 3, 4, 5, 6, 0, 0, 0]).children();
    let cells: Vec<[u8; 9]> = kids.iter().map(|s| s.moves).collect();
    assert_eq!(cells, vec![[1, 2, 3, 4, 5, 6, 7, 0, 0], [1, 2, 3, 4, 5, 6, 0, 7, 0]]);
}

#[test]
fn siblings_are_never_symmetric() {
    let mut all = Vec::new();
    State::start().descendants(&mut all);
    for s in &all {
        let kids = s.children();
        for a in 0..kids.len() {
            for b in 0..kids.len() {
                if a != b {
                    assert!(!kids[a].drop_history().is_symmetry(&kids[b].drop_history()));
                }
            }
        }
    }
}

#[test]
fn descendants_start_with_the_board_and_append() {
    let mut all = vec![board([9; 9])];
    let root = board([1, 2, 3, 4, 5, 6, 0, 0, 0]);
    root.descendants(&mut all);
    let cells: Vec<[u8; 9]> = all.iter().map(|s| s.moves).collect();
    assert_eq!(
        cells,
        vec![
            [9; 9],
            [1, 2, 3, 4, 5, 6, 0, 0, 0],
            [1, 2, 3, 4, 5, 6, 7, 0, 0],
            [1, 2, 3, 4, 5, 6, 0, 7, 0],
            [1, 2, 3, 4, 5, 6, 8, 7, 0],
            [1, 2, 3, 4, 5, 6, 8, 7, 9],
        ]
    );
}

#[test]
fn move_sums_weigh_cells_by_turn() {
    // Player 1: turn 1 in cell 0, turn 3 in cell 2; Player 2: turn 2 in cell 1
    let s = board([1, 2, 3, 0, 0, 0, 0, 0, 0]);
    assert_eq!(s.move_sums(), (2 * 59049, 531441));
    assert_eq!(State::start().move_sums(), (0, 0));
    // turn 8 has weight 1, turn 7 weight 9
    let t = board([0, 0, 0, 0, 0, 0, 0, 7, 8]);
    assert_eq!(t.move_sums(), (7 * 9, 8));
}

#[test]
fn move_sums_prefer_small_cells_early() {
    let early = board([1, 0, 0, 0, 0, 0, 0, 0, 3]);
    let late = board([3, 0, 0, 0, 0, 0, 0, 0, 1]);
    assert!(early.move_sums().0 < late.move_sums().0);
}

#[test]
fn code_tells_boards_apart() {
    let a = board([1, 2, 0, 0, 0, 0, 0, 0, 0]);
    let b = board([2, 1, 0, 0, 0, 0, 0, 0, 0]);
    assert_eq!(a.code(), 1 + 2 * 256);
    assert_eq!(b.code(), 2 + 256);
    assert_eq!(board([0, 0, 0, 0, 0, 0, 0, 0, 255]).code(), 255u128 << 64);
}

#[test]
fn symmetries_compose_to_symmetries() {
    let s = board([1, 2, 3, 4, 5, 6, 7, 8, 9]);
    for i in 0..8u8 {
        for j in 0..8u8 {
            let twice = s.rotate(i).rotate(j);
            assert_eq!((0..8u8).filter(|k| s.rotate(*k) == twice).count(), 1);
            assert!(twice.is_symmetry(&s));
        }
    }
}

#[test]
fn move_sums_order_by_the_first_turn_that_differs() {
    // the same first turn of Player 1; at turn 3 cell 2 against cell 5;
    // the later turns of the first board take the largest cells
    let a = board([1, 2, 3, 4, 0, 0, 6, 7, 5]);
    let b = board([1, 2, 5, 4, 7, 3, 6, 0, 0]);
    assert!(a.move_sums().0 < b.move_sums().0);
    // Player 2: the same turns 2 and 4, turn 6 in cell 6 in both
    assert_eq!(a.move_sums().1, b.move_sums().1);
    let c = board([1, 0, 2, 0, 0, 0, 0, 0, 0]);
    let d = board([1, 2, 0, 0, 0, 0, 0, 0, 0]);
    assert!(d.move_sums().1 < c.move_sums().1);
    assert_eq!(c.move_sums().0, d.move_sums().0);
}
