use std::collections::{HashMap, HashSet};

use goal_tictactoe::error::ConfigError;
use goal_tictactoe::forced::forced_outcomes;
use goal_tictactoe::table::StateMap;
use goal_tictactoe::{GameTree, InfoState, MetaState, Outcome, Player, State};

type Cells = [u8; 9];

const LINES: [[usize; 3]; 8] = [
    [0, 1, 2],
    [3, 4, 5],
    [6, 7, 8],
    [0, 3, 6],
    [1, 4, 7],
    [2, 5, 8],
    [0, 4, 8],
    [2, 4, 6],
];

// A plain construction of the tree on bare arrays, to hold the library's
// against.

fn plain_outcome(m: &Cells) -> Option<Outcome> {
    for line in LINES {
        if line.iter().all(|&i| m[i] % 2 == 1) {
            return Some(Outcome::Win);
        }
        if line.iter().all(|&i| m[i] != 0 && m[i] % 2 == 0) {
            return Some(Outcome::Lose);
        }
    }
    if m.iter().all(|&x| x != 0) {
        return Some(Outcome::Tie);
    }
    None
}

fn plain_images(m: &Cells) -> Vec<Cells> {
    let at = |r: usize, c: usize| m[3 * r + c];
    let mut out = Vec::new();
    for sym in 0..8 {
        let mut img = [0u8; 9];
        for r in 0..3 {
            for c in 0..3 {
                img[3 * r + c] = match sym {
                    0 => at(r, c),
                    1 => at(c, r),
                    2 => at(2 - r, c),
                    3 => at(2 - c, 2 - r),
                    4 => at(r, 2 - c),
                    5 => at(c, 2 - r),
                    6 => at(2 - r, 2 - c),
                    _ => at(2 - c, r),
                };
            }
        }
        out.push(img);
    }
    out
}

fn plain_owner(m: &Cells) -> Cells {
    let mut out = [0u8; 9];
    for i in 0..9 {
        out[i] = if m[i] == 0 { 0 } else { (m[i] - 1) % 2 + 1 };
    }
    out
}

fn plain_children(m: &Cells) -> Vec<Cells> {
    let mut out: Vec<Cells> = Vec::new();
    if plain_outcome(m).is_none() {
        let next = m.iter().max().unwrap() + 1;
        for i in 0..9 {
            if m[i] == 0 {
                let mut c = *m;
                c[i] = next;
                let images = plain_images(&plain_owner(&c));
                if !out.iter().any(|k| images.contains(&plain_owner(k))) {
                    out.push(c);
                }
            }
        }
    }
    out
}

fn plain_descendants(m: &Cells, out: &mut Vec<Cells>) {
    out.push(*m);
    for c in plain_children(m) {
        plain_descendants(&c, out);
    }
}

fn plain_forced(all: &Vec<Cells>) -> HashMap<Cells, Option<Outcome>> {
    let mut result = HashMap::new();
    for m in all.iter().rev() {
        let value = match plain_outcome(m) {
            Some(o) => Some(o),
            None => {
                let kids = plain_children(m);
                let first: Option<Outcome> = result[&kids[0]];
                if first.is_some() && kids.iter().all(|k| result[k] == first) {
                    first
                } else {
                    None
                }
            }
        };
        result.insert(*m, value);
    }
    result
}

fn plain_tree() -> (Vec<Cells>, HashMap<Cells, Option<Outcome>>) {
    let mut all = Vec::new();
    plain_descendants(&[0; 9], &mut all);
    let forced = plain_forced(&all);
    let mut folded = HashSet::new();
    for m in &all {
        if forced[m].is_some() {
            for c in plain_children(m) {
                folded.insert(c);
            }
        }
    }
    all.retain(|m| !folded.contains(m));
    (all, forced)
}

fn tree() -> GameTree {
    GameTree::new().unwrap()
}

#[test]
fn tree_boards_match_plain_construction() {
    let t = tree();
    let (boards, _) = plain_tree();
    let got: Vec<Cells> = t.states.iter().map(|s| s.moves).collect();
    assert_eq!(got.len(), boards.len());
    assert_eq!(got, boards);
}

#[test]
fn tree_root_is_the_empty_board() {
    let t = tree();
    assert_eq!(t.states[0], State::start());
    assert!(!t.parents.contains_key(&0));
    assert_eq!(t.children[&0].len(), 3);
    assert_eq!(t.current_player[&0], Player::Player1);
}

#[test]
fn tree_terminals_are_a_strict_nonempty_subset() {
    let t = tree();
    assert!(t.terminals.len() > 0);
    assert!(t.terminals.len() < t.states.len());
    assert!(!t.terminals.contains_key(&0));
}

#[test]
fn tree_terminals_hold_the_forced_outcomes() {
    let t = tree();
    let (_, forced) = plain_tree();
    for (id, s) in t.states.iter().enumerate() {
        assert_eq!(t.terminals.get(&id).copied(), forced[&s.moves]);
    }
}

#[test]
fn tree_children_come_after_their_parent() {
    let t = tree();
    for (i, kids) in &t.children {
        for j in kids {
            assert!(j > i);
            assert_eq!(t.parents[j], *i);
        }
    }
}

#[test]
fn tree_children_tables_cover_every_board() {
    let t = tree();
    assert_eq!(t.children.len(), t.states.len());
    assert_eq!(t.current_player.len(), t.states.len());
    assert_eq!(t.parents.len(), t.states.len() - 1);
    for id in 0..t.states.len() {
        let s = &t.states[id];
        assert_eq!(t.ids.get(s), Some(&id));
        assert_eq!(t.current_player[&id], s.current_player());
        let kids: Vec<State> = t.children[&id].iter().map(|j| t.states[*j]).collect();
        if t.terminals.contains_key(&id) {
            assert!(kids.is_empty());
        } else {
            assert_eq!(kids, s.children());
        }
    }
}

#[test]
fn tree_leaves_are_exactly_the_terminals() {
    let t = tree();
    for id in 0..t.states.len() {
        assert_eq!(t.children[&id].is_empty(), t.terminals.contains_key(&id));
    }
}

#[test]
fn tree_holds_no_board_with_nine_marks() {
    // a board with one empty cell has one successor, so its outcome is forced
    let t = tree();
    for s in &t.states {
        assert!(s.last_move() <= 8);
    }
}

#[test]
fn tree_siblings_are_never_symmetric() {
    let t = tree();
    for kids in t.children.values() {
        for a in kids {
            for b in kids {
                if a != b {
                    let x = t.states[*a].drop_history();
                    let y = t.states[*b].drop_history();
                    assert!(!x.is_symmetry(&y));
                }
            }
        }
    }
}

#[test]
fn tree_below_a_finished_game_is_refused() {
    let won = State { moves: [1, 3, 5, 2, 4, 0, 0, 0, 0] };
    assert!(matches!(GameTree::below(won), Err(ConfigError::ForcedRoot)));
}

#[test]
fn tree_below_a_forced_board_is_refused() {
    // one empty cell: the one line of play that is left forces the outcome
    let s = State { moves: [1, 2, 3, 5, 4, 6, 8, 7, 0] };
    assert!(matches!(GameTree::below(s), Err(ConfigError::ForcedRoot)));
}

#[test]
fn tree_below_an_open_board_starts_there() {
    let root = State { moves: [1, 0, 0, 0, 0, 0, 0, 0, 0] };
    let t = GameTree::below(root).unwrap();
    assert_eq!(t.states[0], root);
    assert_eq!(t.current_player[&0], Player::Player2);
    assert_eq!(t.children[&0].len(), 5);
    for (i, kids) in &t.children {
        for j in kids {
            assert!(j > i);
        }
    }
}

#[test]
fn forced_outcomes_on_a_short_endgame() {
    let root = State { moves: [1, 2, 3, 4, 5, 6, 0, 0, 0] };
    let mut all = Vec::new();
    root.descendants(&mut all);
    let solved = forced_outcomes(&all);
    // Player 1 completes a diagonal with turn 7 in cell 6, or with turn 9
    assert_eq!(solved.get(&all[1]), Some(&Some(Outcome::Win)));
    assert_eq!(solved.get(&all[4]), Some(&Some(Outcome::Win)));
    assert_eq!(solved.get(&all[3]), Some(&Some(Outcome::Win)));
    assert_eq!(solved.get(&all[2]), Some(&Some(Outcome::Win)));
    assert_eq!(solved.get(&all[0]), Some(&Some(Outcome::Win)));
    assert_eq!(solved.get(&State::start()), None);
}

#[test]
fn forced_outcomes_disagreeing_successors_force_nothing() {
    let mut all = Vec::new();
    State::start().descendants(&mut all);
    let solved = forced_outcomes(&all);
    assert_eq!(solved.get(&State::start()), Some(&None));
    let (plain, forced) = plain_tree();
    for m in plain {
        assert_eq!(solved.get(&State { moves: m }), Some(&forced[&m]));
    }
}

#[test]
fn state_map_insert_get_overwrite() {
    let mut m: StateMap<u32> = StateMap::new();
    let a = State { moves: [1, 0, 0, 0, 0, 0, 0, 0, 0] };
    let b = State { moves: [0, 1, 0, 0, 0, 0, 0, 0, 0] };
    assert!(!m.contains_key(&a));
    m.insert(a, 7);
    assert_eq!(m.get(&a), Some(&7));
    assert_eq!(m.get(&b), None);
    m.insert(a, 8);
    m.insert(b, 9);
    assert_eq!(m.get(&a), Some(&8));
    assert_eq!(m.get(&b), Some(&9));
    assert!(m.contains_key(&b));
}

#[test]
fn info_state_shows_the_goal_of_the_player_to_move() {
    let t = tree();
    let m = MetaState { state: 0, p1goal: Outcome::Win, p2goal: Outcome::Tie };
    assert_eq!(m.info_state(&t), InfoState { state: 0, goal: Outcome::Win });
    let child = t.children[&0][0];
    let n = MetaState { state: child, p1goal: Outcome::Win, p2goal: Outcome::Tie };
    assert_eq!(n.info_state(&t), InfoState { state: child, goal: Outcome::Tie });
}

#[test]
fn metastate_children_and_parent_keep_the_goals() {
    let t = tree();
    let m = MetaState { state: 0, p1goal: Outcome::Lose, p2goal: Outcome::Win };
    let kids = m.children(&t);
    assert_eq!(kids.len(), 3);
    for (k, kid) in kids.iter().enumerate() {
        assert_eq!(kid.state, t.children[&0][k]);
        assert_eq!(kid.p1goal, Outcome::Lose);
        assert_eq!(kid.p2goal, Outcome::Win);
        assert_eq!(kid.parent(&t), Some(m));
    }
    assert_eq!(m.parent(&t), None);
}

#[test]
fn metastate_outcomes_only_at_terminals() {
    let t = tree();
    let goals = [Outcome::Win, Outcome::Lose, Outcome::Tie];
    for id in 0..t.states.len() {
        for p1goal in goals {
            for p2goal in goals {
                let m = MetaState { state: id, p1goal, p2goal };
                match t.terminals.get(&id) {
                    Some(o) => {
                        assert_eq!(m.outcomes(&t), Some((p1goal == *o, p2goal == o.reverse())))
                    }
                    None => assert_eq!(m.outcomes(&t), None),
                }
            }
        }
    }
}

#[test]
fn metastate_outcomes_reverse_for_player2() {
    let t = tree();
    let (id, o) = t.terminals.iter().find(|(_, o)| **o == Outcome::Win).unwrap();
    let m = MetaState { state: *id, p1goal: Outcome::Win, p2goal: Outcome::Lose };
    assert_eq!(*o, Outcome::Win);
    // Player 1 won: both goals are met
    assert_eq!(m.outcomes(&t), Some((true, true)));
    let n = MetaState { state: *id, p1goal: Outcome::Lose, p2goal: Outcome::Win };
    assert_eq!(n.outcomes(&t), Some((false, false)));
}

#[test]
fn info_state_completed_by_the_hidden_goal() {
    let t = tree();
    let goals = [Outcome::Win, Outcome::Lose, Outcome::Tie];
    let child = t.children[&0][1];
    for id in [0, child] {
        for p1goal in goals {
            for p2goal in goals {
                let m = MetaState { state: id, p1goal, p2goal };
                let hidden = if t.current_player[&id] == Player::Player1 { p2goal } else { p1goal };
                assert_eq!(m.info_state(&t).completed_by(&t, hidden), m);
            }
        }
    }
    let i = InfoState { state: child, goal: Outcome::Tie };
    assert_eq!(
        i.completed_by(&t, Outcome::Win),
        MetaState { state: child, p1goal: Outcome::Win, p2goal: Outcome::Tie }
    );
}
