//! The game tree: the boards that play can reach, numbered so that every
//! board comes before its successors, with forced outcomes folded into
//! leaves.

use std::collections::HashMap;
use vstd::prelude::*;

use crate::board::State;
use crate::error::ConfigError;
use crate::folding::{
    has_open_parent, keep_unfolded, lemma_unfolded, mark_folded, parents_first, solved_outcome,
    spec_boards,
};
use crate::forced::forced_outcomes;
use crate::outcome::{Outcome, Player};
use crate::reach::occurs_after;
use crate::table::StateMap;

verus! {

/// The number of a board in the game tree.
pub type StateId = usize;

/// The game tree. `states` holds its boards; the number of a board is its
/// position there, and every other table is keyed by these numbers.
pub struct GameTree {
    /// The boards, every board before its successors.
    pub states: Vec<State>,
    /// The number of each board.
    pub ids: StateMap<StateId>,
    /// The board from which each board but the first was reached.
    pub parents: HashMap<StateId, StateId>,
    /// The successors of each board, in the order of the cells marked.
    pub children: HashMap<StateId, Vec<StateId>>,
    /// The boards at which play ends, each with its forced outcome.
    pub terminals: HashMap<StateId, Outcome>,
    /// The player to move on each board.
    pub current_player: HashMap<StateId, Player>,
}

/// Board `j` of `f` is a successor of board `i`, and play goes on from `i`.
pub open spec fn is_parent(f: Seq<State>, i: int, j: int) -> bool {
    f[i].spec_forced_outcome() is None && f[i].spec_children().contains(f[j])
}

/// `listed` numbers the successors of board `i` of `f`: none where the board
/// has a forced outcome, else all of them in their order, each with a number
/// above `i`.
pub open spec fn child_list_ok(f: Seq<State>, i: int, listed: Seq<usize>) -> bool {
    if f[i].spec_forced_outcome() is Some {
        listed.len() == 0
    } else {
        &&& listed.len() == f[i].spec_children().len()
        &&& forall|k: int|
            0 <= k < listed.len() ==> i < (#[trigger] listed[k]) < f.len() && f[listed[k] as int]
                == f[i].spec_children()[k]
    }
}

/// Every entry of `parents` names a parent with a smaller number below
/// `upto`, and every board with a parent below `upto` has an entry.
pub open spec fn parents_ok(f: Seq<State>, parents: Map<usize, usize>, upto: int) -> bool {
    &&& forall|j: usize| #[trigger]
        parents.contains_key(j) ==> parents[j] < j < f.len() && parents[j] < upto && is_parent(
            f,
            parents[j] as int,
            j as int,
        )
    &&& forall|i: int, j: int|
        0 <= i < upto && 0 <= j < f.len() && #[trigger] is_parent(f, i, j)
            ==> parents.contains_key(j as usize)
}

/// `ids` gives each board of `f` its position and has no other entry.
pub open spec fn ids_ok(f: Seq<State>, ids: Map<State, usize>) -> bool {
    &&& forall|s: State| #[trigger] ids.contains_key(s) <==> f.contains(s)
    &&& forall|i: int| 0 <= i < f.len() ==> ids[#[trigger] f[i]] == i
}

impl GameTree {
    /// The tables fit the boards: play does not end on the first board; no
    /// board occurs twice and each is well formed; `ids` holds the number of
    /// each board; every board has its list
    /// of successors, which is empty exactly for the boards with a forced
    /// outcome and otherwise names all successors, each with a larger number
    /// than the board; `parents` holds the one parent of each board but the
    /// first, which has none;
    /// `terminals` holds the boards with a forced outcome and that outcome;
    /// `current_player` holds the player to move on each board.
    pub open spec fn well_formed(&self) -> bool {
        let f = self.states@;
        &&& f.len() > 0
        &&& f[0].spec_forced_outcome() is None
        &&& f.no_duplicates()
        &&& parents_first(f)
        &&& forall|i: int| 0 <= i < f.len() ==> (#[trigger] f[i]).well_formed()
        &&& ids_ok(f, self.ids@)
        &&& forall|i: usize| #[trigger] self.children@.contains_key(i) <==> i < f.len()
        &&& forall|i: usize|
            i < f.len() ==> child_list_ok(f, i as int, (#[trigger] self.children@[i])@)
        &&& parents_ok(f, self.parents@, f.len() as int)
        &&& forall|j: usize| 0 < j < f.len() ==> #[trigger] self.parents@.contains_key(j)
        &&& forall|i: usize| #[trigger]
            self.terminals@.contains_key(i) <==> i < f.len() && f[i as int].spec_forced_outcome() is Some
        &&& forall|i: usize| #[trigger]
            self.terminals@.contains_key(i) ==> Some(self.terminals@[i])
                == f[i as int].spec_forced_outcome()
        &&& forall|i: usize| #[trigger] self.current_player@.contains_key(i) <==> i < f.len()
        &&& forall|i: usize| #[trigger]
            self.current_player@.contains_key(i) ==> self.current_player@[i]
                == f[i as int].spec_current_player()
    }

    /// Builds the game tree of the 3×3 game: the tree below the empty board.
    pub fn new() -> (r: Result<GameTree, ConfigError>)
        ensures
            match r {
                Ok(tree) => tree.well_formed() && tree.states@ == spec_boards(
                    State::spec_start(),
                ) && tree.states@[0] == State::spec_start()
                    && State::spec_start().spec_forced_outcome() is None,
                Err(e) => e == ConfigError::ForcedRoot
                    && State::spec_start().spec_forced_outcome() is Some,
            },
    {
        GameTree::below(State::start())
    }

    /// Builds the tree of the play that can follow on `root`.
    ///
    /// The boards are the descendants of `root` in depth-first order. A
    /// board with a forced outcome ends play: it becomes a leaf, and what
    /// lies below it is left out. The boards that remain are numbered in
    /// their order.
    ///
    /// Fails if the outcome is forced on `root` already, so that there is no
    /// game to solve.
    pub fn below(root: State) -> (r: Result<GameTree, ConfigError>)
        requires
            root.well_formed(),
        ensures
            match r {
                Ok(tree) => tree.well_formed() && tree.states@ == spec_boards(root)
                    && tree.states@[0] == root && root.spec_forced_outcome() is None,
                Err(e) => e == ConfigError::ForcedRoot && root.spec_forced_outcome() is Some,
            },
    {
        let board = root;
        let mut all_states: Vec<State> = Vec::new();
        board.descendants(&mut all_states);
        proof {
            board.lemma_descendants();
            assert(all_states@ =~= board.spec_descendants());
            assert forall|p: int|
                0 <= p < all_states@.len() && (#[trigger] all_states@[p]).spec_outcome() is None implies all_states@[p].max_move()
                < u8::MAX by {
                assert(board.leads_to(&all_states@[p]));
                assert(!all_states@[p].is_full());
            }
            assert forall|p: int| 0 <= p < all_states@.len() implies (#[trigger] all_states@[p]).playable() by {
                assert(board.leads_to(&all_states@[p]));
            }
        }
        let solved = forced_outcomes(&all_states);
        proof {
            assert(all_states@[0] == board);
            assert(all_states@.contains(board));
            assert forall|p: int| 0 <= p < all_states@.len() implies solved@.contains_key(
                #[trigger] all_states@[p],
            ) by {
                assert(all_states@.contains(all_states@[p]));
            }
        }
        if solved_outcome(&solved, &board).is_some() {
            return Err(ConfigError::ForcedRoot);
        }
        let marked = mark_folded(&all_states, &solved);
        let states = keep_unfolded(&all_states, &marked);
        proof {
            lemma_unfolded(all_states@);
            assert forall|i: int| 0 <= i < states@.len() implies (#[trigger] states@[i]).well_formed()
                && states@[i].playable() && solved@.contains_key(states@[i]) by {
                assert(all_states@.contains(states@[i]));
                let p = choose|p: int| 0 <= p < all_states@.len() && all_states@[p] == states@[i];
                assert(board.leads_to(&all_states@[p]));
            }
        }
        let ids = index_boards(&states);
        let mut parents: HashMap<StateId, StateId> = HashMap::new();
        let mut children: HashMap<StateId, Vec<StateId>> = HashMap::new();
        let mut terminals: HashMap<StateId, Outcome> = HashMap::new();
        let mut current_player: HashMap<StateId, Player> = HashMap::new();
        let mut id: usize = 0;
        while id < states.len()
            invariant
                0 <= id <= states@.len(),
                states@.no_duplicates(),
                parents_first(states@),
                ids_ok(states@, ids@),
                forall|j: int| 0 < j < states@.len() ==> #[trigger] has_open_parent(states@, j),
                forall|i: int|
                    0 <= i < states@.len() ==> (#[trigger] states@[i]).playable()
                        && solved@.contains_key(states@[i]),
                forall|s: State| solved@.contains_key(s) ==> solved@[s] == s.spec_forced_outcome(),
                forall|i: usize| #[trigger] children@.contains_key(i) <==> i < id,
                forall|i: usize|
                    i < id ==> child_list_ok(states@, i as int, (#[trigger] children@[i])@),
                parents_ok(states@, parents@, id as int),
                forall|i: usize| #[trigger]
                    terminals@.contains_key(i) <==> i < id
                        && states@[i as int].spec_forced_outcome() is Some,
                forall|i: usize| #[trigger]
                    terminals@.contains_key(i) ==> Some(terminals@[i])
                        == states@[i as int].spec_forced_outcome(),
                forall|i: usize| #[trigger] current_player@.contains_key(i) <==> i < id,
                forall|i: usize| #[trigger]
                    current_player@.contains_key(i) ==> current_player@[i]
                        == states@[i as int].spec_current_player(),
            decreases states@.len() - id,
        {
            let state = states[id];
            match solved_outcome(&solved, &state) {
                Some(outcome) => {
                    terminals.insert(id, outcome);
                },
                None => {},
            }
            current_player.insert(id, state.current_player());
            let listed = link_children(&states, &ids, id, &mut parents);
            children.insert(id, listed);
            id = id + 1;
        }
        proof {
            assert forall|j: usize| 0 < j < states@.len() implies #[trigger] parents@.contains_key(
                j,
            ) by {
                assert(has_open_parent(states@, j as int));
                let i = choose|i: int|
                    0 <= i < j && (#[trigger] states@[i]).spec_forced_outcome() is None
                        && states@[i].spec_children().contains(states@[j as int]);
                assert(is_parent(states@, i, j as int));
            }
        }
        let tree = GameTree { states, ids, parents, children, terminals, current_player };
        Ok(tree)
    }

    /// In a well-formed tree every board but the first has a parent, and a
    /// move hands the turn to the other player: on every successor of a
    /// board the opponent of the board's mover moves.
    pub proof fn lemma_moves_alternate(&self, i: usize, k: int)
        requires
            self.well_formed(),
            i < self.states@.len(),
            0 <= k < self.children@[i]@.len(),
        ensures
            self.parents@.contains_key(i) <==> i != 0,
            self.states@[self.children@[i]@[k] as int].spec_current_player()
                == self.states@[i as int].spec_current_player().spec_opponent(),
    {
        let board = self.states@[i as int];
        self.lemma_child_after_parent(i, k);
        assert(child_list_ok(self.states@, i as int, self.children@[i]@));
        assert(board.well_formed());
        board.lemma_child_props(k);
        if i != 0 {
            assert(self.parents@.contains_key(i));
        }
    }

    /// In a well-formed tree no board holds a ninth turn: a board with one
    /// empty cell has one successor only, so that its outcome is forced and
    /// the full board below it is left out. The move weights are therefore
    /// defined on every board of the tree.
    pub proof fn lemma_no_ninth_turn(&self, j: usize)
        requires
            self.well_formed(),
            j < self.states@.len(),
        ensures
            forall|i: int| 0 <= i < 9 ==> self.states@[j as int].moves[i] <= 8,
    {
        let f = self.states@;
        let board = f[j as int];
        assert(board.well_formed());
        board.lemma_cells_bounded();
        if board.max_move() >= 9 {
            assert(board.empty_cells() == 0);
            assert(board.is_full());
            assert(board.spec_outcome() is Some);
            assert(board.spec_forced_outcome() is Some);
            assert(j != 0);
            assert(self.parents@.contains_key(j));
            let i = self.parents@[j];
            assert(is_parent(f, i as int, j as int));
            let above = f[i as int];
            assert(above.well_formed());
            let kids = above.spec_children();
            let m = choose|m: int| 0 <= m < kids.len() && kids[m] == board;
            above.lemma_child_props(m);
            above.lemma_kept_cells(9);
            assert(above.empty_cells() == 1);
            if kids.len() > 1 {
                let a = above.kept_cells(9)[0];
                let b = above.kept_cells(9)[1];
                assert(a < b);
                assert(above.moves[a] == 0 && above.moves[b] == 0);
            }
            assert(kids.len() == 1);
            assert(kids[0] == board);
            assert(above.children_agree(0));
            assert(above.children_agree(1));
        }
    }

    /// In a well-formed tree no two successors of a board show, with the
    /// move order forgotten, symmetric images of one position.
    pub proof fn lemma_siblings_differ(&self, i: usize, j: int, k: int)
        requires
            self.well_formed(),
            i < self.states@.len(),
            0 <= j < self.children@[i]@.len(),
            0 <= k < self.children@[i]@.len(),
            j != k,
        ensures
            !self.states@[self.children@[i]@[j] as int].spec_drop_history().spec_is_symmetry(
                &self.states@[self.children@[i]@[k] as int].spec_drop_history(),
            ),
            self.children@[i]@[j] != self.children@[i]@[k],
    {
        let f = self.states@;
        let board = f[i as int];
        assert(child_list_ok(f, i as int, self.children@[i]@));
        board.lemma_children_pairwise_distinct();
        let a = board.spec_children()[j];
        let b = board.spec_children()[k];
        assert(f[self.children@[i]@[j] as int] == a);
        assert(f[self.children@[i]@[k] as int] == b);
        assert(!a.spec_drop_history().spec_is_symmetry(&b.spec_drop_history()));
        a.spec_drop_history().lemma_symmetry_of_itself();
    }

    /// In a well-formed tree every successor of a board has a larger number
    /// than the board, and the board is its parent.
    pub proof fn lemma_child_after_parent(&self, i: usize, k: int)
        requires
            self.well_formed(),
            i < self.states@.len(),
            0 <= k < self.children@[i]@.len(),
        ensures
            self.children@.contains_key(i),
            i < self.children@[i]@[k] < self.states@.len(),
            self.states@[self.children@[i]@[k] as int] == self.states@[i as int].spec_children()[k],
            self.parents@.contains_key(self.children@[i]@[k]),
            self.parents@[self.children@[i]@[k]] == i,
    {
        let f = self.states@;
        let j = self.children@[i]@[k];
        assert(child_list_ok(f, i as int, self.children@[i]@));
        assert(f[i as int].spec_children()[k] == f[j as int]);
        assert(is_parent(f, i as int, j as int));
        assert(self.parents@.contains_key(j));
        let other = self.parents@[j];
        assert(is_parent(f, other as int, j as int));
        let m = choose|m: int|
            0 <= m < f[other as int].spec_children().len() && f[other as int].spec_children()[m]
                == f[j as int];
        assert(f[other as int].well_formed());
        assert(f[i as int].well_formed());
        f[other as int].lemma_one_parent(&f[i as int], m, k);
    }
}

/// The table that gives each board of `states` its position.
fn index_boards(states: &Vec<State>) -> (ids: StateMap<StateId>)
    requires
        states@.no_duplicates(),
    ensures
        ids_ok(states@, ids@),
{
    let mut ids: StateMap<StateId> = StateMap::new();
    let mut i: usize = 0;
    while i < states.len()
        invariant
            0 <= i <= states@.len(),
            states@.no_duplicates(),
            ids_ok(states@.take(i as int), ids@),
        decreases states@.len() - i,
    {
        let ghost before = ids@;
        let ghost done = states@.take(i as int);
        let ghost more = states@.take(i + 1);
        ids.insert(states[i], i);
        proof {
            assert forall|s: State| #[trigger] ids@.contains_key(s) <==> more.contains(s) by {
                assert(before.contains_key(s) <==> done.contains(s));
                if done.contains(s) {
                    let j = choose|j: int| 0 <= j < done.len() && done[j] == s;
                    assert(more[j] == s);
                }
                if more.contains(s) {
                    let j = choose|j: int| 0 <= j < more.len() && more[j] == s;
                    if j < i {
                        assert(done[j] == s);
                    }
                }
                if s == states@[i as int] {
                    assert(more[i as int] == s);
                }
            }
            assert forall|j: int| 0 <= j < more.len() implies ids@[#[trigger] more[j]] == j by {
                if j < i {
                    assert(done[j] == more[j]);
                    assert(states@[j] != states@[i as int]);
                }
            }
        }
        i = i + 1;
    }
    assert(states@.take(states@.len() as int) =~= states@);
    ids
}

/// The numbers of the successors of board `id`, each entered in `parents`
/// with `id` as its parent.
fn link_children(
    states: &Vec<State>,
    ids: &StateMap<StateId>,
    id: usize,
    parents: &mut HashMap<StateId, StateId>,
) -> (listed: Vec<StateId>)
    requires
        id < states@.len(),
        states@.no_duplicates(),
        parents_first(states@),
        ids_ok(states@, ids@),
        states@[id as int].playable(),
        parents_ok(states@, old(parents)@, id as int),
    ensures
        child_list_ok(states@, id as int, listed@),
        parents_ok(states@, final(parents)@, id + 1),
{
    let state = states[id];
    let ghost f = states@;
    let ghost forced = state.spec_forced_outcome() is Some;
    proof {
        if state.spec_outcome() is None {
            state.lemma_open_board_has_child();
            state.lemma_leads_to_child(0);
        }
    }
    let kids = state.children();
    let mut listed: Vec<StateId> = Vec::new();
    let mut k: usize = 0;
    while k < kids.len()
        invariant
            0 <= k <= kids@.len(),
            id < f.len(),
            f == states@,
            state == f[id as int],
            forced == (state.spec_forced_outcome() is Some),
            kids@ == state.spec_children(),
            f.no_duplicates(),
            parents_first(f),
            ids_ok(f, ids@),
            forced ==> listed@.len() == 0,
            !forced ==> listed@.len() == k,
            forall|m: int|
                0 <= m < listed@.len() ==> id < (#[trigger] listed@[m]) < f.len()
                    && f[listed@[m] as int] == kids@[m],
            forall|j: usize| #[trigger]
                parents@.contains_key(j) ==> parents@[j] < j < f.len() && parents@[j] < id + 1
                    && is_parent(f, parents@[j] as int, j as int),
            forall|i: int, j: int|
                0 <= i < id && 0 <= j < f.len() && #[trigger] is_parent(f, i, j)
                    ==> parents@.contains_key(j as usize),
            forall|m: int| 0 <= m < listed@.len() ==> parents@.contains_key(#[trigger] listed@[m]),
        decreases kids@.len() - k,
    {
        let kid = kids[k];
        proof {
            let c = f[id as int].spec_children()[k as int];
            assert(c == kid);
            if !forced {
                assert(occurs_after(f, id as int, c));
                let q = choose|q: int| id < q < f.len() && f[q] == c;
                assert(f.contains(c));
                assert(ids@.contains_key(kid));
                assert(ids@[f[q]] == q);
            } else {
                assert(!f.contains(c));
                assert(!ids@.contains_key(kid));
            }
        }
        match ids.get(&kid) {
            Some(found) => {
                let child_id: usize = *found;
                proof {
                    assert(is_parent(f, id as int, child_id as int));
                }
                parents.insert(child_id, id);
                listed.push(child_id);
            },
            None => {},
        }
        k = k + 1;
    }
    proof {
        assert forall|i: int, j: int|
            0 <= i < id + 1 && 0 <= j < f.len() && #[trigger] is_parent(
                f,
                i,
                j,
            ) implies parents@.contains_key(j as usize) by {
            if i == id {
                let m = choose|m: int| 0 <= m < kids@.len() && kids@[m] == f[j];
                assert(f[listed@[m] as int] == f[j]);
                assert(parents@.contains_key(listed@[m]));
            }
        }
    }
    listed
}

} // verus!
