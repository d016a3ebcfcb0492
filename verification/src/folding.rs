//! Which boards the game tree keeps: the descendants of the empty board
//! without those that lie below a board with a forced outcome.

use vstd::prelude::*;

use crate::board::State;
use crate::outcome::Outcome;
use crate::reach::{children_follow, has_parent_before, occurs_after, parents_precede};
use crate::table::StateMap;

verus! {

/// `s` is a successor of a board of `all` that has a forced outcome.
pub open spec fn folded_away(all: Seq<State>, s: State) -> bool {
    exists|p: int, k: int|
        0 <= p < all.len() && all[p].spec_forced_outcome() is Some && 0 <= k
            < all[p].spec_children().len() && #[trigger] all[p].spec_children()[k] == s
}

/// The positions below `n` of the boards of `all` that are not folded away,
/// in rising order.
pub open spec fn kept_positions(all: Seq<State>, n: int) -> Seq<int>
    decreases n,
{
    if n <= 0 {
        Seq::empty()
    } else if folded_away(all, all[n - 1]) {
        kept_positions(all, n - 1)
    } else {
        kept_positions(all, n - 1).push(n - 1)
    }
}

/// The boards of `all` at `positions`, in that order.
pub open spec fn boards_at(all: Seq<State>, positions: Seq<int>) -> Seq<State> {
    Seq::new(positions.len(), |k: int| all[positions[k]])
}

/// The boards of `all` that are not folded away, in the order of `all`.
pub open spec fn unfolded(all: Seq<State>) -> Seq<State> {
    boards_at(all, kept_positions(all, all.len() as int))
}

/// The boards of the game tree below `root` in the order of their numbers:
/// the descendants of `root` in depth-first order, without the successors of
/// boards with a forced outcome.
pub open spec fn spec_boards(root: State) -> Seq<State> {
    unfolded(root.spec_descendants())
}

/// A board of `f` with a forced outcome has no successor in `f`; the
/// successors of any other board of `f` all stand in `f` behind it.
pub open spec fn parents_first(f: Seq<State>) -> bool {
    forall|i: int, k: int|
        0 <= i < f.len() && 0 <= k < f[i].spec_children().len() ==> if f[i].spec_forced_outcome() is Some {
            !f.contains(#[trigger] f[i].spec_children()[k])
        } else {
            occurs_after(f, i, f[i].spec_children()[k])
        }
}

/// The board at position `j` of `f` is a successor of a board before it that
/// has no forced outcome.
pub open spec fn has_open_parent(f: Seq<State>, j: int) -> bool {
    exists|i: int|
        0 <= i < j && (#[trigger] f[i]).spec_forced_outcome() is None
            && f[i].spec_children().contains(f[j])
}

/// The kept positions below `n` rise, hold boards that are not folded away,
/// and miss no such board.
pub proof fn lemma_kept_positions(all: Seq<State>, n: int)
    requires
        0 <= n <= all.len(),
    ensures
        kept_positions(all, n).len() <= n,
        forall|k: int|
            0 <= k < kept_positions(all, n).len() ==> 0 <= (#[trigger] kept_positions(all, n)[k])
                < n && !folded_away(all, all[kept_positions(all, n)[k]]),
        forall|j: int, k: int|
            0 <= j < k < kept_positions(all, n).len() ==> kept_positions(all, n)[j]
                < kept_positions(all, n)[k],
        forall|p: int|
            0 <= p < n && !folded_away(all, #[trigger] all[p]) ==> kept_positions(all, n).contains(
                p,
            ),
    decreases n,
{
    if n > 0 {
        lemma_kept_positions(all, n - 1);
        let before = kept_positions(all, n - 1);
        let now = kept_positions(all, n);
        assert forall|p: int| 0 <= p < n && !folded_away(all, #[trigger] all[p]) implies now.contains(
            p,
        ) by {
            if p < n - 1 {
                assert(before.contains(p));
                let k = choose|k: int| 0 <= k < before.len() && before[k] == p;
                assert(now[k] == p);
            } else {
                assert(now[now.len() - 1] == p);
            }
        }
    }
}

/// Keeping the boards that are not folded away keeps what holds of a
/// depth-first list: no board occurs twice, and the successors of a kept
/// board without a forced outcome are kept and stand behind it.
pub proof fn lemma_unfolded(all: Seq<State>)
    requires
        all.no_duplicates(),
        children_follow(all),
        parents_precede(all),
        forall|p: int| 0 <= p < all.len() ==> (#[trigger] all[p]).playable(),
    ensures
        unfolded(all).no_duplicates(),
        parents_first(unfolded(all)),
        forall|i: int| 0 <= i < unfolded(all).len() ==> all.contains(#[trigger] unfolded(all)[i]),
        all.len() > 0 ==> unfolded(all).len() > 0 && unfolded(all)[0] == all[0],
        forall|j: int| 0 < j < unfolded(all).len() ==> #[trigger] has_open_parent(unfolded(all), j),
{
    let n = all.len() as int;
    let pos = kept_positions(all, n);
    let f = unfolded(all);
    lemma_kept_positions(all, n);
    assert forall|j: int| 0 < j < f.len() implies #[trigger] has_open_parent(f, j) by {
        let q = pos[j];
        assert(pos[0] < pos[j]);
        assert(has_parent_before(all, q));
        let (p, k) = choose|p: int, k: int|
            0 <= p < q && 0 <= k < all[p].spec_children().len() && #[trigger] all[p].spec_children()[k]
                == all[q];
        assert(!folded_away(all, all[q]));
        assert(all[p].spec_forced_outcome() is None);
        if folded_away(all, all[p]) {
            let (pb, kb) = choose|pb: int, kb: int|
                0 <= pb < all.len() && all[pb].spec_forced_outcome() is Some && 0 <= kb
                    < all[pb].spec_children().len() && #[trigger] all[pb].spec_children()[kb]
                    == all[p];
            all[pb].lemma_child_props(kb);
            all[pb].lemma_forced_passes_down(kb);
        }
        assert(pos.contains(p));
        let i = choose|i: int| 0 <= i < pos.len() && pos[i] == p;
        if i >= j {
            if i > j {
                assert(pos[j] < pos[i]);
            }
        }
        assert(f[i] == all[p]);
        assert(f[i].spec_children()[k] == f[j]);
    }
    assert forall|i: int, j: int| 0 <= i < f.len() && 0 <= j < f.len() && i != j implies f[i]
        != f[j] by {
        if i < j {
            assert(pos[i] < pos[j]);
        } else {
            assert(pos[j] < pos[i]);
        }
    }
    assert forall|i: int| 0 <= i < f.len() implies all.contains(#[trigger] f[i]) by {
        assert(all[pos[i]] == f[i]);
    }
    assert forall|i: int, k: int|
        0 <= i < f.len() && 0 <= k < f[i].spec_children().len() implies if f[i].spec_forced_outcome() is Some {
        !f.contains(#[trigger] f[i].spec_children()[k])
    } else {
        occurs_after(f, i, f[i].spec_children()[k])
    } by {
        let c = f[i].spec_children()[k];
        assert(f[i] == all[pos[i]]);
        if f[i].spec_forced_outcome() is Some {
            assert(folded_away(all, c)) by {
                assert(all[pos[i]].spec_children()[k] == c);
            }
            if f.contains(c) {
                let j = choose|j: int| 0 <= j < f.len() && f[j] == c;
                assert(!folded_away(all, all[pos[j]]));
            }
        } else {
            assert(occurs_after(all, pos[i], all[pos[i]].spec_children()[k]));
            let q = choose|q: int| pos[i] < q < all.len() && all[q] == c;
            if folded_away(all, c) {
                let (pa, ka) = choose|pa: int, ka: int|
                    0 <= pa < all.len() && all[pa].spec_forced_outcome() is Some && 0 <= ka
                        < all[pa].spec_children().len() && #[trigger] all[pa].spec_children()[ka]
                        == c;
                all[pa].lemma_one_parent(&f[i], ka, k);
            }
            assert(pos.contains(q));
            let j = choose|j: int| 0 <= j < pos.len() && pos[j] == q;
            assert(f[j] == c);
            if j <= i {
                if j < i {
                    assert(pos[j] < pos[i]);
                }
            }
        }
    }
    if n > 0 {
        assert(!folded_away(all, all[0])) by {
            if folded_away(all, all[0]) {
                let (pa, ka) = choose|pa: int, ka: int|
                    0 <= pa < all.len() && all[pa].spec_forced_outcome() is Some && 0 <= ka
                        < all[pa].spec_children().len() && #[trigger] all[pa].spec_children()[ka]
                        == all[0];
                assert(occurs_after(all, pa, all[pa].spec_children()[ka]));
            }
        }
        lemma_first_kept_position(all, n);
    }
}

/// Where the first board is not folded away, it is the first that is kept.
proof fn lemma_first_kept_position(all: Seq<State>, n: int)
    requires
        0 < n <= all.len(),
        !folded_away(all, all[0]),
    ensures
        kept_positions(all, n).len() > 0,
        kept_positions(all, n)[0] == 0,
    decreases n,
{
    if n > 1 {
        lemma_first_kept_position(all, n - 1);
    } else {
        assert(kept_positions(all, 0) =~= Seq::<int>::empty());
    }
}

/// A board is folded away by the first `p + 1` boards if it is by the first
/// `p`, or if board `p` has a forced outcome and the board among its
/// successors.
proof fn lemma_folded_step(all: Seq<State>, p: int, s: State)
    requires
        0 <= p < all.len(),
    ensures
        folded_away(all.take(p + 1), s) <==> folded_away(all.take(p), s) || (
        all[p].spec_forced_outcome() is Some && all[p].spec_children().contains(s)),
{
    let head = all.take(p);
    let next = all.take(p + 1);
    if folded_away(next, s) {
        let (pa, ka) = choose|pa: int, ka: int|
            0 <= pa < next.len() && next[pa].spec_forced_outcome() is Some && 0 <= ka
                < next[pa].spec_children().len() && #[trigger] next[pa].spec_children()[ka] == s;
        if pa < p {
            assert(head[pa].spec_children()[ka] == s);
        } else {
            assert(next[pa] == all[p]);
            assert(all[p].spec_children()[ka] == s);
        }
    }
    if folded_away(head, s) {
        let (pa, ka) = choose|pa: int, ka: int|
            0 <= pa < head.len() && head[pa].spec_forced_outcome() is Some && 0 <= ka
                < head[pa].spec_children().len() && #[trigger] head[pa].spec_children()[ka] == s;
        assert(next[pa].spec_children()[ka] == s);
    }
    if all[p].spec_forced_outcome() is Some && all[p].spec_children().contains(s) {
        let j = choose|j: int|
            0 <= j < all[p].spec_children().len() && all[p].spec_children()[j] == s;
        assert(next[p].spec_children()[j] == s);
    }
}

/// The forced outcome that `solved` holds for `s`, if it holds one.
pub fn solved_outcome(solved: &StateMap<Option<Outcome>>, s: &State) -> (r: Option<Outcome>)
    ensures
        r == if solved@.contains_key(*s) {
            solved@[*s]
        } else {
            None
        },
{
    match solved.get(s) {
        Some(found) => *found,
        None => None,
    }
}

/// A table with an entry for each board that is folded away: for each
/// successor of a board of `all` that has a forced outcome.
pub fn mark_folded(all: &Vec<State>, solved: &StateMap<Option<Outcome>>) -> (marked: StateMap<()>)
    requires
        forall|p: int| 0 <= p < all@.len() ==> (#[trigger] all@[p]).playable(),
        forall|p: int| 0 <= p < all@.len() ==> solved@.contains_key(#[trigger] all@[p]),
        forall|s: State| solved@.contains_key(s) ==> solved@[s] == s.spec_forced_outcome(),
    ensures
        forall|s: State| marked@.contains_key(s) <==> folded_away(all@, s),
{
    let mut marked: StateMap<()> = StateMap::new();
    let mut p: usize = 0;
    while p < all.len()
        invariant
            0 <= p <= all@.len(),
            forall|q: int| 0 <= q < all@.len() ==> (#[trigger] all@[q]).playable(),
            forall|q: int| 0 <= q < all@.len() ==> solved@.contains_key(#[trigger] all@[q]),
            forall|s: State| solved@.contains_key(s) ==> solved@[s] == s.spec_forced_outcome(),
            forall|s: State| marked@.contains_key(s) <==> folded_away(all@.take(p as int), s),
        decreases all@.len() - p,
    {
        let state = all[p];
        let ghost before = marked@;
        if solved_outcome(solved, &state).is_some() {
            proof {
                if state.spec_outcome() is None {
                    state.lemma_open_board_has_child();
                    state.lemma_leads_to_child(0);
                }
            }
            let kids = state.children();
            let mut k: usize = 0;
            while k < kids.len()
                invariant
                    0 <= k <= kids@.len(),
                    kids@ == state.spec_children(),
                    forall|s: State|
                        marked@.contains_key(s) <==> before.contains_key(s) || kids@.take(
                            k as int,
                        ).contains(s),
                decreases kids@.len() - k,
            {
                let ghost inner = marked@;
                marked.insert(kids[k], ());
                proof {
                    let done = kids@.take(k as int);
                    let more = kids@.take(k + 1);
                    assert forall|s: State| marked@.contains_key(s) <==> before.contains_key(s)
                        || more.contains(s) by {
                        if marked@.contains_key(s) && !before.contains_key(s) {
                            if s == kids@[k as int] {
                                assert(more[k as int] == s);
                                assert(more.contains(s));
                            } else {
                                assert(inner.contains_key(s));
                                assert(done.contains(s));
                                let j = choose|j: int| 0 <= j < done.len() && done[j] == s;
                                assert(more[j] == s);
                                assert(more.contains(s));
                            }
                        }
                        if more.contains(s) {
                            let j = choose|j: int| 0 <= j < more.len() && more[j] == s;
                            if j < k {
                                assert(done[j] == s);
                            }
                        }
                        if s == kids@[k as int] {
                            assert(more[k as int] == s);
                        }
                        assert(inner.contains_key(s) <==> before.contains_key(s) || done.contains(s));
                    }
                }
                k = k + 1;
            }
            assert(kids@.take(k as int) =~= kids@);
        }
        proof {
            assert forall|s: State| marked@.contains_key(s) <==> folded_away(
                all@.take(p + 1),
                s,
            ) by {
                lemma_folded_step(all@, p as int, s);
                assert(before.contains_key(s) <==> folded_away(all@.take(p as int), s));
            }
        }
        p = p + 1;
    }
    assert(all@.take(all@.len() as int) =~= all@);
    marked
}

/// The boards of `all` without an entry in `marked`, in the order of `all`.
pub fn keep_unfolded(all: &Vec<State>, marked: &StateMap<()>) -> (kept: Vec<State>)
    requires
        forall|s: State| marked@.contains_key(s) <==> folded_away(all@, s),
    ensures
        kept@ == unfolded(all@),
{
    let mut kept: Vec<State> = Vec::new();
    let mut p: usize = 0;
    while p < all.len()
        invariant
            0 <= p <= all@.len(),
            forall|s: State| marked@.contains_key(s) <==> folded_away(all@, s),
            kept@ == boards_at(all@, kept_positions(all@, p as int)),
        decreases all@.len() - p,
    {
        if !marked.contains_key(&all[p]) {
            kept.push(all[p]);
        }
        p = p + 1;
        assert(kept@ =~= boards_at(all@, kept_positions(all@, p as int)));
    }
    kept
}

} // verus!
