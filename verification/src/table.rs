//! Tables that are keyed by boards.

use std::collections::HashMap;
use vstd::prelude::*;

use crate::board::State;

verus! {

impl State {
    /// The nine cells read as the digits of one number in base 256, cell 0
    /// being the lowest digit.
    pub open spec fn spec_code(&self) -> int {
        self.moves[0] + 256 * (self.moves[1] + 256 * (self.moves[2] + 256 * (self.moves[3] + 256
            * (self.moves[4] + 256 * (self.moves[5] + 256 * (self.moves[6] + 256 * (self.moves[7]
            + 256 * self.moves[8])))))))
    }

    /// The number that stands for the board in a table.
    pub fn code(&self) -> (c: u128)
        ensures
            c == self.spec_code(),
    {
        let mut c: u128 = self.moves[8] as u128;
        c = c * 256 + self.moves[7] as u128;
        c = c * 256 + self.moves[6] as u128;
        c = c * 256 + self.moves[5] as u128;
        c = c * 256 + self.moves[4] as u128;
        c = c * 256 + self.moves[3] as u128;
        c = c * 256 + self.moves[2] as u128;
        c = c * 256 + self.moves[1] as u128;
        c = c * 256 + self.moves[0] as u128;
        c
    }

    /// Different boards have different codes.
    pub proof fn lemma_code_tells_board(&self, other: &State)
        requires
            self.spec_code() == other.spec_code(),
        ensures
            *self == *other,
    {
        assert(self.moves =~= other.moves);
    }
}

/// A table from boards to values of `V`.
pub struct StateMap<V> {
    entries: HashMap<u128, V>,
}

impl<V> View for StateMap<V> {
    type V = Map<State, V>;

    closed spec fn view(&self) -> Map<State, V> {
        Map::new(
            |s: State| self.entries@.contains_key(s.spec_code() as u128),
            |s: State| self.entries@[s.spec_code() as u128],
        )
    }
}

impl<V> StateMap<V> {
    /// The empty table.
    pub fn new() -> (r: Self)
        ensures
            r@ == Map::<State, V>::empty(),
    {
        let r = StateMap { entries: HashMap::new() };
        assert(r@ =~= Map::<State, V>::empty());
        r
    }

    /// Sets the entry of `key` to `value`.
    pub fn insert(&mut self, key: State, value: V)
        ensures
            final(self)@ == old(self)@.insert(key, value),
    {
        let c = key.code();
        self.entries.insert(c, value);
        proof {
            assert forall|s: State| s.spec_code() == key.spec_code() implies s == key by {
                s.lemma_code_tells_board(&key);
            }
            assert(self@ =~= old(self)@.insert(key, value));
        }
    }

    /// The entry of `key`, if it has one.
    pub fn get(&self, key: &State) -> (r: Option<&V>)
        ensures
            match r {
                Some(v) => self@.contains_key(*key) && *v == self@[*key],
                None => !self@.contains_key(*key),
            },
    {
        let c = key.code();
        self.entries.get(&c)
    }

    /// Whether `key` has an entry.
    pub fn contains_key(&self, key: &State) -> (b: bool)
        ensures
            b == self@.contains_key(*key),
    {
        let c = key.code();
        self.entries.contains_key(&c)
    }
}

} // verus!
