//! The eight symmetries of the square as a group: one symmetry after another
//! is a symmetry again, so that being a symmetric image is an equivalence.

use vstd::prelude::*;

use crate::board::State;

verus! {

/// The number of the symmetry that shows a board as symmetry `then` shows
/// what symmetry `first` shows of it.
pub open spec fn composed(first: u8, then: u8) -> u8 {
    let row = if first == 0 {
        seq![0u8, 1u8, 2u8, 3u8, 4u8, 5u8, 6u8, 7u8]
    } else if first == 1 {
        seq![1u8, 0u8, 5u8, 6u8, 7u8, 2u8, 3u8, 4u8]
    } else if first == 2 {
        seq![2u8, 7u8, 0u8, 5u8, 6u8, 3u8, 4u8, 1u8]
    } else if first == 3 {
        seq![3u8, 6u8, 7u8, 0u8, 5u8, 4u8, 1u8, 2u8]
    } else if first == 4 {
        seq![4u8, 5u8, 6u8, 7u8, 0u8, 1u8, 2u8, 3u8]
    } else if first == 5 {
        seq![5u8, 4u8, 1u8, 2u8, 3u8, 6u8, 7u8, 0u8]
    } else if first == 6 {
        seq![6u8, 3u8, 4u8, 1u8, 2u8, 7u8, 0u8, 5u8]
    } else {
        seq![7u8, 2u8, 3u8, 4u8, 1u8, 0u8, 5u8, 6u8]
    };
    row[then as int]
}

impl State {
    /// A symmetry of what a symmetry shows is what their composition shows.
    pub proof fn lemma_rotate_twice(&self, first: u8, then: u8)
        requires
            first < 8,
            then < 8,
        ensures
            composed(first, then) < 8,
            self.spec_rotate(first).spec_rotate(then) == self.spec_rotate(composed(first, then)),
    {
        let twice = self.spec_rotate(first).spec_rotate(then);
        let once = self.spec_rotate(composed(first, then));
        assert(twice.moves =~= once.moves);
    }

    /// An image of an image is an image.
    pub proof fn lemma_symmetry_chain(&self, middle: &State, other: &State)
        requires
            self.spec_is_symmetry(middle),
            middle.spec_is_symmetry(other),
        ensures
            self.spec_is_symmetry(other),
    {
        let outer = choose|symmetry: u8|
            symmetry < 8 && *self == #[trigger] middle.spec_rotate(symmetry);
        let inner = choose|symmetry: u8|
            symmetry < 8 && *middle == #[trigger] other.spec_rotate(symmetry);
        other.lemma_rotate_twice(inner, outer);
        assert(*self == other.spec_rotate(composed(inner, outer)));
    }
}

} // verus!
