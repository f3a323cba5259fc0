//! Sets of text positions.

use std::collections::HashSet;

use vstd::prelude::*;

use crate::panel_model::TextPos;

verus! {

broadcast use vstd::std_specs::hash::group_hash_axioms;

/// A set of [`TextPos`], such as the positions of marks that are shown in a
/// panel but must not be copied from it.
pub struct PosSet {
    keys: HashSet<u128>,
}

/// The number that stands for a position.
spec fn key_of(pos: TextPos) -> int {
    pos.line * 0x1_0000_0000_0000_0000 + pos.col
}

/// The position that a number stands for.
spec fn pos_of(key: int) -> TextPos {
    TextPos {
        line: (key / 0x1_0000_0000_0000_0000) as usize,
        col: (key % 0x1_0000_0000_0000_0000) as usize,
    }
}

impl View for PosSet {
    type V = Set<TextPos>;

    closed spec fn view(&self) -> Set<TextPos> {
        Set::new(|pos: TextPos| self.keys@.contains(key_of(pos) as u128))
    }
}

impl PosSet {
    /// Every number in the set stands for a position.
    #[verifier::type_invariant]
    closed spec fn inv(self) -> bool {
        forall|key: u128| #[trigger]
            self.keys@.contains(key) ==> key_of(pos_of(key as int)) == key
    }

    /// The empty set.
    pub fn new() -> (r: Self)
        ensures
            r@ == Set::<TextPos>::empty(),
    {
        let keys: HashSet<u128> = HashSet::new();
        let r = PosSet { keys };
        assert(r@ =~= Set::<TextPos>::empty());
        r
    }

    /// Adds a position; says whether it was not in the set before.
    pub fn insert(&mut self, pos: TextPos) -> (r: bool)
        ensures
            final(self)@ == old(self)@.insert(pos),
            r == !old(self)@.contains(pos),
    {
        proof {
            use_type_invariant(&*self);
        }
        let ghost before = self@;
        let key: u128 = position_key(pos);
        let mut keys: HashSet<u128> = HashSet::new();
        std::mem::swap(&mut keys, &mut self.keys);
        let ghost old_keys = keys@;
        let fresh: bool = keys.insert(key);
        proof {
            assert(pos_of(key as int) == pos);
        }
        self.keys = keys;
        proof {
            assert forall|other: TextPos| #[trigger]
                self@.contains(other) == before.insert(pos).contains(other) by {
                assert(pos_of(key_of(other)) == other);
                assert(key_of(other) <= u128::MAX);
            }
            assert(self@ =~= before.insert(pos));
        }
        fresh
    }

    /// Whether a position is in the set.
    pub fn contains(&self, pos: TextPos) -> (r: bool)
        ensures
            r == self@.contains(pos),
    {
        let key: u128 = position_key(pos);
        self.keys.contains(&key)
    }

    /// Whether the set is empty.
    pub fn is_empty(&self) -> (r: bool)
        ensures
            r == (self@ == Set::<TextPos>::empty()),
    {
        proof {
            use_type_invariant(self);
        }
        let r: bool = self.keys.is_empty();
        proof {
            if r {
                assert(self@ =~= Set::<TextPos>::empty());
            } else {
                let key = choose|key: u128| self.keys@.contains(key);
                assert(self.keys@.contains(key)) by {
                    if forall|key: u128| !self.keys@.contains(key) {
                        assert(self.keys@ =~= Set::<u128>::empty());
                    }
                }
                assert(self@.contains(pos_of(key as int)));
            }
        }
        r
    }
}

impl Default for PosSet {
    /// The empty set.
    fn default() -> (r: Self)
        ensures
            r@ == Set::<TextPos>::empty(),
    {
        PosSet::new()
    }
}

/// The number that stands for a position.
fn position_key(pos: TextPos) -> (r: u128)
    ensures
        r == key_of(pos),
{
    pos.line as u128 * 0x1_0000_0000_0000_0000 + pos.col as u128
}

} // verus!
