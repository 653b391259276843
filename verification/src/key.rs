//! Row identifiers.

use vstd::prelude::*;

verus! {

/// The identifier of a row: totally ordered by its number.
#[derive(Clone, Copy, Debug, PartialEq, Eq, PartialOrd, Ord, Hash, Structural)]
pub struct Key(pub u128);

/// The seed that `AnyReducer` salts keys with.
pub const SALT: u128 = 0xDEAD_BEEF_DEAD_BEEF_DEAD_BEEF_DEAD_BEEF_u128;

impl View for Key {
    type V = Key;

    open spec fn view(&self) -> Key {
        *self
    }
}

impl DeepView for Key {
    type V = Key;

    open spec fn deep_view(&self) -> Key {
        *self
    }
}

impl Key {
    /// The key with `seed` folded into it, bit by bit.
    pub open spec fn salted(self, seed: u128) -> Key {
        Key(self.0 ^ seed)
    }

    /// The key with `seed` folded into it, bit by bit.
    pub fn salted_with(self, seed: u128) -> (r: Key)
        ensures
            r == self.salted(seed),
    {
        Key(self.0 ^ seed)
    }

    /// Salting with one seed never sends two keys to the same place.
    pub proof fn lemma_salted_injective(self, other: Key, seed: u128)
        ensures
            self.salted(seed) == other.salted(seed) <==> self == other,
    {
        let a = self.0;
        let b = other.0;
        assert((a ^ seed) == (b ^ seed) <==> a == b) by (bit_vector);
    }
}

} // verus!
