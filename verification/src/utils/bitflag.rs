//! Reading single bits of a flag word.

use vstd::arithmetic::power2::pow2;
use vstd::prelude::*;

verus! {

/// Access to the bits of a flag word by their position.
pub trait BitFlag<F>: Sized {
    /// Whether `flag` is the position of a bit of this word.
    spec fn is_position(flag: F) -> bool;

    /// The bit at position `flag`, as 0 or 1: the digit of the word that
    /// counts `2^flag`.
    spec fn bit(self, flag: F) -> F;

    /// Whether the bit at position `flag` is set.
    spec fn is_set(self, flag: F) -> bool;

    fn get(self, flag: F) -> (r: F)
        requires
            Self::is_position(flag),
        ensures
            r == self.bit(flag),
    ;

    fn has(self, flag: F) -> (r: bool)
        requires
            Self::is_position(flag),
        ensures
            r == self.is_set(flag),
    ;
}

impl BitFlag<u8> for u8 {
    open spec fn is_position(flag: u8) -> bool {
        flag < 8
    }

    open spec fn bit(self, flag: u8) -> u8 {
        (self as nat / pow2(flag as nat) % 2) as u8
    }

    open spec fn is_set(self, flag: u8) -> bool {
        self.bit(flag) == 1
    }

    fn get(self, flag: u8) -> (r: u8) {
        let shifted: u8 = self >> flag;
        proof {
            vstd::bits::lemma_u8_shr_is_div(self, flag);
            assert(shifted & 1 == shifted % 2) by (bit_vector);
        }
        shifted & 1
    }

    fn has(self, flag: u8) -> (r: bool) {
        self.get(flag) == 1
    }
}

impl BitFlag<u16> for u16 {
    open spec fn is_position(flag: u16) -> bool {
        flag < 16
    }

    open spec fn bit(self, flag: u16) -> u16 {
        (self as nat / pow2(flag as nat) % 2) as u16
    }

    open spec fn is_set(self, flag: u16) -> bool {
        self.bit(flag) == 1
    }

    fn get(self, flag: u16) -> (r: u16) {
        let shifted: u16 = self >> flag;
        proof {
            vstd::bits::lemma_u16_shr_is_div(self, flag);
            assert(shifted & 1 == shifted % 2) by (bit_vector);
        }
        shifted & 1
    }

    fn has(self, flag: u16) -> (r: bool) {
        self.get(flag) == 1
    }
}

} // verus!
