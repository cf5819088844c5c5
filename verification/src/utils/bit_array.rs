//! Flags kept as the bits of one byte.

use vstd::prelude::*;

verus! {

pub type Byte = u8;

pub type Bit = u8;

pub const BIT_1: Bit = 0b0000_0001;

/// A flag that has one bit of a byte for itself.
pub trait BitArray {
    /// The bit of the flag.
    spec fn spec_bit(&self) -> Bit;

    /// The bit of the flag.
    fn bit(&self) -> (bit: Bit)
        ensures
            bit == self.spec_bit(),
    ;

    /// Whether the flag is set in `flags`.
    fn has(&self, flags: Byte) -> (set: bool)
        ensures
            set == (self.spec_bit() & flags != 0),
    {
        (self.bit() & flags) != 0
    }
}

} // verus!
