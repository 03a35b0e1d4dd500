//! A coordinate or argument as it is stored: one or two bytes, signed or not.

use crate::utils::codec::Encode;
use vstd::prelude::*;

verus! {

/// A stored coordinate value, tagged by its width and signedness.
#[derive(Debug, Clone, Copy, PartialEq, Eq)]
pub enum Coord {
    Int8(i8),
    Int16(i16),
    UInt8(u8),
    UInt16(u16),
}

impl Coord {
    /// The number of bytes the value takes on the wire.
    pub open spec fn width(self) -> int {
        match self {
            Coord::Int8(_) => 1,
            Coord::Int16(_) => 2,
            Coord::UInt8(_) => 1,
            Coord::UInt16(_) => 2,
        }
    }
}

impl Encode for Coord {
    open spec fn wire(&self) -> Seq<u8> {
        match self {
            Coord::Int8(value) => value.wire(),
            Coord::Int16(value) => value.wire(),
            Coord::UInt8(value) => value.wire(),
            Coord::UInt16(value) => value.wire(),
        }
    }

    fn encode(&self, out: &mut Vec<u8>) {
        match self {
            Coord::Int8(value) => value.encode(out),
            Coord::Int16(value) => value.encode(out),
            Coord::UInt8(value) => value.encode(out),
            Coord::UInt16(value) => value.encode(out),
        }
    }
}

} // verus!
