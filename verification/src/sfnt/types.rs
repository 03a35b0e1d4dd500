//! The scalar types of the font format beyond plain integers.

use crate::utils::codec::{Decode, Encode};
use vstd::prelude::*;
use vstd::slice::slice_subrange;

verus! {

/// A signed fixed-point number with 2 integer bits and 14 fraction bits
/// (F2Dot14), kept as the 16 bits read.
#[derive(Debug, Clone, Copy, PartialEq, Eq)]
pub struct ShortFrac(pub u16);

impl ShortFrac {
    /// The top two bits: the integer part.
    pub fn integer_part(self) -> (r: u16)
        ensures
            r == self.0 / 0x4000,
            r < 4,
    {
        self.0 / 0x4000
    }

    /// The low fourteen bits: the numerator of the fraction over 16384.
    pub fn fraction(self) -> (r: u16)
        ensures
            r == self.0 % 0x4000,
    {
        self.0 % 0x4000
    }
}

impl Encode for ShortFrac {
    open spec fn wire(&self) -> Seq<u8> {
        self.0.wire()
    }

    fn encode(&self, out: &mut Vec<u8>) {
        self.0.encode(out);
    }
}

impl Decode for ShortFrac {
    open spec fn wire_size() -> nat {
        2
    }

    open spec fn from_wire(bytes: Seq<u8>) -> ShortFrac {
        ShortFrac(u16::from_wire(bytes))
    }

    proof fn lemma_wire_exact(bytes: Seq<u8>) {
        u16::lemma_wire_exact(bytes);
    }

    proof fn lemma_wire_round_trip(&self) {
        self.0.lemma_wire_round_trip();
    }

    fn size() -> (n: usize) {
        2
    }

    fn decode_from_slice(bytes: &[u8]) -> (v: ShortFrac) {
        ShortFrac(u16::decode_from_slice(bytes))
    }
}

/// A fixed-point number with 16 integer bits and 16 fraction bits.
#[derive(Debug, Clone, Copy, PartialEq, Eq)]
pub struct Fixed(pub u16, pub u16);

impl Fixed {
    /// The integer part.
    pub fn integer_part(self) -> (r: u16)
        ensures
            r == self.0,
    {
        self.0
    }

    /// The numerator of the fraction over 65536.
    pub fn fraction(self) -> (r: u16)
        ensures
            r == self.1,
    {
        self.1
    }
}

impl Encode for Fixed {
    open spec fn wire(&self) -> Seq<u8> {
        self.0.wire()
            + self.1.wire()
    }

    fn encode(&self, out: &mut Vec<u8>) {
        self.0.encode(out);
        self.1.encode(out);
        assert(out@ =~= old(out)@ + self.wire());
    }
}

impl Decode for Fixed {
    open spec fn wire_size() -> nat {
        4
    }

    open spec fn from_wire(bytes: Seq<u8>) -> Fixed {
        Fixed(u16::from_wire(bytes.subrange(0, 2)), u16::from_wire(bytes.subrange(2, 4)))
    }

    proof fn lemma_wire_exact(bytes: Seq<u8>) {
        u16::lemma_wire_exact(bytes.subrange(0, 2));
        u16::lemma_wire_exact(bytes.subrange(2, 4));
        assert(Self::from_wire(bytes).wire() =~= bytes);
    }

    proof fn lemma_wire_round_trip(&self) {
        self.0.lemma_wire_round_trip();
        self.1.lemma_wire_round_trip();
        assert(self.wire().subrange(0, 2) =~= self.0.wire());
        assert(self.wire().subrange(2, 4) =~= self.1.wire());
    }

    fn size() -> (n: usize) {
        4
    }

    fn decode_from_slice(bytes: &[u8]) -> (v: Fixed) {
        Fixed(u16::decode_from_slice(slice_subrange(bytes, 0, 2)), u16::decode_from_slice(slice_subrange(bytes, 2, 4)))
    }
}

/// A point in time: seconds since the epoch of the format, not interpreted.
#[derive(Debug, Clone, Copy, PartialEq, Eq)]
pub struct LongDateTime(pub i64);

impl LongDateTime {
    pub fn value(self) -> (r: i64)
        ensures
            r == self.0,
    {
        self.0
    }
}

impl Encode for LongDateTime {
    open spec fn wire(&self) -> Seq<u8> {
        self.0.wire()
    }

    fn encode(&self, out: &mut Vec<u8>) {
        self.0.encode(out);
    }
}

impl Decode for LongDateTime {
    open spec fn wire_size() -> nat {
        8
    }

    open spec fn from_wire(bytes: Seq<u8>) -> LongDateTime {
        LongDateTime(i64::from_wire(bytes))
    }

    proof fn lemma_wire_exact(bytes: Seq<u8>) {
        i64::lemma_wire_exact(bytes);
    }

    proof fn lemma_wire_round_trip(&self) {
        self.0.lemma_wire_round_trip();
    }

    fn size() -> (n: usize) {
        8
    }

    fn decode_from_slice(bytes: &[u8]) -> (v: LongDateTime) {
        LongDateTime(i64::decode_from_slice(bytes))
    }
}

/// A signed distance in font design units.
#[derive(Debug, Clone, Copy, PartialEq, Eq)]
pub struct FWord(pub i16);

impl FWord {
    pub fn value(self) -> (r: i16)
        ensures
            r == self.0,
    {
        self.0
    }
}

impl Encode for FWord {
    open spec fn wire(&self) -> Seq<u8> {
        self.0.wire()
    }

    fn encode(&self, out: &mut Vec<u8>) {
        self.0.encode(out);
    }
}

impl Decode for FWord {
    open spec fn wire_size() -> nat {
        2
    }

    open spec fn from_wire(bytes: Seq<u8>) -> FWord {
        FWord(i16::from_wire(bytes))
    }

    proof fn lemma_wire_exact(bytes: Seq<u8>) {
        i16::lemma_wire_exact(bytes);
    }

    proof fn lemma_wire_round_trip(&self) {
        self.0.lemma_wire_round_trip();
    }

    fn size() -> (n: usize) {
        2
    }

    fn decode_from_slice(bytes: &[u8]) -> (v: FWord) {
        FWord(i16::decode_from_slice(bytes))
    }
}

/// An unsigned distance in font design units.
#[derive(Debug, Clone, Copy, PartialEq, Eq)]
pub struct UFWord(pub u16);

impl UFWord {
    pub fn value(self) -> (r: u16)
        ensures
            r == self.0,
    {
        self.0
    }
}

impl Encode for UFWord {
    open spec fn wire(&self) -> Seq<u8> {
        self.0.wire()
    }

    fn encode(&self, out: &mut Vec<u8>) {
        self.0.encode(out);
    }
}

impl Decode for UFWord {
    open spec fn wire_size() -> nat {
        2
    }

    open spec fn from_wire(bytes: Seq<u8>) -> UFWord {
        UFWord(u16::from_wire(bytes))
    }

    proof fn lemma_wire_exact(bytes: Seq<u8>) {
        u16::lemma_wire_exact(bytes);
    }

    proof fn lemma_wire_round_trip(&self) {
        self.0.lemma_wire_round_trip();
    }

    fn size() -> (n: usize) {
        2
    }

    fn decode_from_slice(bytes: &[u8]) -> (v: UFWord) {
        UFWord(u16::decode_from_slice(bytes))
    }
}

} // verus!
