//! The wire form of values: big-endian, fixed width, no length prefixes.

use crate::error::{DecodeError, EncodeError};
use crate::utils::reader::{fits, window, Stream};
use vstd::prelude::*;

verus! {

/// A value that has a wire form.
pub trait Encode {
    /// The bytes that stand for the value on the wire.
    spec fn wire(&self) -> Seq<u8>;

    /// Appends the wire form of the value to `out`.
    fn encode(&self, out: &mut Vec<u8>)
        ensures
            final(out)@ == old(out)@ + self.wire(),
    ;
}

/// A value whose wire form has a fixed size and stands for exactly one value.
pub trait Decode: Encode + Sized {
    /// The number of bytes of every wire form of this type.
    spec fn wire_size() -> nat;

    /// The value that `bytes` stand for, where `bytes` has `wire_size()` bytes.
    spec fn from_wire(bytes: Seq<u8>) -> Self;

    /// Encoding a value and decoding the bytes gives the value back.
    proof fn lemma_wire_round_trip(&self)
        ensures
            self.wire().len() == Self::wire_size(),
            Self::from_wire(self.wire()) == *self,
    ;

    /// Decoding bytes and encoding the value gives the bytes back.
    proof fn lemma_wire_exact(bytes: Seq<u8>)
        requires
            bytes.len() == Self::wire_size(),
        ensures
            Self::from_wire(bytes).wire() == bytes,
    ;

    fn size() -> (n: usize)
        ensures
            n == Self::wire_size(),
    ;

    fn decode_from_slice(bytes: &[u8]) -> (v: Self)
        requires
            bytes@.len() == Self::wire_size(),
        ensures
            v == Self::from_wire(bytes@),
    ;
}

/// Whether a value of type `T` can be read from `data` at offset `at`.
pub open spec fn has_value<T: Decode>(data: Seq<u8>, at: int) -> bool {
    fits(data, at, T::wire_size() as int)
}

/// The value of type `T` that `data` holds at offset `at`.
pub open spec fn value_at<T: Decode>(data: Seq<u8>, at: int) -> T {
    T::from_wire(window(data, at, T::wire_size() as int))
}

/// Reads one value from the stream; on failure the stream is left as it was.
pub fn decode<T: Decode>(stream: &mut Stream<'_>) -> (r: Result<T, DecodeError>)
    ensures
        final(stream).bytes() == old(stream).bytes(),
        match r {
            Ok(v) => {
                &&& has_value::<T>(old(stream).bytes(), old(stream).cursor())
                &&& v == value_at::<T>(old(stream).bytes(), old(stream).cursor())
                &&& final(stream).cursor() == old(stream).cursor() + T::wire_size()
            },
            Err(e) => {
                &&& !has_value::<T>(old(stream).bytes(), old(stream).cursor())
                &&& e == DecodeError::UnexpectedEof
                &&& final(stream).cursor() == old(stream).cursor()
            },
        },
{
    let n: usize = T::size();
    match stream.take(n) {
        Ok(bytes) => Ok(T::decode_from_slice(bytes)),
        Err(e) => Err(e),
    }
}

/// The wire form of `value` as a fresh vector.
pub fn encode<T: Encode>(value: T) -> (r: Result<Vec<u8>, EncodeError>)
    ensures
        r matches Ok(bytes) && bytes@ == value.wire(),
{
    let mut out: Vec<u8> = Vec::new();
    value.encode(&mut out);
    assert(out@ =~= value.wire());
    Ok(out)
}

/// The signed reading of a byte in two's complement.
pub open spec fn signed8(u: u8) -> i8 {
    if u < 0x80 {
        u as i8
    } else {
        (u - 0x100) as i8
    }
}

/// The byte that stands for `i` in two's complement.
pub open spec fn unsigned8(i: i8) -> u8 {
    if i >= 0 {
        i as u8
    } else {
        (i + 0x100) as u8
    }
}

/// The signed reading of a 16-bit word in two's complement.
pub open spec fn signed16(u: u16) -> i16 {
    if u < 0x8000 {
        u as i16
    } else {
        (u - 0x1_0000) as i16
    }
}

/// The 16-bit word that stands for `i` in two's complement.
pub open spec fn unsigned16(i: i16) -> u16 {
    if i >= 0 {
        i as u16
    } else {
        (i + 0x1_0000) as u16
    }
}

/// The signed reading of a 32-bit word in two's complement.
pub open spec fn signed32(u: u32) -> i32 {
    if u < 0x8000_0000 {
        u as i32
    } else {
        (u - 0x1_0000_0000) as i32
    }
}

/// The 32-bit word that stands for `i` in two's complement.
pub open spec fn unsigned32(i: i32) -> u32 {
    if i >= 0 {
        i as u32
    } else {
        (i + 0x1_0000_0000) as u32
    }
}

/// The signed reading of a 64-bit word in two's complement.
pub open spec fn signed64(u: u64) -> i64 {
    if u < 0x8000_0000_0000_0000 {
        u as i64
    } else {
        (u - 0x1_0000_0000_0000_0000) as i64
    }
}

/// The 64-bit word that stands for `i` in two's complement.
pub open spec fn unsigned64(i: i64) -> u64 {
    if i >= 0 {
        i as u64
    } else {
        (i + 0x1_0000_0000_0000_0000) as u64
    }
}

impl Encode for u8 {
    open spec fn wire(&self) -> Seq<u8> {
        seq![*self]
    }

    fn encode(&self, out: &mut Vec<u8>) {
        out.push(*self);
    }
}

impl Decode for u8 {
    open spec fn wire_size() -> nat {
        1
    }

    open spec fn from_wire(bytes: Seq<u8>) -> u8 {
        bytes[0]
    }

    proof fn lemma_wire_round_trip(&self) {
    }

    proof fn lemma_wire_exact(bytes: Seq<u8>) {
        assert(Self::from_wire(bytes).wire() =~= bytes);
    }

    fn size() -> (n: usize) {
        1
    }

    fn decode_from_slice(bytes: &[u8]) -> (v: u8) {
        bytes[0]
    }
}

impl Encode for i8 {
    open spec fn wire(&self) -> Seq<u8> {
        seq![unsigned8(*self)]
    }

    fn encode(&self, out: &mut Vec<u8>) {
        let v: i8 = *self;
        let u: u8 = if v >= 0 {
            v as u8
        } else {
            (v as i16 + 0x100) as u8
        };
        out.push(u);
    }
}

impl Decode for i8 {
    open spec fn wire_size() -> nat {
        1
    }

    open spec fn from_wire(bytes: Seq<u8>) -> i8 {
        signed8(bytes[0])
    }

    proof fn lemma_wire_round_trip(&self) {
    }

    proof fn lemma_wire_exact(bytes: Seq<u8>) {
        assert(Self::from_wire(bytes).wire() =~= bytes);
    }

    fn size() -> (n: usize) {
        1
    }

    fn decode_from_slice(bytes: &[u8]) -> (v: i8) {
        let u: u8 = bytes[0];
        if u < 0x80 {
            u as i8
        } else {
            (u as i16 - 0x100) as i8
        }
    }
}

impl Encode for u16 {
    open spec fn wire(&self) -> Seq<u8> {
        seq![(*self / 0x100) as u8, (*self % 0x100) as u8]
    }

    fn encode(&self, out: &mut Vec<u8>) {
        let v: u16 = *self;
        out.push((v / 0x100) as u8);
        out.push((v % 0x100) as u8);
        assert(out@ =~= old(out)@ + self.wire());
    }
}

impl Decode for u16 {
    open spec fn wire_size() -> nat {
        2
    }

    open spec fn from_wire(bytes: Seq<u8>) -> u16 {
        (bytes[0] * 0x100 + bytes[1]) as u16
    }

    proof fn lemma_wire_round_trip(&self) {
    }

    proof fn lemma_wire_exact(bytes: Seq<u8>) {
        assert(Self::from_wire(bytes).wire() =~= bytes);
    }

    fn size() -> (n: usize) {
        2
    }

    fn decode_from_slice(bytes: &[u8]) -> (v: u16) {
        (bytes[0] as u16) * 0x100 + (bytes[1] as u16)
    }
}

impl Encode for i16 {
    open spec fn wire(&self) -> Seq<u8> {
        unsigned16(*self).wire()
    }

    fn encode(&self, out: &mut Vec<u8>) {
        let v: i16 = *self;
        let u: u16 = if v >= 0 {
            v as u16
        } else {
            (v as i32 + 0x1_0000) as u16
        };
        u.encode(out);
    }
}

impl Decode for i16 {
    open spec fn wire_size() -> nat {
        2
    }

    open spec fn from_wire(bytes: Seq<u8>) -> i16 {
        signed16(u16::from_wire(bytes))
    }

    proof fn lemma_wire_round_trip(&self) {
        unsigned16(*self).lemma_wire_round_trip();
    }

    proof fn lemma_wire_exact(bytes: Seq<u8>) {
        u16::lemma_wire_exact(bytes);
    }

    fn size() -> (n: usize) {
        2
    }

    fn decode_from_slice(bytes: &[u8]) -> (v: i16) {
        let u: u16 = u16::decode_from_slice(bytes);
        if u < 0x8000 {
            u as i16
        } else {
            (u as i32 - 0x1_0000) as i16
        }
    }
}

impl Encode for u32 {
    open spec fn wire(&self) -> Seq<u8> {
        seq![
            (*self / 0x100_0000) as u8,
            (*self / 0x1_0000 % 0x100) as u8,
            (*self / 0x100 % 0x100) as u8,
            (*self % 0x100) as u8,
        ]
    }

    fn encode(&self, out: &mut Vec<u8>) {
        let v: u32 = *self;
        out.push((v / 0x100_0000) as u8);
        out.push((v / 0x1_0000 % 0x100) as u8);
        out.push((v / 0x100 % 0x100) as u8);
        out.push((v % 0x100) as u8);
        assert(out@ =~= old(out)@ + self.wire());
    }
}

impl Decode for u32 {
    open spec fn wire_size() -> nat {
        4
    }

    open spec fn from_wire(bytes: Seq<u8>) -> u32 {
        (bytes[0] * 0x100_0000 + bytes[1] * 0x1_0000 + bytes[2] * 0x100 + bytes[3]) as u32
    }

    proof fn lemma_wire_round_trip(&self) {
    }

    proof fn lemma_wire_exact(bytes: Seq<u8>) {
        assert(Self::from_wire(bytes).wire() =~= bytes);
    }

    fn size() -> (n: usize) {
        4
    }

    fn decode_from_slice(bytes: &[u8]) -> (v: u32) {
        (bytes[0] as u32) * 0x100_0000 + (bytes[1] as u32) * 0x1_0000 + (bytes[2] as u32) * 0x100
            + (bytes[3] as u32)
    }
}

impl Encode for i32 {
    open spec fn wire(&self) -> Seq<u8> {
        unsigned32(*self).wire()
    }

    fn encode(&self, out: &mut Vec<u8>) {
        let v: i32 = *self;
        let u: u32 = if v >= 0 {
            v as u32
        } else {
            (v as i64 + 0x1_0000_0000) as u32
        };
        u.encode(out);
    }
}

impl Decode for i32 {
    open spec fn wire_size() -> nat {
        4
    }

    open spec fn from_wire(bytes: Seq<u8>) -> i32 {
        signed32(u32::from_wire(bytes))
    }

    proof fn lemma_wire_round_trip(&self) {
        unsigned32(*self).lemma_wire_round_trip();
    }

    proof fn lemma_wire_exact(bytes: Seq<u8>) {
        u32::lemma_wire_exact(bytes);
    }

    fn size() -> (n: usize) {
        4
    }

    fn decode_from_slice(bytes: &[u8]) -> (v: i32) {
        let u: u32 = u32::decode_from_slice(bytes);
        if u < 0x8000_0000 {
            u as i32
        } else {
            (u as i64 - 0x1_0000_0000) as i32
        }
    }
}

impl Encode for u64 {
    open spec fn wire(&self) -> Seq<u8> {
        ((*self / 0x1_0000_0000) as u32).wire() + ((*self % 0x1_0000_0000) as u32).wire()
    }

    fn encode(&self, out: &mut Vec<u8>) {
        let v: u64 = *self;
        let high: u32 = (v / 0x1_0000_0000) as u32;
        let low: u32 = (v % 0x1_0000_0000) as u32;
        high.encode(out);
        low.encode(out);
        assert(out@ =~= old(out)@ + self.wire());
    }
}

impl Decode for u64 {
    open spec fn wire_size() -> nat {
        8
    }

    open spec fn from_wire(bytes: Seq<u8>) -> u64 {
        (u32::from_wire(bytes.subrange(0, 4)) * 0x1_0000_0000 + u32::from_wire(
            bytes.subrange(4, 8),
        )) as u64
    }

    proof fn lemma_wire_round_trip(&self) {
        let high = (*self / 0x1_0000_0000) as u32;
        let low = (*self % 0x1_0000_0000) as u32;
        high.lemma_wire_round_trip();
        low.lemma_wire_round_trip();
        assert(self.wire().subrange(0, 4) =~= high.wire());
        assert(self.wire().subrange(4, 8) =~= low.wire());
    }

    proof fn lemma_wire_exact(bytes: Seq<u8>) {
        u32::lemma_wire_exact(bytes.subrange(0, 4));
        u32::lemma_wire_exact(bytes.subrange(4, 8));
        assert(Self::from_wire(bytes).wire() =~= bytes);
    }

    fn size() -> (n: usize) {
        8
    }

    fn decode_from_slice(bytes: &[u8]) -> (v: u64) {
        let high: u32 = u32::decode_from_slice(vstd::slice::slice_subrange(bytes, 0, 4));
        let low: u32 = u32::decode_from_slice(vstd::slice::slice_subrange(bytes, 4, 8));
        (high as u64) * 0x1_0000_0000 + (low as u64)
    }
}

impl Encode for i64 {
    open spec fn wire(&self) -> Seq<u8> {
        unsigned64(*self).wire()
    }

    fn encode(&self, out: &mut Vec<u8>) {
        let v: i64 = *self;
        let u: u64 = if v >= 0 {
            v as u64
        } else {
            (v as i128 + 0x1_0000_0000_0000_0000) as u64
        };
        u.encode(out);
    }
}

impl Decode for i64 {
    open spec fn wire_size() -> nat {
        8
    }

    open spec fn from_wire(bytes: Seq<u8>) -> i64 {
        signed64(u64::from_wire(bytes))
    }

    proof fn lemma_wire_round_trip(&self) {
        unsigned64(*self).lemma_wire_round_trip();
    }

    proof fn lemma_wire_exact(bytes: Seq<u8>) {
        u64::lemma_wire_exact(bytes);
    }

    fn size() -> (n: usize) {
        8
    }

    fn decode_from_slice(bytes: &[u8]) -> (v: i64) {
        let u: u64 = u64::decode_from_slice(bytes);
        if u < 0x8000_0000_0000_0000 {
            u as i64
        } else {
            (u as i128 - 0x1_0000_0000_0000_0000) as i64
        }
    }
}

} // verus!
