//! The `maxp` table: the font's memory requirements.

use crate::sfnt::types::{Fixed};
use crate::utils::codec::{Decode, Encode};
use vstd::prelude::*;
use vstd::slice::slice_subrange;

verus! {

/// The maximum profile, 32 bytes on the wire.
#[derive(Debug, Clone, Copy, PartialEq, Eq)]
pub struct Maxp {
    pub version: Fixed,
    /// The number of glyphs in the font.
    pub num_glyphs: u16,
    pub max_points: u16,
    pub max_contours: u16,
    pub max_component_points: u16,
    pub max_component_contours: u16,
    pub max_zones: u16,
    pub max_twilight_points: u16,
    pub max_storage: u16,
    pub max_function_defs: u16,
    pub max_instruction_defs: u16,
    pub max_stack_elements: u16,
    pub max_size_of_instructions: u16,
    pub max_component_elements: u16,
    pub max_component_depth: u16,
}

impl Encode for Maxp {
    open spec fn wire(&self) -> Seq<u8> {
        self.version.wire()
            + self.num_glyphs.wire()
            + self.max_points.wire()
            + self.max_contours.wire()
            + self.max_component_points.wire()
            + self.max_component_contours.wire()
            + self.max_zones.wire()
            + self.max_twilight_points.wire()
            + self.max_storage.wire()
            + self.max_function_defs.wire()
            + self.max_instruction_defs.wire()
            + self.max_stack_elements.wire()
            + self.max_size_of_instructions.wire()
            + self.max_component_elements.wire()
            + self.max_component_depth.wire()
    }

    fn encode(&self, out: &mut Vec<u8>) {
        self.version.encode(out);
        self.num_glyphs.encode(out);
        self.max_points.encode(out);
        self.max_contours.encode(out);
        self.max_component_points.encode(out);
        self.max_component_contours.encode(out);
        self.max_zones.encode(out);
        self.max_twilight_points.encode(out);
        self.max_storage.encode(out);
        self.max_function_defs.encode(out);
        self.max_instruction_defs.encode(out);
        self.max_stack_elements.encode(out);
        self.max_size_of_instructions.encode(out);
        self.max_component_elements.encode(out);
        self.max_component_depth.encode(out);
        assert(out@ =~= old(out)@ + self.wire());
    }
}

impl Decode for Maxp {
    open spec fn wire_size() -> nat {
        32
    }

    open spec fn from_wire(bytes: Seq<u8>) -> Maxp {
        Maxp {
            version: Fixed::from_wire(bytes.subrange(0, 4)),
            num_glyphs: u16::from_wire(bytes.subrange(4, 6)),
            max_points: u16::from_wire(bytes.subrange(6, 8)),
            max_contours: u16::from_wire(bytes.subrange(8, 10)),
            max_component_points: u16::from_wire(bytes.subrange(10, 12)),
            max_component_contours: u16::from_wire(bytes.subrange(12, 14)),
            max_zones: u16::from_wire(bytes.subrange(14, 16)),
            max_twilight_points: u16::from_wire(bytes.subrange(16, 18)),
            max_storage: u16::from_wire(bytes.subrange(18, 20)),
            max_function_defs: u16::from_wire(bytes.subrange(20, 22)),
            max_instruction_defs: u16::from_wire(bytes.subrange(22, 24)),
            max_stack_elements: u16::from_wire(bytes.subrange(24, 26)),
            max_size_of_instructions: u16::from_wire(bytes.subrange(26, 28)),
            max_component_elements: u16::from_wire(bytes.subrange(28, 30)),
            max_component_depth: u16::from_wire(bytes.subrange(30, 32)),
        }
    }

    proof fn lemma_wire_exact(bytes: Seq<u8>) {
        Fixed::lemma_wire_exact(bytes.subrange(0, 4));
        u16::lemma_wire_exact(bytes.subrange(4, 6));
        u16::lemma_wire_exact(bytes.subrange(6, 8));
        u16::lemma_wire_exact(bytes.subrange(8, 10));
        u16::lemma_wire_exact(bytes.subrange(10, 12));
        u16::lemma_wire_exact(bytes.subrange(12, 14));
        u16::lemma_wire_exact(bytes.subrange(14, 16));
        u16::lemma_wire_exact(bytes.subrange(16, 18));
        u16::lemma_wire_exact(bytes.subrange(18, 20));
        u16::lemma_wire_exact(bytes.subrange(20, 22));
        u16::lemma_wire_exact(bytes.subrange(22, 24));
        u16::lemma_wire_exact(bytes.subrange(24, 26));
        u16::lemma_wire_exact(bytes.subrange(26, 28));
        u16::lemma_wire_exact(bytes.subrange(28, 30));
        u16::lemma_wire_exact(bytes.subrange(30, 32));
        assert(Self::from_wire(bytes).wire() =~= bytes);
    }

    proof fn lemma_wire_round_trip(&self) {
        self.version.lemma_wire_round_trip();
        self.num_glyphs.lemma_wire_round_trip();
        self.max_points.lemma_wire_round_trip();
        self.max_contours.lemma_wire_round_trip();
        self.max_component_points.lemma_wire_round_trip();
        self.max_component_contours.lemma_wire_round_trip();
        self.max_zones.lemma_wire_round_trip();
        self.max_twilight_points.lemma_wire_round_trip();
        self.max_storage.lemma_wire_round_trip();
        self.max_function_defs.lemma_wire_round_trip();
        self.max_instruction_defs.lemma_wire_round_trip();
        self.max_stack_elements.lemma_wire_round_trip();
        self.max_size_of_instructions.lemma_wire_round_trip();
        self.max_component_elements.lemma_wire_round_trip();
        self.max_component_depth.lemma_wire_round_trip();
        assert(self.wire().subrange(0, 4) =~= self.version.wire());
        assert(self.wire().subrange(4, 6) =~= self.num_glyphs.wire());
        assert(self.wire().subrange(6, 8) =~= self.max_points.wire());
        assert(self.wire().subrange(8, 10) =~= self.max_contours.wire());
        assert(self.wire().subrange(10, 12) =~= self.max_component_points.wire());
        assert(self.wire().subrange(12, 14) =~= self.max_component_contours.wire());
        assert(self.wire().subrange(14, 16) =~= self.max_zones.wire());
        assert(self.wire().subrange(16, 18) =~= self.max_twilight_points.wire());
        assert(self.wire().subrange(18, 20) =~= self.max_storage.wire());
        assert(self.wire().subrange(20, 22) =~= self.max_function_defs.wire());
        assert(self.wire().subrange(22, 24) =~= self.max_instruction_defs.wire());
        assert(self.wire().subrange(24, 26) =~= self.max_stack_elements.wire());
        assert(self.wire().subrange(26, 28) =~= self.max_size_of_instructions.wire());
        assert(self.wire().subrange(28, 30) =~= self.max_component_elements.wire());
        assert(self.wire().subrange(30, 32) =~= self.max_component_depth.wire());
    }

    fn size() -> (n: usize) {
        32
    }

    fn decode_from_slice(bytes: &[u8]) -> (v: Maxp) {
        Maxp {
            version: Fixed::decode_from_slice(slice_subrange(bytes, 0, 4)),
            num_glyphs: u16::decode_from_slice(slice_subrange(bytes, 4, 6)),
            max_points: u16::decode_from_slice(slice_subrange(bytes, 6, 8)),
            max_contours: u16::decode_from_slice(slice_subrange(bytes, 8, 10)),
            max_component_points: u16::decode_from_slice(slice_subrange(bytes, 10, 12)),
            max_component_contours: u16::decode_from_slice(slice_subrange(bytes, 12, 14)),
            max_zones: u16::decode_from_slice(slice_subrange(bytes, 14, 16)),
            max_twilight_points: u16::decode_from_slice(slice_subrange(bytes, 16, 18)),
            max_storage: u16::decode_from_slice(slice_subrange(bytes, 18, 20)),
            max_function_defs: u16::decode_from_slice(slice_subrange(bytes, 20, 22)),
            max_instruction_defs: u16::decode_from_slice(slice_subrange(bytes, 22, 24)),
            max_stack_elements: u16::decode_from_slice(slice_subrange(bytes, 24, 26)),
            max_size_of_instructions: u16::decode_from_slice(slice_subrange(bytes, 26, 28)),
            max_component_elements: u16::decode_from_slice(slice_subrange(bytes, 28, 30)),
            max_component_depth: u16::decode_from_slice(slice_subrange(bytes, 30, 32)),
        }
    }
}

} // verus!
