//! The `hhea` table: horizontal layout facts.

use crate::sfnt::types::{FWord, Fixed, UFWord};
use crate::utils::codec::{Decode, Encode};
use vstd::prelude::*;
use vstd::slice::slice_subrange;

verus! {

/// The horizontal header, 36 bytes on the wire.
#[derive(Debug, Clone, Copy, PartialEq, Eq)]
pub struct Hhea {
    pub version: Fixed,
    pub ascent: FWord,
    pub descent: FWord,
    pub line_gap: FWord,
    pub advance_width_max: UFWord,
    pub min_left_side_bearing: FWord,
    pub min_right_side_bearing: FWord,
    pub x_max_extent: FWord,
    pub carret_slope_rise: i16,
    pub carret_slope_run: i16,
    pub carret_offset: FWord,
    /// Eight reserved bytes; kept as read.
    pub reserved: u64,
    pub metric_data_format: i16,
    /// How many entries of `hmtx` carry an advance width.
    pub num_of_long_hor_metrics: u16,
}

impl Encode for Hhea {
    open spec fn wire(&self) -> Seq<u8> {
        self.version.wire()
            + self.ascent.wire()
            + self.descent.wire()
            + self.line_gap.wire()
            + self.advance_width_max.wire()
            + self.min_left_side_bearing.wire()
            + self.min_right_side_bearing.wire()
            + self.x_max_extent.wire()
            + self.carret_slope_rise.wire()
            + self.carret_slope_run.wire()
            + self.carret_offset.wire()
            + self.reserved.wire()
            + self.metric_data_format.wire()
            + self.num_of_long_hor_metrics.wire()
    }

    fn encode(&self, out: &mut Vec<u8>) {
        self.version.encode(out);
        self.ascent.encode(out);
        self.descent.encode(out);
        self.line_gap.encode(out);
        self.advance_width_max.encode(out);
        self.min_left_side_bearing.encode(out);
        self.min_right_side_bearing.encode(out);
        self.x_max_extent.encode(out);
        self.carret_slope_rise.encode(out);
        self.carret_slope_run.encode(out);
        self.carret_offset.encode(out);
        self.reserved.encode(out);
        self.metric_data_format.encode(out);
        self.num_of_long_hor_metrics.encode(out);
        assert(out@ =~= old(out)@ + self.wire());
    }
}

impl Decode for Hhea {
    open spec fn wire_size() -> nat {
        36
    }

    open spec fn from_wire(bytes: Seq<u8>) -> Hhea {
        Hhea {
            version: Fixed::from_wire(bytes.subrange(0, 4)),
            ascent: FWord::from_wire(bytes.subrange(4, 6)),
            descent: FWord::from_wire(bytes.subrange(6, 8)),
            line_gap: FWord::from_wire(bytes.subrange(8, 10)),
            advance_width_max: UFWord::from_wire(bytes.subrange(10, 12)),
            min_left_side_bearing: FWord::from_wire(bytes.subrange(12, 14)),
            min_right_side_bearing: FWord::from_wire(bytes.subrange(14, 16)),
            x_max_extent: FWord::from_wire(bytes.subrange(16, 18)),
            carret_slope_rise: i16::from_wire(bytes.subrange(18, 20)),
            carret_slope_run: i16::from_wire(bytes.subrange(20, 22)),
            carret_offset: FWord::from_wire(bytes.subrange(22, 24)),
            reserved: u64::from_wire(bytes.subrange(24, 32)),
            metric_data_format: i16::from_wire(bytes.subrange(32, 34)),
            num_of_long_hor_metrics: u16::from_wire(bytes.subrange(34, 36)),
        }
    }

    proof fn lemma_wire_exact(bytes: Seq<u8>) {
        Fixed::lemma_wire_exact(bytes.subrange(0, 4));
        FWord::lemma_wire_exact(bytes.subrange(4, 6));
        FWord::lemma_wire_exact(bytes.subrange(6, 8));
        FWord::lemma_wire_exact(bytes.subrange(8, 10));
        UFWord::lemma_wire_exact(bytes.subrange(10, 12));
        FWord::lemma_wire_exact(bytes.subrange(12, 14));
        FWord::lemma_wire_exact(bytes.subrange(14, 16));
        FWord::lemma_wire_exact(bytes.subrange(16, 18));
        i16::lemma_wire_exact(bytes.subrange(18, 20));
        i16::lemma_wire_exact(bytes.subrange(20, 22));
        FWord::lemma_wire_exact(bytes.subrange(22, 24));
        u64::lemma_wire_exact(bytes.subrange(24, 32));
        i16::lemma_wire_exact(bytes.subrange(32, 34));
        u16::lemma_wire_exact(bytes.subrange(34, 36));
        assert(Self::from_wire(bytes).wire() =~= bytes);
    }

    proof fn lemma_wire_round_trip(&self) {
        self.version.lemma_wire_round_trip();
        self.ascent.lemma_wire_round_trip();
        self.descent.lemma_wire_round_trip();
        self.line_gap.lemma_wire_round_trip();
        self.advance_width_max.lemma_wire_round_trip();
        self.min_left_side_bearing.lemma_wire_round_trip();
        self.min_right_side_bearing.lemma_wire_round_trip();
        self.x_max_extent.lemma_wire_round_trip();
        self.carret_slope_rise.lemma_wire_round_trip();
        self.carret_slope_run.lemma_wire_round_trip();
        self.carret_offset.lemma_wire_round_trip();
        self.reserved.lemma_wire_round_trip();
        self.metric_data_format.lemma_wire_round_trip();
        self.num_of_long_hor_metrics.lemma_wire_round_trip();
        assert(self.wire().subrange(0, 4) =~= self.version.wire());
        assert(self.wire().subrange(4, 6) =~= self.ascent.wire());
        assert(self.wire().subrange(6, 8) =~= self.descent.wire());
        assert(self.wire().subrange(8, 10) =~= self.line_gap.wire());
        assert(self.wire().subrange(10, 12) =~= self.advance_width_max.wire());
        assert(self.wire().subrange(12, 14) =~= self.min_left_side_bearing.wire());
        assert(self.wire().subrange(14, 16) =~= self.min_right_side_bearing.wire());
        assert(self.wire().subrange(16, 18) =~= self.x_max_extent.wire());
        assert(self.wire().subrange(18, 20) =~= self.carret_slope_rise.wire());
        assert(self.wire().subrange(20, 22) =~= self.carret_slope_run.wire());
        assert(self.wire().subrange(22, 24) =~= self.carret_offset.wire());
        assert(self.wire().subrange(24, 32) =~= self.reserved.wire());
        assert(self.wire().subrange(32, 34) =~= self.metric_data_format.wire());
        assert(self.wire().subrange(34, 36) =~= self.num_of_long_hor_metrics.wire());
    }

    fn size() -> (n: usize) {
        36
    }

    fn decode_from_slice(bytes: &[u8]) -> (v: Hhea) {
        Hhea {
            version: Fixed::decode_from_slice(slice_subrange(bytes, 0, 4)),
            ascent: FWord::decode_from_slice(slice_subrange(bytes, 4, 6)),
            descent: FWord::decode_from_slice(slice_subrange(bytes, 6, 8)),
            line_gap: FWord::decode_from_slice(slice_subrange(bytes, 8, 10)),
            advance_width_max: UFWord::decode_from_slice(slice_subrange(bytes, 10, 12)),
            min_left_side_bearing: FWord::decode_from_slice(slice_subrange(bytes, 12, 14)),
            min_right_side_bearing: FWord::decode_from_slice(slice_subrange(bytes, 14, 16)),
            x_max_extent: FWord::decode_from_slice(slice_subrange(bytes, 16, 18)),
            carret_slope_rise: i16::decode_from_slice(slice_subrange(bytes, 18, 20)),
            carret_slope_run: i16::decode_from_slice(slice_subrange(bytes, 20, 22)),
            carret_offset: FWord::decode_from_slice(slice_subrange(bytes, 22, 24)),
            reserved: u64::decode_from_slice(slice_subrange(bytes, 24, 32)),
            metric_data_format: i16::decode_from_slice(slice_subrange(bytes, 32, 34)),
            num_of_long_hor_metrics: u16::decode_from_slice(slice_subrange(bytes, 34, 36)),
        }
    }
}

} // verus!
