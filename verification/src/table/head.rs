//! The `head` table: global facts about the font.

use crate::sfnt::types::{FWord, Fixed, LongDateTime};
use crate::utils::codec::{Decode, Encode};
use vstd::prelude::*;
use vstd::slice::slice_subrange;

verus! {

/// The font header, 56 bytes on the wire.
#[derive(Debug, Clone, Copy, PartialEq, Eq)]
pub struct Head {
    pub version: Fixed,
    pub font_revision: Fixed,
    pub check_sum_adjustement: u32,
    pub magic_number: u32,
    pub flags: u16,
    pub units_per_em: u16,
    pub created: LongDateTime,
    pub modified: LongDateTime,
    pub x_min: FWord,
    pub y_min: FWord,
    pub x_max: FWord,
    pub y_max: FWord,
    pub mac_style: u16,
    pub lowest_rec_ppem: u16,
    pub font_direction_hint: i16,
    /// 0 where `loca` stores halved 16-bit offsets, anything else where it stores 32-bit offsets.
    pub index_to_loc_format: i16,
    pub glyph_data_format: i16,
    /// Two bytes that follow the last field; kept as read.
    pub reserved: u16,
}

impl Encode for Head {
    open spec fn wire(&self) -> Seq<u8> {
        self.version.wire()
            + self.font_revision.wire()
            + self.check_sum_adjustement.wire()
            + self.magic_number.wire()
            + self.flags.wire()
            + self.units_per_em.wire()
            + self.created.wire()
            + self.modified.wire()
            + self.x_min.wire()
            + self.y_min.wire()
            + self.x_max.wire()
            + self.y_max.wire()
            + self.mac_style.wire()
            + self.lowest_rec_ppem.wire()
            + self.font_direction_hint.wire()
            + self.index_to_loc_format.wire()
            + self.glyph_data_format.wire()
            + self.reserved.wire()
    }

    fn encode(&self, out: &mut Vec<u8>) {
        self.version.encode(out);
        self.font_revision.encode(out);
        self.check_sum_adjustement.encode(out);
        self.magic_number.encode(out);
        self.flags.encode(out);
        self.units_per_em.encode(out);
        self.created.encode(out);
        self.modified.encode(out);
        self.x_min.encode(out);
        self.y_min.encode(out);
        self.x_max.encode(out);
        self.y_max.encode(out);
        self.mac_style.encode(out);
        self.lowest_rec_ppem.encode(out);
        self.font_direction_hint.encode(out);
        self.index_to_loc_format.encode(out);
        self.glyph_data_format.encode(out);
        self.reserved.encode(out);
        assert(out@ =~= old(out)@ + self.wire());
    }
}

impl Decode for Head {
    open spec fn wire_size() -> nat {
        56
    }

    open spec fn from_wire(bytes: Seq<u8>) -> Head {
        Head {
            version: Fixed::from_wire(bytes.subrange(0, 4)),
            font_revision: Fixed::from_wire(bytes.subrange(4, 8)),
            check_sum_adjustement: u32::from_wire(bytes.subrange(8, 12)),
            magic_number: u32::from_wire(bytes.subrange(12, 16)),
            flags: u16::from_wire(bytes.subrange(16, 18)),
            units_per_em: u16::from_wire(bytes.subrange(18, 20)),
            created: LongDateTime::from_wire(bytes.subrange(20, 28)),
            modified: LongDateTime::from_wire(bytes.subrange(28, 36)),
            x_min: FWord::from_wire(bytes.subrange(36, 38)),
            y_min: FWord::from_wire(bytes.subrange(38, 40)),
            x_max: FWord::from_wire(bytes.subrange(40, 42)),
            y_max: FWord::from_wire(bytes.subrange(42, 44)),
            mac_style: u16::from_wire(bytes.subrange(44, 46)),
            lowest_rec_ppem: u16::from_wire(bytes.subrange(46, 48)),
            font_direction_hint: i16::from_wire(bytes.subrange(48, 50)),
            index_to_loc_format: i16::from_wire(bytes.subrange(50, 52)),
            glyph_data_format: i16::from_wire(bytes.subrange(52, 54)),
            reserved: u16::from_wire(bytes.subrange(54, 56)),
        }
    }

    proof fn lemma_wire_exact(bytes: Seq<u8>) {
        Fixed::lemma_wire_exact(bytes.subrange(0, 4));
        Fixed::lemma_wire_exact(bytes.subrange(4, 8));
        u32::lemma_wire_exact(bytes.subrange(8, 12));
        u32::lemma_wire_exact(bytes.subrange(12, 16));
        u16::lemma_wire_exact(bytes.subrange(16, 18));
        u16::lemma_wire_exact(bytes.subrange(18, 20));
        LongDateTime::lemma_wire_exact(bytes.subrange(20, 28));
        LongDateTime::lemma_wire_exact(bytes.subrange(28, 36));
        FWord::lemma_wire_exact(bytes.subrange(36, 38));
        FWord::lemma_wire_exact(bytes.subrange(38, 40));
        FWord::lemma_wire_exact(bytes.subrange(40, 42));
        FWord::lemma_wire_exact(bytes.subrange(42, 44));
        u16::lemma_wire_exact(bytes.subrange(44, 46));
        u16::lemma_wire_exact(bytes.subrange(46, 48));
        i16::lemma_wire_exact(bytes.subrange(48, 50));
        i16::lemma_wire_exact(bytes.subrange(50, 52));
        i16::lemma_wire_exact(bytes.subrange(52, 54));
        u16::lemma_wire_exact(bytes.subrange(54, 56));
        assert(Self::from_wire(bytes).wire() =~= bytes);
    }

    proof fn lemma_wire_round_trip(&self) {
        self.version.lemma_wire_round_trip();
        self.font_revision.lemma_wire_round_trip();
        self.check_sum_adjustement.lemma_wire_round_trip();
        self.magic_number.lemma_wire_round_trip();
        self.flags.lemma_wire_round_trip();
        self.units_per_em.lemma_wire_round_trip();
        self.created.lemma_wire_round_trip();
        self.modified.lemma_wire_round_trip();
        self.x_min.lemma_wire_round_trip();
        self.y_min.lemma_wire_round_trip();
        self.x_max.lemma_wire_round_trip();
        self.y_max.lemma_wire_round_trip();
        self.mac_style.lemma_wire_round_trip();
        self.lowest_rec_ppem.lemma_wire_round_trip();
        self.font_direction_hint.lemma_wire_round_trip();
        self.index_to_loc_format.lemma_wire_round_trip();
        self.glyph_data_format.lemma_wire_round_trip();
        self.reserved.lemma_wire_round_trip();
        assert(self.wire().subrange(0, 4) =~= self.version.wire());
        assert(self.wire().subrange(4, 8) =~= self.font_revision.wire());
        assert(self.wire().subrange(8, 12) =~= self.check_sum_adjustement.wire());
        assert(self.wire().subrange(12, 16) =~= self.magic_number.wire());
        assert(self.wire().subrange(16, 18) =~= self.flags.wire());
        assert(self.wire().subrange(18, 20) =~= self.units_per_em.wire());
        assert(self.wire().subrange(20, 28) =~= self.created.wire());
        assert(self.wire().subrange(28, 36) =~= self.modified.wire());
        assert(self.wire().subrange(36, 38) =~= self.x_min.wire());
        assert(self.wire().subrange(38, 40) =~= self.y_min.wire());
        assert(self.wire().subrange(40, 42) =~= self.x_max.wire());
        assert(self.wire().subrange(42, 44) =~= self.y_max.wire());
        assert(self.wire().subrange(44, 46) =~= self.mac_style.wire());
        assert(self.wire().subrange(46, 48) =~= self.lowest_rec_ppem.wire());
        assert(self.wire().subrange(48, 50) =~= self.font_direction_hint.wire());
        assert(self.wire().subrange(50, 52) =~= self.index_to_loc_format.wire());
        assert(self.wire().subrange(52, 54) =~= self.glyph_data_format.wire());
        assert(self.wire().subrange(54, 56) =~= self.reserved.wire());
    }

    fn size() -> (n: usize) {
        56
    }

    fn decode_from_slice(bytes: &[u8]) -> (v: Head) {
        Head {
            version: Fixed::decode_from_slice(slice_subrange(bytes, 0, 4)),
            font_revision: Fixed::decode_from_slice(slice_subrange(bytes, 4, 8)),
            check_sum_adjustement: u32::decode_from_slice(slice_subrange(bytes, 8, 12)),
            magic_number: u32::decode_from_slice(slice_subrange(bytes, 12, 16)),
            flags: u16::decode_from_slice(slice_subrange(bytes, 16, 18)),
            units_per_em: u16::decode_from_slice(slice_subrange(bytes, 18, 20)),
            created: LongDateTime::decode_from_slice(slice_subrange(bytes, 20, 28)),
            modified: LongDateTime::decode_from_slice(slice_subrange(bytes, 28, 36)),
            x_min: FWord::decode_from_slice(slice_subrange(bytes, 36, 38)),
            y_min: FWord::decode_from_slice(slice_subrange(bytes, 38, 40)),
            x_max: FWord::decode_from_slice(slice_subrange(bytes, 40, 42)),
            y_max: FWord::decode_from_slice(slice_subrange(bytes, 42, 44)),
            mac_style: u16::decode_from_slice(slice_subrange(bytes, 44, 46)),
            lowest_rec_ppem: u16::decode_from_slice(slice_subrange(bytes, 46, 48)),
            font_direction_hint: i16::decode_from_slice(slice_subrange(bytes, 48, 50)),
            index_to_loc_format: i16::decode_from_slice(slice_subrange(bytes, 50, 52)),
            glyph_data_format: i16::decode_from_slice(slice_subrange(bytes, 52, 54)),
            reserved: u16::decode_from_slice(slice_subrange(bytes, 54, 56)),
        }
    }
}

} // verus!
