//! The `hmtx` table: horizontal metrics of the glyphs.

use crate::error::{end_of_stream, DecodeError, Error};
use crate::sfnt::types::FWord;
use crate::table::tags::Tag;
use crate::table::{hhea_of, maxp_of, table_models, FontTable, FontTableModel, GetFontTable};
use crate::utils::codec::{Decode, Encode};
use crate::utils::reader::{
    fits, holds, items_at, lemma_holds_join, lemma_holds_split, lemma_items_exact,
    lemma_items_held, ReadSeq, Stream,
};
use crate::utils::types::{concat_wire, Sequence};
use std::collections::BTreeMap;
use vstd::prelude::*;
use vstd::slice::slice_subrange;

verus! {

/// The horizontal metrics: full metrics for the first glyphs, and only the
/// left side bearing for the rest, which share the last advance width.
#[derive(Debug, Clone, PartialEq, Eq)]
pub struct Hmtx {
    pub h_metrics: Sequence<LongHorMetric>,
    pub left_side_bearing: Sequence<FWord>,
}

/// The mathematical value of an [`Hmtx`].
pub struct HmtxModel {
    pub h_metrics: Seq<LongHorMetric>,
    pub left_side_bearing: Seq<FWord>,
}

impl View for Hmtx {
    type V = HmtxModel;

    open spec fn view(&self) -> HmtxModel {
        HmtxModel { h_metrics: self.h_metrics@, left_side_bearing: self.left_side_bearing@ }
    }
}

impl HmtxModel {
    /// The bytes of the table: the full metrics, then the bearings.
    pub open spec fn wire(self) -> Seq<u8> {
        concat_wire(self.h_metrics) + concat_wire(self.left_side_bearing)
    }
}

/// What decoding the metrics of `num_glyphs` glyphs, `num_long` of them with
/// an advance width, at offset `at` gives. More full metrics than glyphs are
/// an error, whatever the stream holds.
pub open spec fn parse_hmtx(data: Seq<u8>, at: int, num_glyphs: u16, num_long: u16) -> Result<
    (HmtxModel, int),
    Error,
> {
    let rest = num_glyphs - num_long;
    if num_long > num_glyphs {
        Err(Error::DecodeError(DecodeError::InvalidLength))
    } else if !fits(data, at, 4 * num_long) {
        Err(end_of_stream())
    } else if !fits(data, at + 4 * num_long, 2 * rest) {
        Err(end_of_stream())
    } else {
        Ok(
            (
                HmtxModel {
                    h_metrics: items_at::<LongHorMetric>(data, at, num_long as int),
                    left_side_bearing: items_at::<FWord>(data, at + 4 * num_long, rest),
                },
                at + 4 * num_long + 2 * rest,
            ),
        )
    }
}

/// What decoding `hmtx` at offset `at` gives, the number of glyphs taken from
/// `maxp` and the number of full metrics from `hhea` among `tables`.
pub open spec fn parse_hmtx_with(tables: Map<Tag, FontTableModel>, data: Seq<u8>, at: int) -> Result<
    (HmtxModel, int),
    Error,
> {
    match maxp_of(tables) {
        Err(e) => Err(e),
        Ok(maxp) => match hhea_of(tables) {
            Err(e) => Err(e),
            Ok(hhea) => parse_hmtx(data, at, maxp.num_glyphs, hhea.num_of_long_hor_metrics),
        },
    }
}

/// Decoding the bytes of a table gives the table back, where it has as many
/// full metrics and bearings as the counts say.
pub proof fn lemma_hmtx_round_trip(
    data: Seq<u8>,
    at: int,
    table: HmtxModel,
    num_glyphs: u16,
    num_long: u16,
)
    requires
        num_long <= num_glyphs,
        table.h_metrics.len() == num_long,
        table.left_side_bearing.len() == num_glyphs - num_long,
        holds(data, at, table.wire()),
    ensures
        parse_hmtx(data, at, num_glyphs, num_long) == Ok::<(HmtxModel, int), Error>(
            (table, at + table.wire().len()),
        ),
{
    let b0 = concat_wire(table.h_metrics);
    lemma_holds_split(data, at, b0, concat_wire(table.left_side_bearing));
    lemma_items_held::<LongHorMetric>(data, at, table.h_metrics);
    lemma_items_held::<FWord>(data, at + b0.len(), table.left_side_bearing);
}

/// What was decoded is what the bytes hold: where the table was decoded,
/// `data` holds its wire form, and the table ends where the wire form ends.
pub proof fn lemma_hmtx_exact(data: Seq<u8>, at: int, num_glyphs: u16, num_long: u16)
    requires
        0 <= at,
    ensures
        parse_hmtx(data, at, num_glyphs, num_long) matches Ok((table, end)) ==> holds(
            data,
            at,
            table.wire(),
        ) && end == at + table.wire().len(),
{
    if let Ok((table, end)) = parse_hmtx(data, at, num_glyphs, num_long) {
        lemma_items_exact::<LongHorMetric>(data, at, num_long as int);
        lemma_items_exact::<FWord>(data, at + 4 * num_long, num_glyphs - num_long);
        lemma_holds_join(
            data,
            at,
            concat_wire(table.h_metrics),
            concat_wire(table.left_side_bearing),
        );
    }
}

impl Hmtx {
    /// Decodes the table at the cursor, with the counts that `maxp` and
    /// `hhea` among `tables` give. On success there are no more full metrics
    /// than glyphs, and one entry for each glyph.
    pub fn try_from_params(tables: &BTreeMap<Tag, FontTable>, stream: &mut Stream<'_>) -> (r: Result<
        Self,
        Error,
    >)
        ensures
            final(stream).bytes() == old(stream).bytes(),
            match r {
                Ok(v) => parse_hmtx_with(
                    table_models(tables@),
                    old(stream).bytes(),
                    old(stream).cursor(),
                ) == Ok::<(HmtxModel, int), Error>((v@, final(stream).cursor())),
                Err(e) => parse_hmtx_with(
                    table_models(tables@),
                    old(stream).bytes(),
                    old(stream).cursor(),
                ) == Err::<(HmtxModel, int), Error>(e),
            },
            r matches Ok(v) ==> (maxp_of(table_models(tables@)) matches Ok(maxp) && hhea_of(
                table_models(tables@),
            ) matches Ok(hhea) && hhea.num_of_long_hor_metrics <= maxp.num_glyphs
                && v@.h_metrics.len() == hhea.num_of_long_hor_metrics && v@.h_metrics.len()
                + v@.left_side_bearing.len() == maxp.num_glyphs),
    {
        proof {
            stream.lemma_cursor_range();
        }
        let num_glyphs: u16 = tables.maxp()?.num_glyphs;
        let num_long: u16 = tables.hhea()?.num_of_long_hor_metrics;
        if num_long > num_glyphs {
            return Err(Error::DecodeError(DecodeError::InvalidLength));
        }
        let h_metrics: Sequence<LongHorMetric> = stream.read_seq(num_long as usize)?;
        let left_side_bearing: Sequence<FWord> = stream.read_seq((num_glyphs - num_long) as usize)?;
        Ok(Hmtx { h_metrics, left_side_bearing })
    }
}

impl Encode for Hmtx {
    open spec fn wire(&self) -> Seq<u8> {
        self@.wire()
    }

    fn encode(&self, out: &mut Vec<u8>) {
        self.h_metrics.encode(out);
        self.left_side_bearing.encode(out);
        assert(out@ =~= old(out)@ + self.wire());
    }
}

/// The advance width and the left side bearing of one glyph.
#[derive(Debug, Clone, Copy, PartialEq, Eq)]
pub struct LongHorMetric {
    pub advance_width: u16,
    pub left_side_bearing: i16,
}

impl Encode for LongHorMetric {
    open spec fn wire(&self) -> Seq<u8> {
        self.advance_width.wire()
            + self.left_side_bearing.wire()
    }

    fn encode(&self, out: &mut Vec<u8>) {
        self.advance_width.encode(out);
        self.left_side_bearing.encode(out);
        assert(out@ =~= old(out)@ + self.wire());
    }
}

impl Decode for LongHorMetric {
    open spec fn wire_size() -> nat {
        4
    }

    open spec fn from_wire(bytes: Seq<u8>) -> LongHorMetric {
        LongHorMetric {
            advance_width: u16::from_wire(bytes.subrange(0, 2)),
            left_side_bearing: i16::from_wire(bytes.subrange(2, 4)),
        }
    }

    proof fn lemma_wire_exact(bytes: Seq<u8>) {
        u16::lemma_wire_exact(bytes.subrange(0, 2));
        i16::lemma_wire_exact(bytes.subrange(2, 4));
        assert(Self::from_wire(bytes).wire() =~= bytes);
    }

    proof fn lemma_wire_round_trip(&self) {
        self.advance_width.lemma_wire_round_trip();
        self.left_side_bearing.lemma_wire_round_trip();
        assert(self.wire().subrange(0, 2) =~= self.advance_width.wire());
        assert(self.wire().subrange(2, 4) =~= self.left_side_bearing.wire());
    }

    fn size() -> (n: usize) {
        4
    }

    fn decode_from_slice(bytes: &[u8]) -> (v: LongHorMetric) {
        LongHorMetric {
            advance_width: u16::decode_from_slice(slice_subrange(bytes, 0, 2)),
            left_side_bearing: i16::decode_from_slice(slice_subrange(bytes, 2, 4)),
        }
    }
}

} // verus!
