//! The `loca` table: where each glyph starts in `glyf`.

use crate::error::{end_of_stream, Error};
use crate::table::tags::Tag;
use crate::table::{head_of, maxp_of, table_models, FontTable, FontTableModel, GetFontTable};
use crate::utils::codec::Encode;
use crate::utils::reader::{
    fits, holds, items_at, lemma_items_exact, lemma_items_held, ReadSeq, Stream,
};
use crate::utils::types::{concat_wire, Sequence};
use std::collections::BTreeMap;
use vstd::prelude::*;

verus! {

/// How the offsets are stored.
#[derive(Debug, Clone, Copy, PartialEq, Eq, Structural)]
pub enum LocaFormat {
    /// Each offset is stored halved, in 16 bits.
    Short,
    /// Each offset is stored as it is, in 32 bits.
    Long,
}

/// The byte offsets of the glyphs in `glyf`, one more than there are glyphs.
/// The offsets are kept in full, whatever the format they were stored in.
#[derive(Debug, Clone, PartialEq, Eq)]
pub struct Loca {
    pub offsets: Sequence<u32>,
    pub format: LocaFormat,
}

/// The mathematical value of a [`Loca`].
pub struct LocaModel {
    pub offsets: Seq<u32>,
    pub format: LocaFormat,
}

impl View for Loca {
    type V = LocaModel;

    open spec fn view(&self) -> LocaModel {
        LocaModel { offsets: self.offsets@, format: self.format }
    }
}

/// The format that the field `index_to_loc_format` of `head` stands for.
pub open spec fn format_of(index_to_loc_format: i16) -> LocaFormat {
    if index_to_loc_format == 0 {
        LocaFormat::Short
    } else {
        LocaFormat::Long
    }
}

/// The offset that the stored half `half` stands for.
pub open spec fn doubled(half: u16) -> u32 {
    (2 * half) as u32
}

/// The 16 bits that are stored for `offset` in the short format: its half,
/// cut down to the low 16 bits where it is too large.
pub open spec fn halved(offset: u32) -> u16 {
    (offset / 2 % 0x1_0000) as u16
}

/// Whether the offsets start at 0 and never fall.
pub open spec fn offsets_ordered(offsets: Seq<u32>) -> bool {
    &&& offsets.len() > 0 ==> offsets[0] == 0
    &&& forall|i: int, j: int| 0 <= i <= j < offsets.len() ==> offsets[i] <= offsets[j]
}

impl LocaModel {
    /// Whether the short format can store each offset: as an even number
    /// whose half fits in 16 bits. The long format stores any offset.
    pub open spec fn wf(self) -> bool {
        self.format == LocaFormat::Short ==> forall|i: int|
            0 <= i < self.offsets.len() ==> doubled(halved(#[trigger] self.offsets[i]))
                == self.offsets[i]
    }

    /// The bytes of the table in its format.
    pub open spec fn wire(self) -> Seq<u8> {
        match self.format {
            LocaFormat::Short => concat_wire(self.offsets.map_values(|o: u32| halved(o))),
            LocaFormat::Long => concat_wire(self.offsets),
        }
    }
}

/// What decoding the offsets of `num_glyphs` glyphs in the format `format`
/// at offset `at` gives.
pub open spec fn parse_loca(data: Seq<u8>, at: int, format: LocaFormat, num_glyphs: u16) -> Result<
    (LocaModel, int),
    Error,
> {
    let count = num_glyphs + 1;
    match format {
        LocaFormat::Short => if !fits(data, at, 2 * count) {
            Err(end_of_stream())
        } else {
            Ok(
                (
                    LocaModel {
                        offsets: items_at::<u16>(data, at, count).map_values(|h: u16| doubled(h)),
                        format,
                    },
                    at + 2 * count,
                ),
            )
        },
        LocaFormat::Long => if !fits(data, at, 4 * count) {
            Err(end_of_stream())
        } else {
            Ok((LocaModel { offsets: items_at::<u32>(data, at, count), format }, at + 4 * count))
        },
    }
}

/// What decoding `loca` at offset `at` gives, the format taken from `head`
/// and the number of glyphs from `maxp` among `tables`.
pub open spec fn parse_loca_with(tables: Map<Tag, FontTableModel>, data: Seq<u8>, at: int) -> Result<
    (LocaModel, int),
    Error,
> {
    match head_of(tables) {
        Err(e) => Err(e),
        Ok(head) => match maxp_of(tables) {
            Err(e) => Err(e),
            Ok(maxp) => parse_loca(data, at, format_of(head.index_to_loc_format), maxp.num_glyphs),
        },
    }
}

/// Offsets that are stored in order are decoded in order: where the stored
/// numbers start at 0 and never fall, so do the offsets they stand for.
pub proof fn lemma_loca_keeps_order(data: Seq<u8>, at: int, format: LocaFormat, num_glyphs: u16)
    requires
        parse_loca(data, at, format, num_glyphs) is Ok,
        format == LocaFormat::Short ==> {
            let stored = items_at::<u16>(data, at, num_glyphs + 1);
            &&& stored[0] == 0
            &&& forall|i: int, j: int| 0 <= i <= j < stored.len() ==> stored[i] <= stored[j]
        },
        format == LocaFormat::Long ==> offsets_ordered(items_at::<u32>(data, at, num_glyphs + 1)),
    ensures
        offsets_ordered(parse_loca(data, at, format, num_glyphs)->Ok_0.0.offsets),
{
}

/// What the short format stores and gives back is well formed, as is
/// anything in the long format.
pub proof fn lemma_parse_loca_wf(data: Seq<u8>, at: int, format: LocaFormat, num_glyphs: u16)
    ensures
        parse_loca(data, at, format, num_glyphs) matches Ok((loca, _)) ==> loca.wf()
            && loca.offsets.len() == num_glyphs + 1 && loca.format == format,
{
}

/// Decoding the bytes of a well-formed table in its own format gives the
/// table back.
pub proof fn lemma_loca_round_trip(data: Seq<u8>, at: int, table: LocaModel, num_glyphs: u16)
    requires
        table.wf(),
        table.offsets.len() == num_glyphs + 1,
        holds(data, at, table.wire()),
    ensures
        parse_loca(data, at, table.format, num_glyphs) == Ok::<(LocaModel, int), Error>(
            (table, at + table.wire().len()),
        ),
{
    match table.format {
        LocaFormat::Short => {
            let halves = table.offsets.map_values(|o: u32| halved(o));
            lemma_items_held::<u16>(data, at, halves);
            assert(halves.map_values(|h: u16| doubled(h)) =~= table.offsets);
        },
        LocaFormat::Long => {
            lemma_items_held::<u32>(data, at, table.offsets);
        },
    }
}

/// What was decoded is what the bytes hold: where the table was decoded,
/// `data` holds its wire form, and the table ends where the wire form ends.
pub proof fn lemma_loca_exact(data: Seq<u8>, at: int, format: LocaFormat, num_glyphs: u16)
    requires
        0 <= at,
    ensures
        parse_loca(data, at, format, num_glyphs) matches Ok((table, end)) ==> holds(
            data,
            at,
            table.wire(),
        ) && end == at + table.wire().len(),
{
    if let Ok((table, end)) = parse_loca(data, at, format, num_glyphs) {
        match format {
            LocaFormat::Short => {
                let stored = items_at::<u16>(data, at, num_glyphs + 1);
                lemma_items_exact::<u16>(data, at, num_glyphs + 1);
                assert(table.offsets.map_values(|o: u32| halved(o)) =~= stored);
            },
            LocaFormat::Long => {
                lemma_items_exact::<u32>(data, at, num_glyphs + 1);
            },
        }
    }
}

impl Loca {
    /// Decodes the table at the cursor, in the format that `head` among
    /// `tables` names and for the number of glyphs that `maxp` gives.
    pub fn try_from_params(tables: &BTreeMap<Tag, FontTable>, stream: &mut Stream<'_>) -> (r: Result<
        Self,
        Error,
    >)
        ensures
            final(stream).bytes() == old(stream).bytes(),
            match r {
                Ok(v) => parse_loca_with(
                    table_models(tables@),
                    old(stream).bytes(),
                    old(stream).cursor(),
                ) == Ok::<(LocaModel, int), Error>((v@, final(stream).cursor())) && v@.wf(),
                Err(e) => parse_loca_with(
                    table_models(tables@),
                    old(stream).bytes(),
                    old(stream).cursor(),
                ) == Err::<(LocaModel, int), Error>(e),
            },
    {
        proof {
            stream.lemma_cursor_range();
        }
        let loc_format: i16 = tables.head()?.index_to_loc_format;
        let num_glyphs: u16 = tables.maxp()?.num_glyphs;
        let length: usize = num_glyphs as usize + 1;
        if loc_format == 0 {
            let halves: Sequence<u16> = stream.read_seq(length)?;
            let mut offsets: Vec<u32> = Vec::new();
            let mut i: usize = 0;
            while i < halves.len()
                invariant
                    i <= halves@.len(),
                    offsets@ == halves@.take(i as int).map_values(|h: u16| doubled(h)),
                decreases halves@.len() - i,
            {
                offsets.push(halves.as_slice()[i] as u32 * 2);
                i = i + 1;
                assert(offsets@ =~= halves@.take(i as int).map_values(|h: u16| doubled(h)));
            }
            assert(halves@.take(i as int) =~= halves@);
            Ok(Loca { offsets: Sequence(offsets), format: LocaFormat::Short })
        } else {
            let offsets: Sequence<u32> = stream.read_seq(length)?;
            Ok(Loca { offsets, format: LocaFormat::Long })
        }
    }

    /// Whether the offsets start at 0 and never fall.
    pub fn is_ordered(&self) -> (r: bool)
        ensures
            r == offsets_ordered(self@.offsets),
    {
        let offsets: &[u32] = self.offsets.as_slice();
        if offsets.len() == 0 {
            return true;
        }
        if offsets[0] != 0 {
            return false;
        }
        let mut i: usize = 1;
        while i < offsets.len()
            invariant
                1 <= i <= offsets@.len(),
                offsets@ == self@.offsets,
                offsets@[0] == 0,
                forall|a: int, b: int| 0 <= a <= b < i ==> offsets@[a] <= offsets@[b],
            decreases offsets@.len() - i,
        {
            if offsets[i - 1] > offsets[i] {
                return false;
            }
            i = i + 1;
        }
        true
    }
}

impl Encode for Loca {
    open spec fn wire(&self) -> Seq<u8> {
        self@.wire()
    }

    fn encode(&self, out: &mut Vec<u8>) {
        match self.format {
            LocaFormat::Short => {
                let ghost halves = self@.offsets.map_values(|o: u32| halved(o));
                let mut i: usize = 0;
                while i < self.offsets.len()
                    invariant
                        i <= self@.offsets.len(),
                        halves == self@.offsets.map_values(|o: u32| halved(o)),
                        out@ == old(out)@ + concat_wire(halves.take(i as int)),
                    decreases self@.offsets.len() - i,
                {
                    let half: u16 = (self.offsets.as_slice()[i] / 2 % 0x1_0000) as u16;
                    half.encode(out);
                    proof {
                        let next = halves.take(i + 1);
                        assert(next.drop_last() =~= halves.take(i as int));
                        assert(next.last() == half);
                        assert(out@ =~= old(out)@ + concat_wire(next));
                    }
                    i = i + 1;
                }
                assert(halves.take(i as int) =~= halves);
            },
            LocaFormat::Long => self.offsets.encode(out),
        }
    }
}

} // verus!
