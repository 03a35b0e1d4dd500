//! Character-map subtable format 4: segments with deltas.

use crate::error::{end_of_stream, DecodeError, Error};
use crate::utils::codec::{value_at, Encode};
use crate::utils::reader::{
    fits, holds, items_at, lemma_holds_join, lemma_holds_split, lemma_items_exact,
    lemma_items_held, lemma_value_exact, lemma_value_held, ReadSeq, Stream, TryFromStream,
};
use crate::utils::types::{concat_wire, Sequence};
use vstd::prelude::*;

verus! {

/// Maps segments of character codes to glyphs. The four segment arrays run in
/// parallel; the glyph indices fill what the declared length leaves.
#[derive(Debug, Clone, PartialEq, Eq)]
pub struct Format4 {
    pub format: u16,
    /// The length of the whole subtable in bytes, the format field included.
    pub length: u16,
    pub language: u16,
    /// Twice the number of segments.
    pub seg_count_x2: u16,
    pub search_range: u16,
    pub entry_selector: u16,
    pub range_shift: u16,
    pub end_code: Sequence<u16>,
    /// The two bytes between the end codes and the start codes; kept as read.
    pub reserved: u16,
    pub start_code: Sequence<u16>,
    pub id_delta: Sequence<u16>,
    pub id_range_offset: Sequence<u16>,
    pub glyph_index_array: Sequence<u16>,
}

/// The mathematical value of a [`Format4`].
pub struct Format4Model {
    pub format: u16,
    pub length: u16,
    pub language: u16,
    pub seg_count_x2: u16,
    pub search_range: u16,
    pub entry_selector: u16,
    pub range_shift: u16,
    pub end_code: Seq<u16>,
    pub reserved: u16,
    pub start_code: Seq<u16>,
    pub id_delta: Seq<u16>,
    pub id_range_offset: Seq<u16>,
    pub glyph_index_array: Seq<u16>,
}

impl View for Format4 {
    type V = Format4Model;

    open spec fn view(&self) -> Format4Model {
        Format4Model {
            format: self.format,
            length: self.length,
            language: self.language,
            seg_count_x2: self.seg_count_x2,
            search_range: self.search_range,
            entry_selector: self.entry_selector,
            range_shift: self.range_shift,
            end_code: self.end_code@,
            reserved: self.reserved,
            start_code: self.start_code@,
            id_delta: self.id_delta@,
            id_range_offset: self.id_range_offset@,
            glyph_index_array: self.glyph_index_array@,
        }
    }
}

/// The bytes of a format 4 subtable with `seg_count` segments that come
/// before its glyph indices, the format field included.
pub open spec fn segments_size(seg_count: int) -> int {
    16 + 8 * seg_count
}

impl Format4Model {
    /// The number of segments.
    pub open spec fn seg_count(self) -> int {
        self.seg_count_x2 as int / 2
    }

    /// The subtable is of format 4, its segment arrays have one item for each
    /// segment, and its glyph indices fill what its length leaves.
    pub open spec fn wf(self) -> bool {
        &&& self.format == 4
        &&& self.end_code.len() == self.seg_count()
        &&& self.start_code.len() == self.seg_count()
        &&& self.id_delta.len() == self.seg_count()
        &&& self.id_range_offset.len() == self.seg_count()
        &&& self.length >= segments_size(self.seg_count())
        &&& self.glyph_index_array.len() == (self.length - segments_size(self.seg_count())) / 2
    }

    /// The bytes of the subtable, the format field first.
    pub open spec fn wire(self) -> Seq<u8> {
        self.format.wire() + self.length.wire() + self.language.wire() + self.seg_count_x2.wire()
            + self.search_range.wire() + self.entry_selector.wire() + self.range_shift.wire()
            + concat_wire(self.end_code) + self.reserved.wire() + concat_wire(self.start_code)
            + concat_wire(self.id_delta) + concat_wire(self.id_range_offset) + concat_wire(
            self.glyph_index_array,
        )
    }
}

/// The subtable whose format field ends at offset `at`.
///
/// A declared length that is smaller than the bytes in front of the glyph
/// indices is an error.
pub open spec fn parse_format_4(data: Seq<u8>, at: int) -> Result<(Format4Model, int), Error> {
    if !fits(data, at, 12) {
        Err(end_of_stream())
    } else {
        let length = value_at::<u16>(data, at);
        let seg_count_x2 = value_at::<u16>(data, at + 4);
        let n = seg_count_x2 as int / 2;
        let glyphs_at = at - 2 + segments_size(n);
        if !fits(data, at + 12, 2 + 8 * n) {
            Err(end_of_stream())
        } else if length < segments_size(n) {
            Err(Error::DecodeError(DecodeError::InvalidLength))
        } else {
            let glyph_count = (length - segments_size(n)) / 2;
            if !fits(data, glyphs_at, 2 * glyph_count) {
                Err(end_of_stream())
            } else {
                Ok(
                    (
                        Format4Model {
                            format: 4,
                            length,
                            language: value_at::<u16>(data, at + 2),
                            seg_count_x2,
                            search_range: value_at::<u16>(data, at + 6),
                            entry_selector: value_at::<u16>(data, at + 8),
                            range_shift: value_at::<u16>(data, at + 10),
                            end_code: items_at::<u16>(data, at + 12, n),
                            reserved: value_at::<u16>(data, at + 12 + 2 * n),
                            start_code: items_at::<u16>(data, at + 14 + 2 * n, n),
                            id_delta: items_at::<u16>(data, at + 14 + 4 * n, n),
                            id_range_offset: items_at::<u16>(data, at + 14 + 6 * n, n),
                            glyph_index_array: items_at::<u16>(data, glyphs_at, glyph_count),
                        },
                        glyphs_at + 2 * glyph_count,
                    ),
                )
            }
        }
    }
}

/// Decoding the bytes of a well-formed subtable gives the subtable back:
/// where `data` holds the wire form of `table` at `at`, the subtable behind
/// the format field is `table`, and it ends where the wire form ends.
pub proof fn lemma_format_4_round_trip(data: Seq<u8>, at: int, table: Format4Model)
    requires
        table.wf(),
        holds(data, at, table.wire()),
    ensures
        fits(data, at, 2),
        value_at::<u16>(data, at) == table.format,
        parse_format_4(data, at + 2) == Ok::<(Format4Model, int), Error>(
            (table, at + table.wire().len()),
        ),
{
    let b0 = table.format.wire();
    let b1 = b0 + table.length.wire();
    let b2 = b1 + table.language.wire();
    let b3 = b2 + table.seg_count_x2.wire();
    let b4 = b3 + table.search_range.wire();
    let b5 = b4 + table.entry_selector.wire();
    let b6 = b5 + table.range_shift.wire();
    let b7 = b6 + concat_wire(table.end_code);
    let b8 = b7 + table.reserved.wire();
    let b9 = b8 + concat_wire(table.start_code);
    let b10 = b9 + concat_wire(table.id_delta);
    let b11 = b10 + concat_wire(table.id_range_offset);
    lemma_holds_split(data, at, b11, concat_wire(table.glyph_index_array));
    lemma_holds_split(data, at, b10, concat_wire(table.id_range_offset));
    lemma_holds_split(data, at, b9, concat_wire(table.id_delta));
    lemma_holds_split(data, at, b8, concat_wire(table.start_code));
    lemma_holds_split(data, at, b7, table.reserved.wire());
    lemma_holds_split(data, at, b6, concat_wire(table.end_code));
    lemma_holds_split(data, at, b5, table.range_shift.wire());
    lemma_holds_split(data, at, b4, table.entry_selector.wire());
    lemma_holds_split(data, at, b3, table.search_range.wire());
    lemma_holds_split(data, at, b2, table.seg_count_x2.wire());
    lemma_holds_split(data, at, b1, table.language.wire());
    lemma_holds_split(data, at, b0, table.length.wire());
    lemma_value_held::<u16>(data, at, table.format);
    lemma_value_held::<u16>(data, at + b0.len(), table.length);
    lemma_value_held::<u16>(data, at + b1.len(), table.language);
    lemma_value_held::<u16>(data, at + b2.len(), table.seg_count_x2);
    lemma_value_held::<u16>(data, at + b3.len(), table.search_range);
    lemma_value_held::<u16>(data, at + b4.len(), table.entry_selector);
    lemma_value_held::<u16>(data, at + b5.len(), table.range_shift);
    lemma_items_held::<u16>(data, at + b6.len(), table.end_code);
    lemma_value_held::<u16>(data, at + b7.len(), table.reserved);
    lemma_items_held::<u16>(data, at + b8.len(), table.start_code);
    lemma_items_held::<u16>(data, at + b9.len(), table.id_delta);
    lemma_items_held::<u16>(data, at + b10.len(), table.id_range_offset);
    lemma_items_held::<u16>(data, at + b11.len(), table.glyph_index_array);
}

/// What was decoded is what the bytes hold: where a subtable of format 4
/// was decoded behind its format field, `data` holds its wire form from the
/// format field on, and the subtable ends where the wire form ends.
pub proof fn lemma_format_4_exact(data: Seq<u8>, at: int)
    requires
        0 <= at,
        fits(data, at, 2),
        value_at::<u16>(data, at) == 4,
    ensures
        parse_format_4(data, at + 2) matches Ok((table, end)) ==> holds(data, at, table.wire())
            && end == at + table.wire().len() && table.wf(),
{
    if let Ok((table, end)) = parse_format_4(data, at + 2) {
        let n = table.seg_count();
        lemma_value_exact::<u16>(data, at);
        lemma_value_exact::<u16>(data, at + 2);
        lemma_value_exact::<u16>(data, at + 4);
        lemma_value_exact::<u16>(data, at + 6);
        lemma_value_exact::<u16>(data, at + 8);
        lemma_value_exact::<u16>(data, at + 10);
        lemma_value_exact::<u16>(data, at + 12);
        lemma_items_exact::<u16>(data, at + 14, n);
        lemma_value_exact::<u16>(data, at + 14 + 2 * n);
        lemma_items_exact::<u16>(data, at + 16 + 2 * n, n);
        lemma_items_exact::<u16>(data, at + 16 + 4 * n, n);
        lemma_items_exact::<u16>(data, at + 16 + 6 * n, n);
        lemma_items_exact::<u16>(data, at + 16 + 8 * n, table.glyph_index_array.len() as int);
        let b0 = table.format.wire();
        lemma_holds_join(data, at, b0, table.length.wire());
        let b1 = b0 + table.length.wire();
        lemma_holds_join(data, at, b1, table.language.wire());
        let b2 = b1 + table.language.wire();
        lemma_holds_join(data, at, b2, table.seg_count_x2.wire());
        let b3 = b2 + table.seg_count_x2.wire();
        lemma_holds_join(data, at, b3, table.search_range.wire());
        let b4 = b3 + table.search_range.wire();
        lemma_holds_join(data, at, b4, table.entry_selector.wire());
        let b5 = b4 + table.entry_selector.wire();
        lemma_holds_join(data, at, b5, table.range_shift.wire());
        let b6 = b5 + table.range_shift.wire();
        lemma_holds_join(data, at, b6, concat_wire(table.end_code));
        let b7 = b6 + concat_wire(table.end_code);
        lemma_holds_join(data, at, b7, table.reserved.wire());
        let b8 = b7 + table.reserved.wire();
        lemma_holds_join(data, at, b8, concat_wire(table.start_code));
        let b9 = b8 + concat_wire(table.start_code);
        lemma_holds_join(data, at, b9, concat_wire(table.id_delta));
        let b10 = b9 + concat_wire(table.id_delta);
        lemma_holds_join(data, at, b10, concat_wire(table.id_range_offset));
        let b11 = b10 + concat_wire(table.id_range_offset);
        lemma_holds_join(data, at, b11, concat_wire(table.glyph_index_array));
    }
}

impl TryFromStream for Format4 {
    type Model = Format4Model;

    open spec fn model(&self) -> Format4Model {
        self@
    }

    open spec fn parse(data: Seq<u8>, at: int) -> Result<(Format4Model, int), Error> {
        parse_format_4(data, at)
    }

    fn try_from_stream(stream: &mut Stream<'_>) -> (r: Result<Self, Error>)
        ensures
            r matches Ok(v) ==> v@.wf(),
    {
        proof {
            stream.lemma_cursor_range();
        }
        let length: u16 = u16::try_from_stream(stream)?;
        let language: u16 = u16::try_from_stream(stream)?;
        let seg_count_x2: u16 = u16::try_from_stream(stream)?;
        let search_range: u16 = u16::try_from_stream(stream)?;
        let entry_selector: u16 = u16::try_from_stream(stream)?;
        let range_shift: u16 = u16::try_from_stream(stream)?;
        let seg_count: usize = (seg_count_x2 / 2) as usize;
        let end_code: Sequence<u16> = stream.read_seq(seg_count)?;
        let reserved: u16 = u16::try_from_stream(stream)?;
        let start_code: Sequence<u16> = stream.read_seq(seg_count)?;
        let id_delta: Sequence<u16> = stream.read_seq(seg_count)?;
        let id_range_offset: Sequence<u16> = stream.read_seq(seg_count)?;
        let consumed: usize = 16 + 8 * seg_count;
        if (length as usize) < consumed {
            return Err(Error::DecodeError(DecodeError::InvalidLength));
        }
        let glyph_count: usize = (length as usize - consumed) / 2;
        let glyph_index_array: Sequence<u16> = stream.read_seq(glyph_count)?;
        Ok(
            Format4 {
                format: 4,
                length,
                language,
                seg_count_x2,
                search_range,
                entry_selector,
                range_shift,
                end_code,
                reserved,
                start_code,
                id_delta,
                id_range_offset,
                glyph_index_array,
            },
        )
    }
}

impl Encode for Format4 {
    open spec fn wire(&self) -> Seq<u8> {
        self@.wire()
    }

    fn encode(&self, out: &mut Vec<u8>) {
        self.format.encode(out);
        self.length.encode(out);
        self.language.encode(out);
        self.seg_count_x2.encode(out);
        self.search_range.encode(out);
        self.entry_selector.encode(out);
        self.range_shift.encode(out);
        self.end_code.encode(out);
        self.reserved.encode(out);
        self.start_code.encode(out);
        self.id_delta.encode(out);
        self.id_range_offset.encode(out);
        self.glyph_index_array.encode(out);
        assert(out@ =~= old(out)@ + self.wire());
    }
}

} // verus!
