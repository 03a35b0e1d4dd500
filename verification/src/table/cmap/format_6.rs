//! Character-map subtable format 6: a trimmed table.

use crate::error::{end_of_stream, Error};
use crate::utils::codec::{value_at, Encode};
use crate::utils::reader::{
    fits, holds, items_at, lemma_holds_join, lemma_holds_split, lemma_items_exact,
    lemma_items_held, lemma_value_exact, lemma_value_held, ReadSeq, Stream, TryFromStream,
};
use crate::utils::types::{concat_wire, Sequence};
use vstd::prelude::*;

verus! {

/// Maps the codes `first_code .. first_code + entry_count` to glyph indices.
#[derive(Debug, Clone, PartialEq, Eq)]
pub struct Format6 {
    pub format: u16,
    pub length: u16,
    pub language: u16,
    pub first_code: u16,
    pub entry_count: u16,
    pub glyph_index_array: Sequence<u16>,
}

/// The mathematical value of a [`Format6`].
pub struct Format6Model {
    pub format: u16,
    pub length: u16,
    pub language: u16,
    pub first_code: u16,
    pub entry_count: u16,
    pub glyph_index_array: Seq<u16>,
}

impl View for Format6 {
    type V = Format6Model;

    open spec fn view(&self) -> Format6Model {
        Format6Model {
            format: self.format,
            length: self.length,
            language: self.language,
            first_code: self.first_code,
            entry_count: self.entry_count,
            glyph_index_array: self.glyph_index_array@,
        }
    }
}

impl Format6Model {
    /// The subtable is of format 6 and holds as many glyph indices as it says.
    pub open spec fn wf(self) -> bool {
        &&& self.format == 6
        &&& self.glyph_index_array.len() == self.entry_count
    }

    /// The bytes of the subtable, the format field first.
    pub open spec fn wire(self) -> Seq<u8> {
        self.format.wire() + self.length.wire() + self.language.wire() + self.first_code.wire()
            + self.entry_count.wire() + concat_wire(self.glyph_index_array)
    }
}

/// The subtable whose format field ends at offset `at`.
pub open spec fn parse_format_6(data: Seq<u8>, at: int) -> Result<(Format6Model, int), Error> {
    if !fits(data, at, 8) {
        Err(end_of_stream())
    } else {
        let entry_count = value_at::<u16>(data, at + 6);
        if !fits(data, at + 8, 2 * entry_count) {
            Err(end_of_stream())
        } else {
            Ok(
                (
                    Format6Model {
                        format: 6,
                        length: value_at::<u16>(data, at),
                        language: value_at::<u16>(data, at + 2),
                        first_code: value_at::<u16>(data, at + 4),
                        entry_count,
                        glyph_index_array: items_at::<u16>(data, at + 8, entry_count as int),
                    },
                    at + 8 + 2 * entry_count,
                ),
            )
        }
    }
}

/// Decoding the bytes of a well-formed subtable gives the subtable back:
/// where `data` holds the wire form of `table` at `at`, the subtable behind
/// the format field is `table`, and it ends where the wire form ends.
pub proof fn lemma_format_6_round_trip(data: Seq<u8>, at: int, table: Format6Model)
    requires
        table.wf(),
        holds(data, at, table.wire()),
    ensures
        fits(data, at, 2),
        value_at::<u16>(data, at) == table.format,
        parse_format_6(data, at + 2) == Ok::<(Format6Model, int), Error>(
            (table, at + table.wire().len()),
        ),
{
    let b0 = table.format.wire();
    let b1 = b0 + table.length.wire();
    let b2 = b1 + table.language.wire();
    let b3 = b2 + table.first_code.wire();
    let b4 = b3 + table.entry_count.wire();
    lemma_holds_split(data, at, b4, concat_wire(table.glyph_index_array));
    lemma_holds_split(data, at, b3, table.entry_count.wire());
    lemma_holds_split(data, at, b2, table.first_code.wire());
    lemma_holds_split(data, at, b1, table.language.wire());
    lemma_holds_split(data, at, b0, table.length.wire());
    lemma_value_held::<u16>(data, at, table.format);
    lemma_value_held::<u16>(data, at + b0.len(), table.length);
    lemma_value_held::<u16>(data, at + b1.len(), table.language);
    lemma_value_held::<u16>(data, at + b2.len(), table.first_code);
    lemma_value_held::<u16>(data, at + b3.len(), table.entry_count);
    lemma_items_held::<u16>(data, at + b4.len(), table.glyph_index_array);
}

/// What was decoded is what the bytes hold: where a subtable of format 6
/// was decoded behind its format field, `data` holds its wire form from the
/// format field on, and the subtable ends where the wire form ends.
pub proof fn lemma_format_6_exact(data: Seq<u8>, at: int)
    requires
        0 <= at,
        fits(data, at, 2),
        value_at::<u16>(data, at) == 6,
    ensures
        parse_format_6(data, at + 2) matches Ok((table, end)) ==> holds(data, at, table.wire())
            && end == at + table.wire().len() && table.wf(),
{
    if let Ok((table, end)) = parse_format_6(data, at + 2) {
        lemma_value_exact::<u16>(data, at);
        lemma_value_exact::<u16>(data, at + 2);
        lemma_value_exact::<u16>(data, at + 4);
        lemma_value_exact::<u16>(data, at + 6);
        lemma_value_exact::<u16>(data, at + 8);
        lemma_items_exact::<u16>(data, at + 10, table.entry_count as int);
        let b0 = table.format.wire();
        lemma_holds_join(data, at, b0, table.length.wire());
        let b1 = b0 + table.length.wire();
        lemma_holds_join(data, at, b1, table.language.wire());
        let b2 = b1 + table.language.wire();
        lemma_holds_join(data, at, b2, table.first_code.wire());
        let b3 = b2 + table.first_code.wire();
        lemma_holds_join(data, at, b3, table.entry_count.wire());
        let b4 = b3 + table.entry_count.wire();
        lemma_holds_join(data, at, b4, concat_wire(table.glyph_index_array));
    }
}

impl TryFromStream for Format6 {
    type Model = Format6Model;

    open spec fn model(&self) -> Format6Model {
        self@
    }

    open spec fn parse(data: Seq<u8>, at: int) -> Result<(Format6Model, int), Error> {
        parse_format_6(data, at)
    }

    fn try_from_stream(stream: &mut Stream<'_>) -> (r: Result<Self, Error>)
        ensures
            r matches Ok(v) ==> v@.wf(),
    {
        proof {
            stream.lemma_cursor_range();
        }
        let length: u16 = u16::try_from_stream(stream)?;
        let language: u16 = u16::try_from_stream(stream)?;
        let first_code: u16 = u16::try_from_stream(stream)?;
        let entry_count: u16 = u16::try_from_stream(stream)?;
        let glyph_index_array: Sequence<u16> = stream.read_seq(entry_count as usize)?;
        Ok(Format6 { format: 6, length, language, first_code, entry_count, glyph_index_array })
    }
}

impl Encode for Format6 {
    open spec fn wire(&self) -> Seq<u8> {
        self@.wire()
    }

    fn encode(&self, out: &mut Vec<u8>) {
        self.format.encode(out);
        self.length.encode(out);
        self.language.encode(out);
        self.first_code.encode(out);
        self.entry_count.encode(out);
        self.glyph_index_array.encode(out);
        assert(out@ =~= old(out)@ + self.wire());
    }
}

} // verus!
