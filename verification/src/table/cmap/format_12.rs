//! Character-map subtable format 12: segmented coverage with 32-bit codes.

use crate::error::{end_of_stream, Error};
use crate::utils::codec::{value_at, Decode, Encode};
use crate::utils::reader::{
    fits, holds, items_at, lemma_holds_join, lemma_holds_split, lemma_items_exact,
    lemma_items_held, lemma_value_exact, lemma_value_held, ReadSeq, Stream, TryFromStream,
};
use crate::utils::types::{concat_wire, Sequence};
use vstd::prelude::*;
use vstd::slice::slice_subrange;

verus! {

/// Maps groups of consecutive character codes to consecutive glyphs.
#[derive(Debug, Clone, PartialEq, Eq)]
pub struct Format12 {
    pub format: u16,
    /// The two bytes between the format and the length; kept as read.
    pub reserved: u16,
    pub length: u32,
    pub language: u32,
    pub n_groups: u32,
    pub groups: Sequence<Format12Group>,
}

/// The mathematical value of a [`Format12`].
pub struct Format12Model {
    pub format: u16,
    pub reserved: u16,
    pub length: u32,
    pub language: u32,
    pub n_groups: u32,
    pub groups: Seq<Format12Group>,
}

impl View for Format12 {
    type V = Format12Model;

    open spec fn view(&self) -> Format12Model {
        Format12Model {
            format: self.format,
            reserved: self.reserved,
            length: self.length,
            language: self.language,
            n_groups: self.n_groups,
            groups: self.groups@,
        }
    }
}

impl Format12Model {
    /// The subtable is of format 12 and holds as many groups as it says.
    pub open spec fn wf(self) -> bool {
        &&& self.format == 12
        &&& self.groups.len() == self.n_groups
    }

    /// The bytes of the subtable, the format field first.
    pub open spec fn wire(self) -> Seq<u8> {
        self.format.wire() + self.reserved.wire() + self.length.wire() + self.language.wire()
            + self.n_groups.wire() + concat_wire(self.groups)
    }
}

/// The subtable whose format field ends at offset `at`.
pub open spec fn parse_format_12(data: Seq<u8>, at: int) -> Result<(Format12Model, int), Error> {
    if !fits(data, at, 14) {
        Err(end_of_stream())
    } else {
        let n_groups = value_at::<u32>(data, at + 10);
        if !fits(data, at + 14, 12 * n_groups) {
            Err(end_of_stream())
        } else {
            Ok(
                (
                    Format12Model {
                        format: 12,
                        reserved: value_at::<u16>(data, at),
                        length: value_at::<u32>(data, at + 2),
                        language: value_at::<u32>(data, at + 6),
                        n_groups,
                        groups: items_at::<Format12Group>(data, at + 14, n_groups as int),
                    },
                    at + 14 + 12 * n_groups,
                ),
            )
        }
    }
}

/// Decoding the bytes of a well-formed subtable gives the subtable back:
/// where `data` holds the wire form of `table` at `at`, the subtable behind
/// the format field is `table`, and it ends where the wire form ends.
pub proof fn lemma_format_12_round_trip(data: Seq<u8>, at: int, table: Format12Model)
    requires
        table.wf(),
        holds(data, at, table.wire()),
    ensures
        fits(data, at, 2),
        value_at::<u16>(data, at) == table.format,
        parse_format_12(data, at + 2) == Ok::<(Format12Model, int), Error>(
            (table, at + table.wire().len()),
        ),
{
    let b0 = table.format.wire();
    let b1 = b0 + table.reserved.wire();
    let b2 = b1 + table.length.wire();
    let b3 = b2 + table.language.wire();
    let b4 = b3 + table.n_groups.wire();
    lemma_holds_split(data, at, b4, concat_wire(table.groups));
    lemma_holds_split(data, at, b3, table.n_groups.wire());
    lemma_holds_split(data, at, b2, table.language.wire());
    lemma_holds_split(data, at, b1, table.length.wire());
    lemma_holds_split(data, at, b0, table.reserved.wire());
    lemma_value_held::<u16>(data, at, table.format);
    lemma_value_held::<u16>(data, at + b0.len(), table.reserved);
    lemma_value_held::<u32>(data, at + b1.len(), table.length);
    lemma_value_held::<u32>(data, at + b2.len(), table.language);
    lemma_value_held::<u32>(data, at + b3.len(), table.n_groups);
    lemma_items_held::<Format12Group>(data, at + b4.len(), table.groups);
}

/// What was decoded is what the bytes hold: where a subtable of format 12
/// was decoded behind its format field, `data` holds its wire form from the
/// format field on, and the subtable ends where the wire form ends.
pub proof fn lemma_format_12_exact(data: Seq<u8>, at: int)
    requires
        0 <= at,
        fits(data, at, 2),
        value_at::<u16>(data, at) == 12,
    ensures
        parse_format_12(data, at + 2) matches Ok((table, end)) ==> holds(data, at, table.wire())
            && end == at + table.wire().len() && table.wf(),
{
    if let Ok((table, end)) = parse_format_12(data, at + 2) {
        lemma_value_exact::<u16>(data, at);
        lemma_value_exact::<u16>(data, at + 2);
        lemma_value_exact::<u32>(data, at + 4);
        lemma_value_exact::<u32>(data, at + 8);
        lemma_value_exact::<u32>(data, at + 12);
        lemma_items_exact::<Format12Group>(data, at + 16, table.n_groups as int);
        let b0 = table.format.wire();
        lemma_holds_join(data, at, b0, table.reserved.wire());
        let b1 = b0 + table.reserved.wire();
        lemma_holds_join(data, at, b1, table.length.wire());
        let b2 = b1 + table.length.wire();
        lemma_holds_join(data, at, b2, table.language.wire());
        let b3 = b2 + table.language.wire();
        lemma_holds_join(data, at, b3, table.n_groups.wire());
        let b4 = b3 + table.n_groups.wire();
        lemma_holds_join(data, at, b4, concat_wire(table.groups));
    }
}

impl TryFromStream for Format12 {
    type Model = Format12Model;

    open spec fn model(&self) -> Format12Model {
        self@
    }

    open spec fn parse(data: Seq<u8>, at: int) -> Result<(Format12Model, int), Error> {
        parse_format_12(data, at)
    }

    fn try_from_stream(stream: &mut Stream<'_>) -> (r: Result<Self, Error>)
        ensures
            r matches Ok(v) ==> v@.wf(),
    {
        proof {
            stream.lemma_cursor_range();
        }
        let reserved: u16 = u16::try_from_stream(stream)?;
        let length: u32 = u32::try_from_stream(stream)?;
        let language: u32 = u32::try_from_stream(stream)?;
        let n_groups: u32 = u32::try_from_stream(stream)?;
        let groups: Sequence<Format12Group> = stream.read_seq(n_groups as usize)?;
        Ok(Format12 { format: 12, reserved, length, language, n_groups, groups })
    }
}

impl Encode for Format12 {
    open spec fn wire(&self) -> Seq<u8> {
        self@.wire()
    }

    fn encode(&self, out: &mut Vec<u8>) {
        self.format.encode(out);
        self.reserved.encode(out);
        self.length.encode(out);
        self.language.encode(out);
        self.n_groups.encode(out);
        self.groups.encode(out);
        assert(out@ =~= old(out)@ + self.wire());
    }
}

/// A run of consecutive character codes mapped to consecutive glyphs.
#[derive(Debug, Clone, Copy, PartialEq, Eq)]
pub struct Format12Group {
    pub start_char_code: u32,
    pub end_char_code: u32,
    pub start_glyph_code: u32,
}

impl Encode for Format12Group {
    open spec fn wire(&self) -> Seq<u8> {
        self.start_char_code.wire()
            + self.end_char_code.wire()
            + self.start_glyph_code.wire()
    }

    fn encode(&self, out: &mut Vec<u8>) {
        self.start_char_code.encode(out);
        self.end_char_code.encode(out);
        self.start_glyph_code.encode(out);
        assert(out@ =~= old(out)@ + self.wire());
    }
}

impl Decode for Format12Group {
    open spec fn wire_size() -> nat {
        12
    }

    open spec fn from_wire(bytes: Seq<u8>) -> Format12Group {
        Format12Group {
            start_char_code: u32::from_wire(bytes.subrange(0, 4)),
            end_char_code: u32::from_wire(bytes.subrange(4, 8)),
            start_glyph_code: u32::from_wire(bytes.subrange(8, 12)),
        }
    }

    proof fn lemma_wire_exact(bytes: Seq<u8>) {
        u32::lemma_wire_exact(bytes.subrange(0, 4));
        u32::lemma_wire_exact(bytes.subrange(4, 8));
        u32::lemma_wire_exact(bytes.subrange(8, 12));
        assert(Self::from_wire(bytes).wire() =~= bytes);
    }

    proof fn lemma_wire_round_trip(&self) {
        self.start_char_code.lemma_wire_round_trip();
        self.end_char_code.lemma_wire_round_trip();
        self.start_glyph_code.lemma_wire_round_trip();
        assert(self.wire().subrange(0, 4) =~= self.start_char_code.wire());
        assert(self.wire().subrange(4, 8) =~= self.end_char_code.wire());
        assert(self.wire().subrange(8, 12) =~= self.start_glyph_code.wire());
    }

    fn size() -> (n: usize) {
        12
    }

    fn decode_from_slice(bytes: &[u8]) -> (v: Format12Group) {
        Format12Group {
            start_char_code: u32::decode_from_slice(slice_subrange(bytes, 0, 4)),
            end_char_code: u32::decode_from_slice(slice_subrange(bytes, 4, 8)),
            start_glyph_code: u32::decode_from_slice(slice_subrange(bytes, 8, 12)),
        }
    }
}

} // verus!
