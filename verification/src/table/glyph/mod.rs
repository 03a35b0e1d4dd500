//! Glyph outlines.

pub mod compound;
pub mod coord;
pub mod simple;

pub use compound::{ComponentGlyph, CompoundGlyph, CompoundGlyphModel};
pub use coord::Coord;
pub use simple::{SimpleGlyph, SimpleGlyphModel};

use crate::error::{end_of_stream, Error};
use crate::table::glyph::compound::parse_compound;
use crate::table::glyph::simple::parse_simple;
use crate::utils::codec::{has_value, value_at, Decode, Encode};
use crate::utils::reader::{
    holds, lemma_holds_join, lemma_same_bytes_skip, lemma_same_value, lemma_value_exact, same_bytes,
    Stream, TryFromStream,
};
use vstd::prelude::*;
use vstd::slice::slice_subrange;

verus! {

/// The head of a glyph: the number of its contours and its bounding box.
#[derive(Debug, Clone, Copy, PartialEq, Eq)]
pub struct GlyphHeader {
    /// Zero or more for a simple glyph; negative for a compound glyph.
    pub number_of_contours: i16,
    pub x_min: i16,
    pub y_min: i16,
    pub x_max: i16,
    pub y_max: i16,
}

impl Encode for GlyphHeader {
    open spec fn wire(&self) -> Seq<u8> {
        self.number_of_contours.wire()
            + self.x_min.wire()
            + self.y_min.wire()
            + self.x_max.wire()
            + self.y_max.wire()
    }

    fn encode(&self, out: &mut Vec<u8>) {
        self.number_of_contours.encode(out);
        self.x_min.encode(out);
        self.y_min.encode(out);
        self.x_max.encode(out);
        self.y_max.encode(out);
        assert(out@ =~= old(out)@ + self.wire());
    }
}

impl Decode for GlyphHeader {
    open spec fn wire_size() -> nat {
        10
    }

    open spec fn from_wire(bytes: Seq<u8>) -> GlyphHeader {
        GlyphHeader {
            number_of_contours: i16::from_wire(bytes.subrange(0, 2)),
            x_min: i16::from_wire(bytes.subrange(2, 4)),
            y_min: i16::from_wire(bytes.subrange(4, 6)),
            x_max: i16::from_wire(bytes.subrange(6, 8)),
            y_max: i16::from_wire(bytes.subrange(8, 10)),
        }
    }

    proof fn lemma_wire_exact(bytes: Seq<u8>) {
        i16::lemma_wire_exact(bytes.subrange(0, 2));
        i16::lemma_wire_exact(bytes.subrange(2, 4));
        i16::lemma_wire_exact(bytes.subrange(4, 6));
        i16::lemma_wire_exact(bytes.subrange(6, 8));
        i16::lemma_wire_exact(bytes.subrange(8, 10));
        assert(Self::from_wire(bytes).wire() =~= bytes);
    }

    proof fn lemma_wire_round_trip(&self) {
        self.number_of_contours.lemma_wire_round_trip();
        self.x_min.lemma_wire_round_trip();
        self.y_min.lemma_wire_round_trip();
        self.x_max.lemma_wire_round_trip();
        self.y_max.lemma_wire_round_trip();
        assert(self.wire().subrange(0, 2) =~= self.number_of_contours.wire());
        assert(self.wire().subrange(2, 4) =~= self.x_min.wire());
        assert(self.wire().subrange(4, 6) =~= self.y_min.wire());
        assert(self.wire().subrange(6, 8) =~= self.x_max.wire());
        assert(self.wire().subrange(8, 10) =~= self.y_max.wire());
    }

    fn size() -> (n: usize) {
        10
    }

    fn decode_from_slice(bytes: &[u8]) -> (v: GlyphHeader) {
        GlyphHeader {
            number_of_contours: i16::decode_from_slice(slice_subrange(bytes, 0, 2)),
            x_min: i16::decode_from_slice(slice_subrange(bytes, 2, 4)),
            y_min: i16::decode_from_slice(slice_subrange(bytes, 4, 6)),
            x_max: i16::decode_from_slice(slice_subrange(bytes, 6, 8)),
            y_max: i16::decode_from_slice(slice_subrange(bytes, 8, 10)),
        }
    }
}

/// The outline of a glyph: its own points, or other glyphs put together.
#[derive(Debug, Clone, PartialEq, Eq)]
pub enum GlyphData {
    Simple(SimpleGlyph),
    Compound(CompoundGlyph),
}

/// The mathematical value of a [`GlyphData`].
pub enum GlyphDataModel {
    Simple(SimpleGlyphModel),
    Compound(CompoundGlyphModel),
}

impl View for GlyphData {
    type V = GlyphDataModel;

    open spec fn view(&self) -> GlyphDataModel {
        match self {
            GlyphData::Simple(value) => GlyphDataModel::Simple(value@),
            GlyphData::Compound(value) => GlyphDataModel::Compound(value@),
        }
    }
}

impl GlyphDataModel {
    pub open spec fn wf(self) -> bool {
        match self {
            GlyphDataModel::Simple(value) => value.wf(),
            GlyphDataModel::Compound(value) => value.wf(),
        }
    }

    /// The bytes of the outline.
    pub open spec fn wire(self) -> Seq<u8> {
        match self {
            GlyphDataModel::Simple(value) => value.wire(),
            GlyphDataModel::Compound(value) => value.wire(),
        }
    }
}

impl Encode for GlyphData {
    open spec fn wire(&self) -> Seq<u8> {
        self@.wire()
    }

    fn encode(&self, out: &mut Vec<u8>) {
        match self {
            GlyphData::Simple(value) => value.encode(out),
            GlyphData::Compound(value) => value.encode(out),
        }
    }
}

/// A glyph: its header and its outline.
#[derive(Debug, Clone, PartialEq, Eq)]
pub struct Glyph {
    pub header: GlyphHeader,
    pub data: GlyphData,
}

/// The mathematical value of a [`Glyph`].
pub struct GlyphModel {
    pub header: GlyphHeader,
    pub data: GlyphDataModel,
}

impl View for Glyph {
    type V = GlyphModel;

    open spec fn view(&self) -> GlyphModel {
        GlyphModel { header: self.header, data: self.data@ }
    }
}

impl GlyphModel {
    /// The outline is well formed and of the kind that the header announces.
    pub open spec fn wf(self) -> bool {
        &&& self.data.wf()
        &&& self.data is Simple == (self.header.number_of_contours >= 0)
        &&& self.data matches GlyphDataModel::Simple(simple) ==> simple.end_pts_of_contours.len()
            == self.header.number_of_contours
    }

    /// The bytes of the glyph: the header, then the outline.
    pub open spec fn wire(self) -> Seq<u8> {
        self.header.wire() + self.data.wire()
    }
}

/// What decoding a glyph at offset `at` gives: a simple glyph where the
/// header's number of contours is zero or more, a compound glyph where it is
/// negative.
pub open spec fn parse_glyph(data: Seq<u8>, at: int) -> Result<(GlyphModel, int), Error> {
    if !has_value::<GlyphHeader>(data, at) {
        Err(end_of_stream())
    } else {
        let header = value_at::<GlyphHeader>(data, at);
        if header.number_of_contours >= 0 {
            match parse_simple(data, at + 10, header.number_of_contours) {
                Err(e) => Err(e),
                Ok((simple, end)) => Ok(
                    (GlyphModel { header, data: GlyphDataModel::Simple(simple) }, end),
                ),
            }
        } else {
            match parse_compound(data, at + 10) {
                Err(e) => Err(e),
                Ok((compound, end)) => Ok(
                    (GlyphModel { header, data: GlyphDataModel::Compound(compound) }, end),
                ),
            }
        }
    }
}

/// A glyph that was decoded ends within the stream, behind its header.
pub proof fn lemma_parse_glyph_end(data: Seq<u8>, at: int)
    requires
        0 <= at,
    ensures
        parse_glyph(data, at) matches Ok((_, end)) ==> at + 10 <= end <= data.len(),
{
    if has_value::<GlyphHeader>(data, at) {
        let header = value_at::<GlyphHeader>(data, at);
        if header.number_of_contours >= 0 {
            crate::table::glyph::simple::lemma_parse_simple_end(
                data,
                at + 10,
                header.number_of_contours,
            );
        } else {
            crate::table::glyph::compound::lemma_parse_components(data, at + 10);
        }
    }
}

/// What was decoded is what the bytes hold: where a glyph was decoded,
/// `data` holds its wire form, and the glyph ends where the wire form ends,
/// so that encoding the glyph gives back the bytes it was decoded from.
pub proof fn lemma_glyph_exact(data: Seq<u8>, at: int)
    requires
        0 <= at,
    ensures
        parse_glyph(data, at) matches Ok((glyph, end)) ==> holds(data, at, glyph.wire()) && end
            == at + glyph.wire().len(),
{
    if let Ok((glyph, end)) = parse_glyph(data, at) {
        lemma_value_exact::<GlyphHeader>(data, at);
        if glyph.header.number_of_contours >= 0 {
            crate::table::glyph::simple::lemma_simple_exact(
                data,
                at + 10,
                glyph.header.number_of_contours,
            );
        } else {
            crate::table::glyph::compound::lemma_compound_exact(data, at + 10);
        }
        lemma_holds_join(data, at, glyph.header.wire(), glyph.data.wire());
    }
}

/// Decoding a glyph depends on the bytes read only: two streams that hold
/// the same bytes give the same glyph.
pub proof fn lemma_glyph_same(data: Seq<u8>, at: int, other: Seq<u8>, to: int, len: int)
    requires
        same_bytes(data, at, other, to, len),
        parse_glyph(data, at) matches Ok((_, end)) && end <= at + len,
    ensures
        parse_glyph(other, to) == Ok::<(GlyphModel, int), Error>(
            (parse_glyph(data, at)->Ok_0.0, to + parse_glyph(data, at)->Ok_0.1 - at),
        ),
{
    let header = value_at::<GlyphHeader>(data, at);
    lemma_parse_glyph_end(data, at);
    lemma_same_value::<GlyphHeader>(data, at, other, to, len);
    lemma_same_bytes_skip(data, at, other, to, len, 10);
    if header.number_of_contours >= 0 {
        crate::table::glyph::simple::lemma_simple_same(
            data,
            at + 10,
            other,
            to + 10,
            len - 10,
            header.number_of_contours,
        );
    } else {
        crate::table::glyph::compound::lemma_compound_same(data, at + 10, other, to + 10, len - 10);
    }
}

/// Decoding, encoding and decoding again gives the same glyph: the bytes of
/// a glyph that was decoded are decoded to the same glyph.
pub proof fn lemma_glyph_round_trip(data: Seq<u8>, at: int)
    requires
        0 <= at,
    ensures
        parse_glyph(data, at) matches Ok((glyph, _)) ==> parse_glyph(glyph.wire(), 0) == Ok::<
            (GlyphModel, int),
            Error,
        >((glyph, glyph.wire().len() as int)),
{
    if let Ok((glyph, end)) = parse_glyph(data, at) {
        lemma_glyph_exact(data, at);
        lemma_parse_glyph_end(data, at);
        let bytes = glyph.wire();
        assert(bytes.subrange(0, bytes.len() as int) =~= bytes);
        lemma_glyph_same(data, at, bytes, 0, bytes.len() as int);
    }
}

impl TryFromStream for Glyph {
    type Model = GlyphModel;

    open spec fn model(&self) -> GlyphModel {
        self@
    }

    open spec fn parse(data: Seq<u8>, at: int) -> Result<(GlyphModel, int), Error> {
        parse_glyph(data, at)
    }

    fn try_from_stream(stream: &mut Stream<'_>) -> (r: Result<Self, Error>)
        ensures
            r matches Ok(v) ==> v@.wf(),
    {
        let header: GlyphHeader = GlyphHeader::try_from_stream(stream)?;
        let contours: i16 = header.number_of_contours;
        if contours >= 0 {
            let simple: SimpleGlyph = SimpleGlyph::try_from_params(contours, stream)?;
            Ok(Glyph { header, data: GlyphData::Simple(simple) })
        } else {
            let compound: CompoundGlyph = CompoundGlyph::try_from_stream(stream)?;
            Ok(Glyph { header, data: GlyphData::Compound(compound) })
        }
    }
}

impl Encode for Glyph {
    open spec fn wire(&self) -> Seq<u8> {
        self@.wire()
    }

    fn encode(&self, out: &mut Vec<u8>) {
        self.header.encode(out);
        self.data.encode(out);
        assert(out@ =~= old(out)@ + self.wire());
    }
}

} // verus!
