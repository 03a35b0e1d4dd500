//! The `glyf` table: the outlines of the glyphs.

use crate::error::{DecodeError, Error};
use crate::table::glyph::{parse_glyph, Glyph, GlyphModel};
use crate::table::tags::Tag;
use crate::table::{loca_of, table_models, FontTable, FontTableModel, GetFontTable};
use crate::ttf::font_dir::padding_for;
use crate::utils::codec::Encode;
use crate::utils::reader::{Stream, TryFromStream};
use crate::utils::types::{concat_wire, Sequence};
use std::collections::BTreeMap;
use vstd::prelude::*;

verus! {

/// The glyphs that have an outline, in the order of their numbers.
#[derive(Debug, Clone, PartialEq, Eq)]
pub struct Glyf {
    pub glyphs: Sequence<Glyph>,
}

/// The mathematical value of a [`Glyf`].
pub struct GlyfModel {
    pub glyphs: Seq<GlyphModel>,
}

/// The models of the glyphs in `glyphs`.
pub open spec fn glyph_models(glyphs: Seq<Glyph>) -> Seq<GlyphModel> {
    glyphs.map_values(|g: Glyph| g@)
}

impl View for Glyf {
    type V = GlyfModel;

    open spec fn view(&self) -> GlyfModel {
        GlyfModel { glyphs: glyph_models(self.glyphs@) }
    }
}

/// The wire forms of the glyphs, one after another.
pub open spec fn glyphs_wire(glyphs: Seq<GlyphModel>) -> Seq<u8>
    decreases glyphs.len(),
{
    if glyphs.len() == 0 {
        Seq::empty()
    } else {
        glyphs_wire(glyphs.drop_last()) + glyphs.last().wire()
    }
}

impl GlyfModel {
    /// The bytes of the glyphs, one after another.
    pub open spec fn wire(self) -> Seq<u8> {
        glyphs_wire(self.glyphs)
    }
}

/// The number of glyphs with an outline among the first `n` glyphs: those
/// whose offset differs from the next one.
pub open spec fn outline_count(offsets: Seq<u32>, n: int) -> nat
    decreases n,
{
    if n <= 0 {
        0
    } else if n < offsets.len() && offsets[n - 1] != offsets[n] {
        outline_count(offsets, n - 1) + 1
    } else {
        outline_count(offsets, n - 1)
    }
}

/// The number of glyphs with an outline that the offsets `offsets` announce.
pub open spec fn outlines(offsets: Seq<u32>) -> nat {
    outline_count(offsets, offsets.len() - 1)
}

/// What decoding `n` glyphs one after another gives, the first at offset
/// `base`, each of the others at the next multiple of four bytes from `base`
/// behind the glyph before it: the glyphs, and where the last one ends.
pub open spec fn parse_glyphs(data: Seq<u8>, base: int, n: nat) -> Result<
    (Seq<GlyphModel>, int),
    Error,
>
    decreases n,
{
    if n == 0 {
        Ok((Seq::empty(), base))
    } else {
        match parse_glyphs(data, base, (n - 1) as nat) {
            Err(e) => Err(e),
            Ok((glyphs, end)) => match parse_glyph(data, end + padding_for(end - base)) {
                Err(e) => Err(e),
                Ok((glyph, next)) => Ok((glyphs.push(glyph), next)),
            },
        }
    }
}

/// What decoding `glyf` at offset `at` gives, the number of glyphs with an
/// outline taken from `loca` among `tables`.
pub open spec fn parse_glyf_with(tables: Map<Tag, FontTableModel>, data: Seq<u8>, at: int) -> Result<
    GlyfModel,
    Error,
> {
    match loca_of(tables) {
        Err(e) => Err(e),
        Ok(loca) => match parse_glyphs(data, at, outlines(loca.offsets)) {
            Err(e) => Err(e),
            Ok((glyphs, _)) => Ok(GlyfModel { glyphs }),
        },
    }
}

/// Where the glyph behind the first `n` glyphs starts.
pub open spec fn next_glyph_at(data: Seq<u8>, base: int, n: nat) -> int {
    let end = parse_glyphs(data, base, n)->Ok_0.1;
    end + padding_for(end - base)
}

/// Decoding one more glyph extends the result by it.
proof fn lemma_parse_glyphs_step(data: Seq<u8>, base: int, n: nat)
    requires
        parse_glyphs(data, base, n) is Ok,
        parse_glyph(data, next_glyph_at(data, base, n)) is Ok,
    ensures
        parse_glyphs(data, base, n + 1) == Ok::<(Seq<GlyphModel>, int), Error>(
            (
                parse_glyphs(data, base, n)->Ok_0.0.push(
                    parse_glyph(data, next_glyph_at(data, base, n))->Ok_0.0,
                ),
                parse_glyph(data, next_glyph_at(data, base, n))->Ok_0.1,
            ),
        ),
{
}

/// Once a glyph fails, decoding that glyph and any more of them fails alike.
proof fn lemma_parse_glyphs_fails(data: Seq<u8>, base: int, n: nat, m: nat)
    requires
        n < m,
        parse_glyphs(data, base, n) is Ok,
        parse_glyph(data, next_glyph_at(data, base, n)) is Err,
    ensures
        parse_glyphs(data, base, m) == Err::<(Seq<GlyphModel>, int), Error>(
            parse_glyph(data, next_glyph_at(data, base, n))->Err_0,
        ),
{
    lemma_parse_glyphs_keeps_failure(data, base, n + 1, m);
}

/// The number of outlines among the first glyphs grows with their number.
proof fn lemma_outline_count_grows(offsets: Seq<u32>, n: int, m: int)
    requires
        n <= m,
    ensures
        outline_count(offsets, n) <= outline_count(offsets, m),
    decreases m - n,
{
    if n < m {
        lemma_outline_count_grows(offsets, n, m - 1);
    }
}

/// A failure on the first `n` glyphs is the failure on any more of them.
proof fn lemma_parse_glyphs_keeps_failure(data: Seq<u8>, base: int, n: nat, m: nat)
    requires
        n <= m,
        parse_glyphs(data, base, n) is Err,
    ensures
        parse_glyphs(data, base, m) == parse_glyphs(data, base, n),
    decreases m - n,
{
    if n < m {
        lemma_parse_glyphs_keeps_failure(data, base, n, (m - 1) as nat);
    }
}

/// Glyphs that were decoded are well formed, as many as asked for, and end
/// within the stream.
pub proof fn lemma_parse_glyphs(data: Seq<u8>, base: int, n: nat)
    requires
        0 <= base,
    ensures
        parse_glyphs(data, base, n) matches Ok((glyphs, end)) ==> {
            &&& glyphs.len() == n
            &&& base <= end
            &&& n > 0 ==> end <= data.len()
        },
    decreases n,
{
    if n > 0 {
        lemma_parse_glyphs(data, base, (n - 1) as nat);
        if let Ok((glyphs, end)) = parse_glyphs(data, base, (n - 1) as nat) {
            let at = end + padding_for(end - base);
            if let Ok((glyph, next)) = parse_glyph(data, at) {
                crate::table::glyph::lemma_parse_glyph_end(data, at);
            }
        }
    }
}

impl Glyf {
    /// Decodes the glyphs at the cursor, as many as `loca` among `tables`
    /// announces outlines. Where the cursor is left is not specified.
    pub fn try_from_params(tables: &BTreeMap<Tag, FontTable>, stream: &mut Stream<'_>) -> (r: Result<
        Self,
        Error,
    >)
        ensures
            final(stream).bytes() == old(stream).bytes(),
            match r {
                Ok(v) => parse_glyf_with(
                    table_models(tables@),
                    old(stream).bytes(),
                    old(stream).cursor(),
                ) == Ok::<GlyfModel, Error>(v@),
                Err(e) => parse_glyf_with(
                    table_models(tables@),
                    old(stream).bytes(),
                    old(stream).cursor(),
                ) == Err::<GlyfModel, Error>(e),
            },
    {
        let ghost data = stream.bytes();
        proof {
            stream.lemma_cursor_range();
        }
        let offsets: &[u32] = tables.loca()?.offsets.as_slice();
        let base: u64 = stream.stream_position();
        let last: usize = if offsets.len() == 0 {
            0
        } else {
            offsets.len() - 1
        };
        let mut glyphs: Vec<Glyph> = Vec::new();
        let mut i: usize = 0;
        assert(glyph_models(glyphs@) =~= Seq::<GlyphModel>::empty());
        while i < last
            invariant
                i <= last,
                last == if offsets@.len() == 0 { 0 } else { offsets@.len() - 1 },
                stream.bytes() == data,
                old(stream).bytes() == data,
                old(stream).cursor() == base,
                loca_of(table_models(tables@)) matches Ok(loca) && loca.offsets == offsets@,
                glyphs@.len() == outline_count(offsets@, i as int),
                parse_glyphs(data, base as int, glyphs@.len() as nat) == Ok::<
                    (Seq<GlyphModel>, int),
                    Error,
                >((glyph_models(glyphs@), stream.cursor())),
            decreases last - i,
        {
            if offsets[i] != offsets[i + 1] {
                let ghost done = glyph_models(glyphs@);
                let ghost count = glyphs@.len() as nat;
                proof {
                    stream.lemma_cursor_range();
                    lemma_parse_glyphs(data, base as int, count);
                    lemma_outline_count_grows(offsets@, i + 1, last as int);
                }
                let position: u64 = stream.stream_position();
                let padding: u64 = (4 - (position - base) % 4) % 4;
                let start: u64 = match position.checked_add(padding) {
                    Some(start) => start,
                    None => {
                        proof {
                            lemma_parse_glyphs_fails(data, base as int, count, outlines(offsets@));
                        }
                        return Err(Error::DecodeError(DecodeError::UnexpectedEof));
                    },
                };
                stream.seek(start);
                let glyph: Glyph = match Glyph::try_from_stream(stream) {
                    Ok(glyph) => glyph,
                    Err(e) => {
                        proof {
                            lemma_parse_glyphs_fails(data, base as int, count, outlines(offsets@));
                        }
                        return Err(e);
                    },
                };
                proof {
                    lemma_parse_glyphs_step(data, base as int, count);
                }
                glyphs.push(glyph);
                assert(glyph_models(glyphs@) =~= done.push(glyph@));
            }
            i = i + 1;
        }
        Ok(Glyf { glyphs: Sequence(glyphs) })
    }
}

/// The wire forms of glyphs are those of their models.
pub proof fn lemma_glyphs_wire(glyphs: Seq<Glyph>)
    ensures
        concat_wire(glyphs) == glyphs_wire(glyph_models(glyphs)),
    decreases glyphs.len(),
{
    if glyphs.len() > 0 {
        lemma_glyphs_wire(glyphs.drop_last());
        assert(glyph_models(glyphs).drop_last() =~= glyph_models(glyphs.drop_last()));
    }
}

impl Encode for Glyf {
    open spec fn wire(&self) -> Seq<u8> {
        self@.wire()
    }

    fn encode(&self, out: &mut Vec<u8>) {
        proof {
            lemma_glyphs_wire(self.glyphs@);
        }
        self.glyphs.encode(out);
    }
}

} // verus!
