//! Compound glyphs: glyphs put together from other glyphs.

use crate::error::{end_of_stream, Error};
use crate::sfnt::types::ShortFrac;
use crate::table::glyph::coord::Coord;
use crate::utils::bitflag::BitFlag;
use crate::utils::codec::{value_at, Encode};
use crate::utils::reader::{
    fits, holds, items_at, lemma_holds_join, lemma_items_exact, lemma_same_bytes_skip,
    lemma_same_items, lemma_same_value, lemma_value_exact, same_bytes, ReadSeq, Stream,
    TryFromStream,
};
use crate::utils::types::{
    concat_wire, lemma_concat_wire_add, lemma_concat_wire_one, Opt, Sequence,
};
use vstd::prelude::*;

verus! {

/// Bit 0: the two arguments are 16 bits wide, not 8.
pub const ARGS_1_AND_2_ARE_WORDS: u16 = 0;

/// Bit 1: the two arguments are signed offsets, not point numbers.
pub const ARGS_1_AND_2_ARE_XY_VALUES: u16 = 1;

/// Bit 3: one scale for both axes follows the arguments.
pub const WE_HAVE_SCALE: u16 = 3;

/// Bit 5: another component follows this one.
pub const MORE_COMPONENTS: u16 = 5;

/// Bit 6: one scale for each axis follows the arguments.
pub const WE_HAVE_X_AND_Y_SCALE: u16 = 6;

/// Bit 7: a two-by-two matrix follows the arguments.
pub const WE_HAVE_A_TWO_BY_TWO: u16 = 7;

/// Bit 8: instructions follow the last component.
pub const WE_HAVE_INSTRUCTIONS: u16 = 8;

/// One component of a compound glyph: a glyph, where to put it, and how to
/// scale it. A component without any scale is placed unchanged.
#[derive(Debug, Clone, Copy, PartialEq, Eq)]
pub struct ComponentGlyph {
    pub flags: u16,
    pub glyph_index: u16,
    pub argument1: Coord,
    pub argument2: Coord,
    pub scale: Opt<ShortFrac>,
    pub x_scale: Opt<ShortFrac>,
    pub scale_01: Opt<ShortFrac>,
    pub scale_10: Opt<ShortFrac>,
    pub y_scale: Opt<ShortFrac>,
}

/// The number of bytes of each of the two arguments of a component.
pub open spec fn argument_width(flags: u16) -> int {
    if flags.is_set(ARGS_1_AND_2_ARE_WORDS) {
        2
    } else {
        1
    }
}

/// The number of bytes of the transform of a component.
pub open spec fn transform_width(flags: u16) -> int {
    if flags.is_set(WE_HAVE_SCALE) {
        2
    } else if flags.is_set(WE_HAVE_X_AND_Y_SCALE) {
        4
    } else if flags.is_set(WE_HAVE_A_TWO_BY_TWO) {
        8
    } else {
        0
    }
}

/// The argument of a component with flags `flags` that `data` holds at `at`,
/// where the bytes are there.
pub open spec fn argument_at(data: Seq<u8>, at: int, flags: u16) -> Coord {
    if flags.is_set(ARGS_1_AND_2_ARE_WORDS) {
        if flags.is_set(ARGS_1_AND_2_ARE_XY_VALUES) {
            Coord::Int16(value_at::<i16>(data, at))
        } else {
            Coord::UInt16(value_at::<u16>(data, at))
        }
    } else {
        if flags.is_set(ARGS_1_AND_2_ARE_XY_VALUES) {
            Coord::Int8(value_at::<i8>(data, at))
        } else {
            Coord::UInt8(value_at::<u8>(data, at))
        }
    }
}

/// What reading one argument at `at` gives: an unsigned byte, a signed byte,
/// an unsigned word or a signed word, as the two lowest bits of `flags` say.
pub open spec fn parse_argument(data: Seq<u8>, at: int, flags: u16) -> Result<(Coord, int), Error> {
    if !fits(data, at, argument_width(flags)) {
        Err(end_of_stream())
    } else {
        Ok((argument_at(data, at, flags), at + argument_width(flags)))
    }
}

/// Reads one argument of a component with the flags `flags`.
pub fn read_argument(flags: u16, stream: &mut Stream<'_>) -> (r: Result<Coord, Error>)
    ensures
        final(stream).bytes() == old(stream).bytes(),
        match r {
            Ok(v) => parse_argument(old(stream).bytes(), old(stream).cursor(), flags) == Ok::<
                (Coord, int),
                Error,
            >((v, final(stream).cursor())),
            Err(e) => parse_argument(old(stream).bytes(), old(stream).cursor(), flags) == Err::<
                (Coord, int),
                Error,
            >(e),
        },
{
    let words: bool = flags.has(ARGS_1_AND_2_ARE_WORDS);
    let signed: bool = flags.has(ARGS_1_AND_2_ARE_XY_VALUES);
    if words {
        if signed {
            Ok(Coord::Int16(i16::try_from_stream(stream)?))
        } else {
            Ok(Coord::UInt16(u16::try_from_stream(stream)?))
        }
    } else {
        if signed {
            Ok(Coord::Int8(i8::try_from_stream(stream)?))
        } else {
            Ok(Coord::UInt8(u8::try_from_stream(stream)?))
        }
    }
}

/// The scale that `data` holds at `at`, if `present`.
pub open spec fn scale_at(data: Seq<u8>, at: int, present: bool) -> Opt<ShortFrac> {
    if present {
        Opt::Present(value_at::<ShortFrac>(data, at))
    } else {
        Opt::Absent
    }
}

/// What decoding one component at offset `at` gives.
pub open spec fn parse_component(data: Seq<u8>, at: int) -> Result<(ComponentGlyph, int), Error> {
    if !fits(data, at, 4) {
        Err(end_of_stream())
    } else {
        let flags = value_at::<u16>(data, at);
        let width = argument_width(flags);
        let transform = at + 4 + 2 * width;
        if !fits(data, at + 4, 2 * width) {
            Err(end_of_stream())
        } else if !fits(data, transform, transform_width(flags)) {
            Err(end_of_stream())
        } else {
            let one = flags.is_set(WE_HAVE_SCALE);
            let two = !one && flags.is_set(WE_HAVE_X_AND_Y_SCALE);
            let four = !one && !two && flags.is_set(WE_HAVE_A_TWO_BY_TWO);
            Ok(
                (
                    ComponentGlyph {
                        flags,
                        glyph_index: value_at::<u16>(data, at + 2),
                        argument1: argument_at(data, at + 4, flags),
                        argument2: argument_at(data, at + 4 + width, flags),
                        scale: scale_at(data, transform, one),
                        x_scale: scale_at(data, transform, two || four),
                        scale_01: scale_at(data, transform + 2, four),
                        scale_10: scale_at(data, transform + 4, four),
                        y_scale: scale_at(data, if four { transform + 6 } else { transform + 2 }, two || four),
                    },
                    transform + transform_width(flags),
                ),
            )
        }
    }
}

impl ComponentGlyph {
    /// The arguments and scales that are present are those the flags call for.
    pub open spec fn wf(self) -> bool {
        let one = self.flags.is_set(WE_HAVE_SCALE);
        let two = !one && self.flags.is_set(WE_HAVE_X_AND_Y_SCALE);
        let four = !one && !two && self.flags.is_set(WE_HAVE_A_TWO_BY_TWO);
        &&& self.argument1.width() == argument_width(self.flags)
        &&& self.argument2.width() == argument_width(self.flags)
        &&& (self.argument1 is Int8 || self.argument1 is Int16) == self.flags.is_set(
            ARGS_1_AND_2_ARE_XY_VALUES,
        )
        &&& (self.argument2 is Int8 || self.argument2 is Int16) == self.flags.is_set(
            ARGS_1_AND_2_ARE_XY_VALUES,
        )
        &&& self.scale is Present == one
        &&& self.x_scale is Present == (two || four)
        &&& self.scale_01 is Present == four
        &&& self.scale_10 is Present == four
        &&& self.y_scale is Present == (two || four)
    }
}

impl Encode for ComponentGlyph {
    open spec fn wire(&self) -> Seq<u8> {
        self.flags.wire() + self.glyph_index.wire() + self.argument1.wire() + self.argument2.wire()
            + self.scale.wire() + self.x_scale.wire() + self.scale_01.wire() + self.scale_10.wire()
            + self.y_scale.wire()
    }

    fn encode(&self, out: &mut Vec<u8>) {
        self.flags.encode(out);
        self.glyph_index.encode(out);
        self.argument1.encode(out);
        self.argument2.encode(out);
        self.scale.encode(out);
        self.x_scale.encode(out);
        self.scale_01.encode(out);
        self.scale_10.encode(out);
        self.y_scale.encode(out);
        assert(out@ =~= old(out)@ + self.wire());
    }
}

impl TryFromStream for ComponentGlyph {
    type Model = ComponentGlyph;

    open spec fn model(&self) -> ComponentGlyph {
        *self
    }

    open spec fn parse(data: Seq<u8>, at: int) -> Result<(ComponentGlyph, int), Error> {
        parse_component(data, at)
    }

    fn try_from_stream(stream: &mut Stream<'_>) -> (r: Result<Self, Error>)
        ensures
            r matches Ok(v) ==> v.wf(),
    {
        proof {
            stream.lemma_cursor_range();
        }
        let flags: u16 = u16::try_from_stream(stream)?;
        let glyph_index: u16 = u16::try_from_stream(stream)?;
        let argument1: Coord = read_argument(flags, stream)?;
        let argument2: Coord = read_argument(flags, stream)?;
        let mut scale: Option<ShortFrac> = None;
        let mut x_scale: Option<ShortFrac> = None;
        let mut scale_01: Option<ShortFrac> = None;
        let mut scale_10: Option<ShortFrac> = None;
        let mut y_scale: Option<ShortFrac> = None;
        if flags.has(WE_HAVE_SCALE) {
            scale = Some(ShortFrac::try_from_stream(stream)?);
        } else if flags.has(WE_HAVE_X_AND_Y_SCALE) {
            x_scale = Some(ShortFrac::try_from_stream(stream)?);
            y_scale = Some(ShortFrac::try_from_stream(stream)?);
        } else if flags.has(WE_HAVE_A_TWO_BY_TWO) {
            x_scale = Some(ShortFrac::try_from_stream(stream)?);
            scale_01 = Some(ShortFrac::try_from_stream(stream)?);
            scale_10 = Some(ShortFrac::try_from_stream(stream)?);
            y_scale = Some(ShortFrac::try_from_stream(stream)?);
        }
        Ok(
            ComponentGlyph {
                flags,
                glyph_index,
                argument1,
                argument2,
                scale: Opt::from(scale),
                x_scale: Opt::from(x_scale),
                scale_01: Opt::from(scale_01),
                scale_10: Opt::from(scale_10),
                y_scale: Opt::from(y_scale),
            },
        )
    }
}

/// A glyph made of components, with instructions where the last component
/// asks for them.
#[derive(Debug, Clone, PartialEq, Eq)]
pub struct CompoundGlyph {
    pub components: Sequence<ComponentGlyph>,
    pub instruction_length: Opt<u16>,
    pub instructions: Opt<Sequence<u8>>,
}

/// The mathematical value of a [`CompoundGlyph`].
pub struct CompoundGlyphModel {
    pub components: Seq<ComponentGlyph>,
    pub instruction_length: Opt<u16>,
    pub instructions: Opt<Seq<u8>>,
}

impl View for CompoundGlyph {
    type V = CompoundGlyphModel;

    open spec fn view(&self) -> CompoundGlyphModel {
        CompoundGlyphModel {
            components: self.components@,
            instruction_length: self.instruction_length,
            instructions: match self.instructions {
                Opt::Present(bytes) => Opt::Present(bytes@),
                Opt::Absent => Opt::Absent,
            },
        }
    }
}

/// Whether a chain of components ends where it should: every component but
/// the last announces another one, and the last does not.
pub open spec fn chain_is_closed(components: Seq<ComponentGlyph>) -> bool {
    &&& components.len() >= 1
    &&& !components.last().flags.is_set(MORE_COMPONENTS)
    &&& forall|i: int|
        0 <= i < components.len() - 1 ==> (#[trigger] components[i]).flags.is_set(MORE_COMPONENTS)
}

impl CompoundGlyphModel {
    /// The chain of components is closed and each component is well formed;
    /// instructions are present exactly where the last component asks for
    /// them, and are as long as their length says.
    pub open spec fn wf(self) -> bool {
        &&& chain_is_closed(self.components)
        &&& forall|i: int| 0 <= i < self.components.len() ==> (#[trigger] self.components[i]).wf()
        &&& self.instruction_length is Present == self.components.last().flags.is_set(
            WE_HAVE_INSTRUCTIONS,
        )
        &&& self.instructions is Present == self.instruction_length is Present
        &&& self.instruction_length matches Opt::Present(n) ==> self.instructions->Present_0.len()
            == n
    }

    /// The bytes of the glyph behind its header.
    pub open spec fn wire(self) -> Seq<u8> {
        concat_wire(self.components) + self.instruction_length.wire() + match self.instructions {
            Opt::Present(bytes) => concat_wire(bytes),
            Opt::Absent => Seq::empty(),
        }
    }
}

/// What decoding a chain of components at offset `at` gives: the components
/// up to and with the first one that announces no other, and where it ends.
pub open spec fn parse_components(data: Seq<u8>, at: int) -> Result<
    (Seq<ComponentGlyph>, int),
    Error,
>
    decreases data.len() - at,
{
    match parse_component(data, at) {
        Err(e) => Err(e),
        Ok((component, next)) => if component.flags.is_set(MORE_COMPONENTS) {
            match parse_components(data, next) {
                Err(e) => Err(e),
                Ok((rest, end)) => Ok((seq![component] + rest, end)),
            }
        } else {
            Ok((seq![component], next))
        },
    }
}

/// What decoding a compound glyph behind its header, at offset `at`, gives.
pub open spec fn parse_compound(data: Seq<u8>, at: int) -> Result<(CompoundGlyphModel, int), Error> {
    match parse_components(data, at) {
        Err(e) => Err(e),
        Ok((components, end)) => if components.last().flags.is_set(WE_HAVE_INSTRUCTIONS) {
            if !fits(data, end, 2) {
                Err(end_of_stream())
            } else {
                let length = value_at::<u16>(data, end);
                if !fits(data, end + 2, length as int) {
                    Err(end_of_stream())
                } else {
                    Ok(
                        (
                            CompoundGlyphModel {
                                components,
                                instruction_length: Opt::Present(length),
                                instructions: Opt::Present(
                                    items_at::<u8>(data, end + 2, length as int),
                                ),
                            },
                            end + 2 + length,
                        ),
                    )
                }
            }
        } else {
            Ok(
                (
                    CompoundGlyphModel {
                        components,
                        instruction_length: Opt::Absent,
                        instructions: Opt::Absent,
                    },
                    end,
                ),
            )
        },
    }
}

/// The outcome `rest` of decoding the tail of a chain, seen from the start of
/// the chain, of which `done` was decoded before.
pub open spec fn after_components(
    done: Seq<ComponentGlyph>,
    rest: Result<(Seq<ComponentGlyph>, int), Error>,
) -> Result<(Seq<ComponentGlyph>, int), Error> {
    match rest {
        Err(e) => Err(e),
        Ok((tail, end)) => Ok((done + tail, end)),
    }
}

/// A chain of components ends at the first component that announces no
/// other: a chain that was decoded is closed, holds well-formed components
/// only, and takes at least six bytes for each of them, so that it has no
/// more components than the stream has room for. A chain that is not closed
/// within the stream fails, and fails at the end of the stream.
pub proof fn lemma_parse_components(data: Seq<u8>, at: int)
    requires
        0 <= at,
    ensures
        parse_components(data, at) matches Ok((components, end)) ==> {
            &&& chain_is_closed(components)
            &&& forall|i: int| 0 <= i < components.len() ==> (#[trigger] components[i]).wf()
            &&& at + 6 * components.len() <= end <= data.len()
        },
        parse_components(data, at) matches Err(e) ==> e == end_of_stream(),
    decreases data.len() - at,
{
    if let Ok((component, next)) = parse_component(data, at) {
        if component.flags.is_set(MORE_COMPONENTS) {
            lemma_parse_components(data, next);
            if let Ok((rest, end)) = parse_components(data, next) {
                let all = seq![component] + rest;
                assert(all.last() == rest.last());
                assert forall|i: int| 0 <= i < all.len() - 1 implies (#[trigger] all[i]).flags.is_set(
                    MORE_COMPONENTS,
                ) by {
                    if i > 0 {
                        assert(all[i] == rest[i - 1]);
                    }
                }
                assert forall|i: int| 0 <= i < all.len() implies (#[trigger] all[i]).wf() by {
                    if i > 0 {
                        assert(all[i] == rest[i - 1]);
                    }
                }
            }
        }
    }
}

impl TryFromStream for CompoundGlyph {
    type Model = CompoundGlyphModel;

    open spec fn model(&self) -> CompoundGlyphModel {
        self@
    }

    open spec fn parse(data: Seq<u8>, at: int) -> Result<(CompoundGlyphModel, int), Error> {
        parse_compound(data, at)
    }

    fn try_from_stream(stream: &mut Stream<'_>) -> (r: Result<Self, Error>)
        ensures
            r matches Ok(v) ==> v@.wf(),
    {
        let ghost data = stream.bytes();
        let ghost start = stream.cursor();
        proof {
            stream.lemma_cursor_range();
            lemma_parse_components(data, start);
        }
        let mut components: Vec<ComponentGlyph> = Vec::new();
        let mut has_more: bool = true;
        while has_more
            invariant
                stream.bytes() == data,
                old(stream).bytes() == data,
                old(stream).cursor() == start,
                0 <= stream.cursor(),
                has_more ==> parse_components(data, start) == after_components(
                    components@,
                    parse_components(data, stream.cursor()),
                ),
                !has_more ==> parse_components(data, start) == Ok::<
                    (Seq<ComponentGlyph>, int),
                    Error,
                >((components@, stream.cursor())),
            decreases data.len() - stream.cursor() + if has_more { 1int } else { 0int },
        {
            let ghost at = stream.cursor();
            let ghost done = components@;
            let component: ComponentGlyph = ComponentGlyph::try_from_stream(stream)?;
            has_more = component.flags.has(MORE_COMPONENTS);
            components.push(component);
            proof {
                stream.lemma_cursor_range();
                assert(components@ =~= done + seq![component]);
                if has_more {
                    let rest = parse_components(data, stream.cursor());
                    if let Ok((tail, end)) = rest {
                        assert(done + (seq![component] + tail) =~= components@ + tail);
                    }
                }
            }
        }
        let last: &ComponentGlyph = &components[components.len() - 1];
        let has_instructions: bool = last.flags.has(WE_HAVE_INSTRUCTIONS);
        if has_instructions {
            let length: u16 = u16::try_from_stream(stream)?;
            let instructions: Sequence<u8> = stream.read_seq(length as usize)?;
            Ok(
                CompoundGlyph {
                    components: Sequence(components),
                    instruction_length: Opt::Present(length),
                    instructions: Opt::Present(instructions),
                },
            )
        } else {
            Ok(
                CompoundGlyph {
                    components: Sequence(components),
                    instruction_length: Opt::Absent,
                    instructions: Opt::Absent,
                },
            )
        }
    }
}

impl Encode for CompoundGlyph {
    open spec fn wire(&self) -> Seq<u8> {
        self@.wire()
    }

    fn encode(&self, out: &mut Vec<u8>) {
        self.components.encode(out);
        self.instruction_length.encode(out);
        match &self.instructions {
            Opt::Present(bytes) => bytes.encode(out),
            Opt::Absent => {},
        }
        assert(out@ =~= old(out)@ + self.wire());
    }
}

/// Where a scale can be read if it is there, `data` holds its wire form.
proof fn lemma_scale_exact(data: Seq<u8>, at: int, present: bool)
    requires
        0 <= at,
        present ==> fits(data, at, 2),
    ensures
        holds(data, at, scale_at(data, at, present).wire()),
        scale_at(data, at, present).wire().len() == if present { 2int } else { 0int },
{
    if present {
        lemma_value_exact::<ShortFrac>(data, at);
    }
}

/// Where an argument can be read, `data` holds its wire form.
proof fn lemma_argument_exact(data: Seq<u8>, at: int, flags: u16)
    requires
        0 <= at,
        fits(data, at, argument_width(flags)),
    ensures
        holds(data, at, argument_at(data, at, flags).wire()),
        argument_at(data, at, flags).wire().len() == argument_width(flags),
{
    if flags.is_set(ARGS_1_AND_2_ARE_WORDS) {
        if flags.is_set(ARGS_1_AND_2_ARE_XY_VALUES) {
            lemma_value_exact::<i16>(data, at);
        } else {
            lemma_value_exact::<u16>(data, at);
        }
    } else {
        if flags.is_set(ARGS_1_AND_2_ARE_XY_VALUES) {
            lemma_value_exact::<i8>(data, at);
        } else {
            lemma_value_exact::<u8>(data, at);
        }
    }
}

/// What was decoded is what the bytes hold: where a component was decoded,
/// `data` holds its wire form, and the component ends where the wire form
/// ends.
pub proof fn lemma_component_exact(data: Seq<u8>, at: int)
    requires
        0 <= at,
    ensures
        parse_component(data, at) matches Ok((component, end)) ==> holds(
            data,
            at,
            component.wire(),
        ) && end == at + component.wire().len(),
{
    if let Ok((c, end)) = parse_component(data, at) {
        let flags = c.flags;
        let width = argument_width(flags);
        let transform = at + 4 + 2 * width;
        let one = flags.is_set(WE_HAVE_SCALE);
        let two = !one && flags.is_set(WE_HAVE_X_AND_Y_SCALE);
        let four = !one && !two && flags.is_set(WE_HAVE_A_TWO_BY_TWO);
        lemma_value_exact::<u16>(data, at);
        lemma_value_exact::<u16>(data, at + 2);
        lemma_argument_exact(data, at + 4, flags);
        lemma_argument_exact(data, at + 4 + width, flags);
        lemma_scale_exact(data, transform, one);
        lemma_scale_exact(data, transform, two || four);
        lemma_scale_exact(data, transform + 2, four);
        lemma_scale_exact(data, transform + 4, four);
        lemma_scale_exact(data, if four { transform + 6 } else { transform + 2 }, two || four);
        let b0 = c.flags.wire();
        lemma_holds_join(data, at, b0, c.glyph_index.wire());
        let b1 = b0 + c.glyph_index.wire();
        lemma_holds_join(data, at, b1, c.argument1.wire());
        let b2 = b1 + c.argument1.wire();
        lemma_holds_join(data, at, b2, c.argument2.wire());
        let b3 = b2 + c.argument2.wire();
        lemma_holds_join(data, at, b3, c.scale.wire());
        let b4 = b3 + c.scale.wire();
        lemma_holds_join(data, at, b4, c.x_scale.wire());
        let b5 = b4 + c.x_scale.wire();
        lemma_holds_join(data, at, b5, c.scale_01.wire());
        let b6 = b5 + c.scale_01.wire();
        lemma_holds_join(data, at, b6, c.scale_10.wire());
        let b7 = b6 + c.scale_10.wire();
        lemma_holds_join(data, at, b7, c.y_scale.wire());
    }
}

/// Where a chain of components was decoded, `data` holds the wire forms of
/// the components one after another.
pub proof fn lemma_components_exact(data: Seq<u8>, at: int)
    requires
        0 <= at,
    ensures
        parse_components(data, at) matches Ok((components, end)) ==> holds(
            data,
            at,
            concat_wire(components),
        ) && end == at + concat_wire(components).len(),
    decreases data.len() - at,
{
    if let Ok((component, next)) = parse_component(data, at) {
        lemma_component_exact(data, at);
        lemma_concat_wire_one(component);
        if component.flags.is_set(MORE_COMPONENTS) {
            lemma_components_exact(data, next);
            if let Ok((rest, end)) = parse_components(data, next) {
                lemma_concat_wire_add(seq![component], rest);
                lemma_holds_join(data, at, component.wire(), concat_wire(rest));
            }
        }
    }
}

/// What was decoded is what the bytes hold: where a compound glyph was
/// decoded, `data` holds its wire form, and the glyph ends where the wire
/// form ends.
pub proof fn lemma_compound_exact(data: Seq<u8>, at: int)
    requires
        0 <= at,
    ensures
        parse_compound(data, at) matches Ok((glyph, end)) ==> holds(data, at, glyph.wire())
            && end == at + glyph.wire().len(),
{
    if let Ok((glyph, end)) = parse_compound(data, at) {
        lemma_components_exact(data, at);
        let chain = concat_wire(glyph.components);
        let behind = at + chain.len();
        if glyph.components.last().flags.is_set(WE_HAVE_INSTRUCTIONS) {
            lemma_value_exact::<u16>(data, behind);
            let length = value_at::<u16>(data, behind);
            lemma_items_exact::<u8>(data, behind + 2, length as int);
            lemma_holds_join(data, at, chain, glyph.instruction_length.wire());
            lemma_holds_join(
                data,
                at,
                chain + glyph.instruction_length.wire(),
                concat_wire(glyph.instructions->Present_0),
            );
        } else {
            assert(glyph.wire() =~= chain);
        }
    }
}

/// Two streams that hold the same bytes give the same argument.
proof fn lemma_argument_same(
    data: Seq<u8>,
    at: int,
    other: Seq<u8>,
    to: int,
    len: int,
    flags: u16,
)
    requires
        same_bytes(data, at, other, to, len),
        argument_width(flags) <= len,
    ensures
        fits(other, to, argument_width(flags)),
        argument_at(other, to, flags) == argument_at(data, at, flags),
{
    if flags.is_set(ARGS_1_AND_2_ARE_WORDS) {
        lemma_same_value::<i16>(data, at, other, to, len);
        lemma_same_value::<u16>(data, at, other, to, len);
    } else {
        lemma_same_value::<i8>(data, at, other, to, len);
        lemma_same_value::<u8>(data, at, other, to, len);
    }
}

/// Two streams that hold the same bytes give the same scale.
proof fn lemma_scale_same(
    data: Seq<u8>,
    at: int,
    other: Seq<u8>,
    to: int,
    len: int,
    k: int,
    present: bool,
)
    requires
        same_bytes(data, at, other, to, len),
        0 <= k,
        present ==> k + 2 <= len,
    ensures
        scale_at(other, to + k, present) == scale_at(data, at + k, present),
{
    if present {
        lemma_same_bytes_skip(data, at, other, to, len, k);
        lemma_same_value::<ShortFrac>(data, at + k, other, to + k, len - k);
    }
}

/// Decoding a component depends on the bytes read only: two streams that
/// hold the same bytes give the same component.
proof fn lemma_component_same(data: Seq<u8>, at: int, other: Seq<u8>, to: int, len: int)
    requires
        same_bytes(data, at, other, to, len),
        parse_component(data, at) matches Ok((_, end)) && end <= at + len,
    ensures
        parse_component(other, to) == Ok::<(ComponentGlyph, int), Error>(
            (parse_component(data, at)->Ok_0.0, to + parse_component(data, at)->Ok_0.1 - at),
        ),
{
    let flags = value_at::<u16>(data, at);
    let width = argument_width(flags);
    let transform = 4 + 2 * width;
    let one = flags.is_set(WE_HAVE_SCALE);
    let two = !one && flags.is_set(WE_HAVE_X_AND_Y_SCALE);
    let four = !one && !two && flags.is_set(WE_HAVE_A_TWO_BY_TWO);
    lemma_same_value::<u16>(data, at, other, to, len);
    lemma_same_bytes_skip(data, at, other, to, len, 2);
    lemma_same_value::<u16>(data, at + 2, other, to + 2, len - 2);
    lemma_same_bytes_skip(data, at, other, to, len, 4);
    lemma_argument_same(data, at + 4, other, to + 4, len - 4, flags);
    lemma_same_bytes_skip(data, at, other, to, len, 4 + width);
    lemma_argument_same(data, at + 4 + width, other, to + 4 + width, len - 4 - width, flags);
    lemma_scale_same(data, at, other, to, len, transform, one);
    lemma_scale_same(data, at, other, to, len, transform, two || four);
    lemma_scale_same(data, at, other, to, len, transform + 2, four);
    lemma_scale_same(data, at, other, to, len, transform + 4, four);
    lemma_scale_same(
        data,
        at,
        other,
        to,
        len,
        if four { transform + 6 } else { transform + 2 },
        two || four,
    );
}

/// Decoding a chain of components depends on the bytes read only.
proof fn lemma_components_same(data: Seq<u8>, at: int, other: Seq<u8>, to: int, len: int)
    requires
        same_bytes(data, at, other, to, len),
        parse_components(data, at) matches Ok((_, end)) && end <= at + len,
    ensures
        parse_components(other, to) == Ok::<(Seq<ComponentGlyph>, int), Error>(
            (parse_components(data, at)->Ok_0.0, to + parse_components(data, at)->Ok_0.1 - at),
        ),
    decreases data.len() - at,
{
    let component = parse_component(data, at)->Ok_0.0;
    let next = parse_component(data, at)->Ok_0.1;
    if component.flags.is_set(MORE_COMPONENTS) {
        lemma_parse_components(data, next);
        lemma_component_same(data, at, other, to, len);
        lemma_same_bytes_skip(data, at, other, to, len, next - at);
        lemma_components_same(data, next, other, to + next - at, len - (next - at));
    } else {
        lemma_component_same(data, at, other, to, len);
    }
}

/// Decoding a compound glyph depends on the bytes read only: two streams
/// that hold the same bytes give the same glyph.
pub proof fn lemma_compound_same(data: Seq<u8>, at: int, other: Seq<u8>, to: int, len: int)
    requires
        same_bytes(data, at, other, to, len),
        parse_compound(data, at) matches Ok((_, end)) && end <= at + len,
    ensures
        parse_compound(other, to) == Ok::<(CompoundGlyphModel, int), Error>(
            (parse_compound(data, at)->Ok_0.0, to + parse_compound(data, at)->Ok_0.1 - at),
        ),
{
    let components = parse_components(data, at)->Ok_0.0;
    let end = parse_components(data, at)->Ok_0.1;
    lemma_parse_components(data, at);
    lemma_components_same(data, at, other, to, len);
    if components.last().flags.is_set(WE_HAVE_INSTRUCTIONS) {
        let length = value_at::<u16>(data, end);
        lemma_same_bytes_skip(data, at, other, to, len, end - at);
        lemma_same_value::<u16>(data, end, other, to + end - at, len - (end - at));
        lemma_same_bytes_skip(data, at, other, to, len, end - at + 2);
        lemma_same_items::<u8>(
            data,
            end + 2,
            other,
            to + end - at + 2,
            len - (end - at) - 2,
            length as int,
        );
    }
}

} // verus!
