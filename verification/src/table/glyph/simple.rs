//! Simple glyphs: outlines given by their own points.

use crate::error::{end_of_stream, DecodeError, Error};
use crate::table::glyph::coord::Coord;
use crate::utils::bitflag::BitFlag;
use crate::utils::codec::{value_at, Encode};
use crate::utils::reader::{
    fits, holds, items_at, lemma_holds_join, lemma_items_exact, lemma_same_bytes_skip,
    lemma_same_items, lemma_same_value, lemma_same_window, lemma_value_exact, same_bytes, window,
    ReadSeq, Stream, TryFromStream,
};
use crate::utils::types::{concat_wire, lemma_bytes_wire, Sequence};
use vstd::prelude::*;

verus! {

/// Bit 1 of a point flag: the x coordinate is one unsigned byte.
pub const X_SHORT_VECTOR: u8 = 1;

/// Bit 2 of a point flag: the y coordinate is one unsigned byte.
pub const Y_SHORT_VECTOR: u8 = 2;

/// Bit 3 of a point flag: the next byte says how often the flag is repeated.
pub const REPEAT: u8 = 3;

/// Bit 4 of a point flag: the short x coordinate is positive, or the long one
/// is the same as that of the point before.
pub const X_SAME_OR_POSITIVE: u8 = 4;

/// Bit 5 of a point flag: the short y coordinate is positive, or the long one
/// is the same as that of the point before.
pub const Y_SAME_OR_POSITIVE: u8 = 5;

/// The flag `flag` once for itself and `count` times more.
pub open spec fn flag_run(flag: u8, count: u8) -> Seq<u8> {
    Seq::new((count + 1) as nat, |i: int| flag)
}

/// The number of points that have no flag yet.
pub open spec fn points_left(points: int, flags: int) -> nat {
    if flags < points {
        (points - flags) as nat
    } else {
        0
    }
}

/// What reading point flags at offset `at` gives, after the flags `logical`
/// were read, until there is a flag for each of `points` points: the flags,
/// one for each point, and the offset behind the last byte read.
///
/// A flag with the repeat bit is followed by a count and stands for itself
/// and for that many more points, also where this gives more flags than
/// `points`.
pub open spec fn expand_flags(data: Seq<u8>, at: int, points: int, logical: Seq<u8>) -> Result<
    (Seq<u8>, int),
    Error,
>
    decreases points_left(points, logical.len() as int),
{
    if logical.len() >= points {
        Ok((logical, at))
    } else if !fits(data, at, 1) {
        Err(end_of_stream())
    } else {
        let flag = value_at::<u8>(data, at);
        if flag.is_set(REPEAT) {
            if !fits(data, at + 1, 1) {
                Err(end_of_stream())
            } else {
                let count = value_at::<u8>(data, at + 1);
                expand_flags(data, at + 2, points, logical + flag_run(flag, count))
            }
        } else {
            expand_flags(data, at + 1, points, logical.push(flag))
        }
    }
}

/// What reading the flags of `points` points at offset `at` gives: the flags
/// as stored, the flags one for each point, and the offset behind them.
pub open spec fn parse_flags(data: Seq<u8>, at: int, points: int) -> Result<
    (Seq<u8>, Seq<u8>, int),
    Error,
> {
    match expand_flags(data, at, points, Seq::empty()) {
        Err(e) => Err(e),
        Ok((logical, end)) => Ok((window(data, at, end - at), logical, end)),
    }
}

/// Reading the flags of `points` points gives a flag for every point. It
/// gives more flags than points only where the last flag stored is repeated
/// beyond the last point, and then less than 256 more: where the last flag
/// has no repeat bit, the number of flags is the number of points.
pub proof fn lemma_parse_flags_len(data: Seq<u8>, at: int, points: int)
    requires
        0 <= points,
    ensures
        parse_flags(data, at, points) matches Ok((stored, logical, end)) ==> {
            &&& points <= logical.len() <= points + 255
            &&& logical.len() > points ==> logical.last().is_set(REPEAT)
            &&& at <= end
        },
{
    lemma_expand_flags_len(data, at, points, Seq::empty());
}

/// Flags that were read are at least as many as the points; they are more
/// only where the last flag was repeated, and then by less than 256.
proof fn lemma_expand_flags_len(data: Seq<u8>, at: int, points: int, logical: Seq<u8>)
    requires
        logical.len() <= points + 255,
        logical.len() > points && logical.len() > 0 ==> logical.last().is_set(REPEAT),
    ensures
        expand_flags(data, at, points, logical) matches Ok((flags, end)) ==> {
            &&& points <= flags.len() <= points + 255
            &&& flags.len() > points && flags.len() > 0 ==> flags.last().is_set(REPEAT)
            &&& at <= end
            &&& at <= data.len() ==> end <= data.len()
            &&& 0 <= at < end ==> end <= data.len()
        },
    decreases points_left(points, logical.len() as int),
{
    if logical.len() < points && fits(data, at, 1) {
        let flag = value_at::<u8>(data, at);
        if flag.is_set(REPEAT) {
            if fits(data, at + 1, 1) {
                let count = value_at::<u8>(data, at + 1);
                let next = logical + flag_run(flag, count);
                assert(next.last() == flag);
                lemma_expand_flags_len(data, at + 2, points, next);
            }
        } else {
            let next = logical.push(flag);
            assert(next.last() == flag);
            lemma_expand_flags_len(data, at + 1, points, next);
        }
    }
}

/// Reads the flags of `points` points: the flags as stored, and the flags
/// one for each point.
pub fn parse_outline_flags(points: u32, stream: &mut Stream<'_>) -> (r: Result<
    (Sequence<u8>, Vec<u8>),
    Error,
>)
    ensures
        final(stream).bytes() == old(stream).bytes(),
        match r {
            Ok((flags, logical)) => parse_flags(
                old(stream).bytes(),
                old(stream).cursor(),
                points as int,
            ) == Ok::<(Seq<u8>, Seq<u8>, int), Error>((flags@, logical@, final(stream).cursor())),
            Err(e) => parse_flags(old(stream).bytes(), old(stream).cursor(), points as int) == Err::<
                (Seq<u8>, Seq<u8>, int),
                Error,
            >(e),
        },
{
    let ghost data = stream.bytes();
    let ghost start = stream.cursor();
    proof {
        stream.lemma_cursor_range();
    }
    let mut flags: Vec<u8> = Vec::new();
    let mut logical: Vec<u8> = Vec::new();
    assert(flags@ =~= window(data, start, 0));
    while logical.len() < points as usize
        invariant
            stream.bytes() == data,
            old(stream).bytes() == data,
            old(stream).cursor() == start,
            0 <= start <= stream.cursor(),
            flags@ == window(data, start, stream.cursor() - start),
            stream.cursor() > start ==> stream.cursor() <= data.len(),
            expand_flags(data, start, points as int, Seq::empty()) == expand_flags(
                data,
                stream.cursor(),
                points as int,
                logical@,
            ),
        decreases points_left(points as int, logical@.len() as int),
    {
        let ghost at = stream.cursor();
        let ghost before = logical@;
        let flag: u8 = u8::try_from_stream(stream)?;
        flags.push(flag);
        assert(flags@ =~= window(data, start, at + 1 - start));
        if flag.has(REPEAT) {
            let count: u8 = u8::try_from_stream(stream)?;
            flags.push(count);
            assert(flags@ =~= window(data, start, at + 2 - start));
            logical.push(flag);
            let mut k: u8 = 0;
            while k < count
                invariant
                    k <= count,
                    logical@ == before + Seq::new((k + 1) as nat, |i: int| flag),
                decreases count - k,
            {
                logical.push(flag);
                k = k + 1;
                assert(logical@ =~= before + Seq::new((k + 1) as nat, |i: int| flag));
            }
        } else {
            logical.push(flag);
        }
    }
    Ok((Sequence(flags), logical))
}

/// The change of a coordinate that the stored value `stored` stands for under
/// the flag `flag`; no stored value stands for no change.
pub open spec fn delta_of(stored: Option<Coord>, flag: u8, sign_bit: u8) -> int {
    match stored {
        Some(Coord::UInt8(magnitude)) => if flag.is_set(sign_bit) {
            magnitude as int
        } else {
            -(magnitude as int)
        },
        Some(Coord::Int16(value)) => value as int,
        _ => 0,
    }
}

/// The coordinate of a point with flag `flag` as `data` stores it at `at`:
/// one unsigned byte where the size bit is set; two signed bytes where the
/// size bit and the sign bit are clear; nothing where only the sign bit is
/// set.
pub open spec fn stored_coordinate(
    data: Seq<u8>,
    at: int,
    flag: u8,
    size_bit: u8,
    sign_bit: u8,
) -> Result<(Option<Coord>, int), Error> {
    if flag.is_set(size_bit) {
        if !fits(data, at, 1) {
            Err(end_of_stream())
        } else {
            Ok((Some(Coord::UInt8(value_at::<u8>(data, at))), at + 1))
        }
    } else if !flag.is_set(sign_bit) {
        if !fits(data, at, 2) {
            Err(end_of_stream())
        } else {
            Ok((Some(Coord::Int16(value_at::<i16>(data, at))), at + 2))
        }
    } else {
        Ok((None, at))
    }
}

/// What reading one coordinate for each flag of `flags` at offset `at` gives:
/// the coordinates as stored, the change of the coordinate at each point, and
/// the offset behind the last byte read.
pub open spec fn parse_deltas(
    data: Seq<u8>,
    at: int,
    flags: Seq<u8>,
    size_bit: u8,
    sign_bit: u8,
) -> Result<(Seq<Coord>, Seq<i16>, int), Error>
    decreases flags.len(),
{
    if flags.len() == 0 {
        Ok((Seq::empty(), Seq::empty(), at))
    } else {
        match parse_deltas(data, at, flags.drop_last(), size_bit, sign_bit) {
            Err(e) => Err(e),
            Ok((stored, deltas, next)) => match stored_coordinate(
                data,
                next,
                flags.last(),
                size_bit,
                sign_bit,
            ) {
                Err(e) => Err(e),
                Ok((coordinate, end)) => Ok(
                    (
                        match coordinate {
                            Some(c) => stored.push(c),
                            None => stored,
                        },
                        deltas.push(delta_of(coordinate, flags.last(), sign_bit) as i16),
                        end,
                    ),
                ),
            },
        }
    }
}

/// A failure on the first `n` flags is the failure on all of them.
proof fn lemma_parse_deltas_keeps_failure(
    data: Seq<u8>,
    at: int,
    flags: Seq<u8>,
    size_bit: u8,
    sign_bit: u8,
    n: int,
)
    requires
        0 <= n <= flags.len(),
        parse_deltas(data, at, flags.take(n), size_bit, sign_bit) is Err,
    ensures
        parse_deltas(data, at, flags, size_bit, sign_bit) == parse_deltas(
            data,
            at,
            flags.take(n),
            size_bit,
            sign_bit,
        ),
    decreases flags.len() - n,
{
    if n == flags.len() {
        assert(flags.take(n) =~= flags);
    } else {
        assert(flags.take(n + 1).drop_last() =~= flags.take(n));
        lemma_parse_deltas_keeps_failure(data, at, flags, size_bit, sign_bit, n + 1);
    }
}

/// There is one change for each flag, and no more stored coordinates.
pub proof fn lemma_parse_deltas_len(
    data: Seq<u8>,
    at: int,
    flags: Seq<u8>,
    size_bit: u8,
    sign_bit: u8,
)
    ensures
        parse_deltas(data, at, flags, size_bit, sign_bit) matches Ok((stored, deltas, end)) ==> {
            &&& deltas.len() == flags.len()
            &&& stored.len() <= flags.len()
            &&& at <= end
            &&& at <= data.len() ==> end <= data.len()
        },
    decreases flags.len(),
{
    if flags.len() > 0 {
        lemma_parse_deltas_len(data, at, flags.drop_last(), size_bit, sign_bit);
    }
}

/// Reads one coordinate for each flag of `flags`: the coordinates as stored,
/// and the change of the coordinate at each point.
pub fn parse_coordinates(
    flags: &[u8],
    stream: &mut Stream<'_>,
    size_flag: u8,
    sign_flag: u8,
) -> (r: Result<(Sequence<Coord>, Vec<i16>), Error>)
    requires
        size_flag < 8,
        sign_flag < 8,
    ensures
        final(stream).bytes() == old(stream).bytes(),
        match r {
            Ok((stored, deltas)) => parse_deltas(
                old(stream).bytes(),
                old(stream).cursor(),
                flags@,
                size_flag,
                sign_flag,
            ) == Ok::<(Seq<Coord>, Seq<i16>, int), Error>(
                (stored@, deltas@, final(stream).cursor()),
            ),
            Err(e) => parse_deltas(
                old(stream).bytes(),
                old(stream).cursor(),
                flags@,
                size_flag,
                sign_flag,
            ) == Err::<(Seq<Coord>, Seq<i16>, int), Error>(e),
        },
{
    let ghost data = stream.bytes();
    let ghost start = stream.cursor();
    let mut coordinates: Vec<Coord> = Vec::new();
    let mut deltas: Vec<i16> = Vec::new();
    let mut i: usize = 0;
    while i < flags.len()
        invariant
            i <= flags@.len(),
            size_flag < 8,
            sign_flag < 8,
            stream.bytes() == data,
            old(stream).bytes() == data,
            old(stream).cursor() == start,
            parse_deltas(data, start, flags@.take(i as int), size_flag, sign_flag) == Ok::<
                (Seq<Coord>, Seq<i16>, int),
                Error,
            >((coordinates@, deltas@, stream.cursor())),
        decreases flags@.len() - i,
    {
        let flag: u8 = flags[i];
        proof {
            assert(flags@.take(i + 1).drop_last() =~= flags@.take(i as int));
            assert(flags@.take(i + 1).last() == flag);
        }
        let ghost at = stream.cursor();
        if flag.has(size_flag) {
            let magnitude: u8 = match u8::try_from_stream(stream) {
                Ok(magnitude) => magnitude,
                Err(e) => {
                    proof {
                        lemma_parse_deltas_keeps_failure(
                            data,
                            start,
                            flags@,
                            size_flag,
                            sign_flag,
                            i + 1,
                        );
                    }
                    return Err(e);
                },
            };
            coordinates.push(Coord::UInt8(magnitude));
            if flag.has(sign_flag) {
                deltas.push(magnitude as i16);
            } else {
                deltas.push(-(magnitude as i16));
            }
        } else if !flag.has(sign_flag) {
            let value: i16 = match i16::try_from_stream(stream) {
                Ok(value) => value,
                Err(e) => {
                    proof {
                        lemma_parse_deltas_keeps_failure(
                            data,
                            start,
                            flags@,
                            size_flag,
                            sign_flag,
                            i + 1,
                        );
                    }
                    return Err(e);
                },
            };
            coordinates.push(Coord::Int16(value));
            deltas.push(value);
        } else {
            deltas.push(0);
        }
        i = i + 1;
    }
    assert(flags@.take(i as int) =~= flags@);
    Ok((Sequence(coordinates), deltas))
}

/// A glyph given by the points of its contours.
///
/// The flags and coordinates are kept twice: as they are stored, which is
/// what encoding writes, and resolved to one flag and one change of each
/// coordinate for every point.
#[derive(Debug, Clone, PartialEq, Eq)]
pub struct SimpleGlyph {
    /// For each contour, the number of its last point.
    pub end_pts_of_contours: Sequence<u16>,
    pub instruction_length: u16,
    pub instructions: Sequence<u8>,
    /// The flags as stored, repeat counts included.
    pub flags: Sequence<u8>,
    /// The x coordinates as stored: only those that take bytes.
    pub x_coordinates: Sequence<Coord>,
    /// The y coordinates as stored: only those that take bytes.
    pub y_coordinates: Sequence<Coord>,
    /// One flag for each point.
    pub logical_flags: Vec<u8>,
    /// For each point, how far its x coordinate is from that of the point before.
    pub x_deltas: Vec<i16>,
    /// For each point, how far its y coordinate is from that of the point before.
    pub y_deltas: Vec<i16>,
}

/// The mathematical value of a [`SimpleGlyph`].
pub struct SimpleGlyphModel {
    pub end_pts_of_contours: Seq<u16>,
    pub instruction_length: u16,
    pub instructions: Seq<u8>,
    pub flags: Seq<u8>,
    pub x_coordinates: Seq<Coord>,
    pub y_coordinates: Seq<Coord>,
    pub logical_flags: Seq<u8>,
    pub x_deltas: Seq<i16>,
    pub y_deltas: Seq<i16>,
}

impl View for SimpleGlyph {
    type V = SimpleGlyphModel;

    open spec fn view(&self) -> SimpleGlyphModel {
        SimpleGlyphModel {
            end_pts_of_contours: self.end_pts_of_contours@,
            instruction_length: self.instruction_length,
            instructions: self.instructions@,
            flags: self.flags@,
            x_coordinates: self.x_coordinates@,
            y_coordinates: self.y_coordinates@,
            logical_flags: self.logical_flags@,
            x_deltas: self.x_deltas@,
            y_deltas: self.y_deltas@,
        }
    }
}

/// The number of points of a glyph whose contours end at `end_points`: one
/// more than the number of the last point, and one where there is no contour.
pub open spec fn point_count(end_points: Seq<u16>) -> int {
    if end_points.len() == 0 {
        1
    } else {
        end_points.last() + 1
    }
}

/// The sum of the first `n` items of `deltas`.
pub open spec fn sum_of(deltas: Seq<i16>, n: int) -> int
    decreases n,
{
    if n <= 0 {
        0
    } else {
        sum_of(deltas, n - 1) + deltas[n - 1]
    }
}

/// The coordinate of each point, given how far each is from the one before;
/// the point before the first lies at 0.
pub open spec fn resolved(deltas: Seq<i16>) -> Seq<i64> {
    Seq::new(deltas.len(), |i: int| sum_of(deltas, i + 1) as i64)
}

/// A sum of `n` changes lies within `n` times the range of one change.
pub proof fn lemma_sum_of_range(deltas: Seq<i16>, n: int)
    requires
        0 <= n <= deltas.len(),
    ensures
        -0x8000 * n <= sum_of(deltas, n) <= 0x7fff * n,
    decreases n,
{
    if n > 0 {
        lemma_sum_of_range(deltas, n - 1);
    }
}

/// The coordinate of each point, summed up from the changes `deltas`.
pub fn resolve_points(deltas: &[i16]) -> (points: Vec<i64>)
    requires
        deltas@.len() <= 0x1_0000_0000_0000,
    ensures
        points@ == resolved(deltas@),
{
    let mut points: Vec<i64> = Vec::new();
    let mut position: i64 = 0;
    let mut i: usize = 0;
    while i < deltas.len()
        invariant
            i <= deltas@.len(),
            deltas@.len() <= 0x1_0000_0000_0000,
            position == sum_of(deltas@, i as int),
            points@ == resolved(deltas@).take(i as int),
        decreases deltas@.len() - i,
    {
        proof {
            lemma_sum_of_range(deltas@, i as int);
            lemma_sum_of_range(deltas@, i + 1);
        }
        position = position + deltas[i] as i64;
        points.push(position);
        i = i + 1;
        assert(points@ =~= resolved(deltas@).take(i as int));
    }
    assert(resolved(deltas@).take(i as int) =~= resolved(deltas@));
    points
}

impl SimpleGlyphModel {
    /// The instructions are as long as their length says; there is a flag and
    /// a change of each coordinate for every point, and at least as many
    /// points as the contours need.
    pub open spec fn wf(self) -> bool {
        &&& self.instructions.len() == self.instruction_length
        &&& point_count(self.end_pts_of_contours) <= self.logical_flags.len() <= point_count(
            self.end_pts_of_contours,
        ) + 255
        &&& self.x_deltas.len() == self.logical_flags.len()
        &&& self.y_deltas.len() == self.logical_flags.len()
        &&& self.x_coordinates.len() <= self.logical_flags.len()
        &&& self.y_coordinates.len() <= self.logical_flags.len()
    }

    /// The bytes of the glyph behind its header.
    pub open spec fn wire(self) -> Seq<u8> {
        concat_wire(self.end_pts_of_contours) + self.instruction_length.wire() + concat_wire(
            self.instructions,
        ) + concat_wire(self.flags) + concat_wire(self.x_coordinates) + concat_wire(
            self.y_coordinates,
        )
    }
}

/// What decoding a simple glyph of `contours` contours behind its header, at
/// offset `at`, gives. A negative number of contours is an error.
pub open spec fn parse_simple(data: Seq<u8>, at: int, contours: i16) -> Result<
    (SimpleGlyphModel, int),
    Error,
> {
    let length_at = at + 2 * contours;
    if contours < 0 {
        Err(Error::DecodeError(DecodeError::InvalidLength))
    } else if !fits(data, at, 2 * contours) {
        Err(end_of_stream())
    } else if !fits(data, length_at, 2) {
        Err(end_of_stream())
    } else {
        let end_points = items_at::<u16>(data, at, contours as int);
        let instruction_length = value_at::<u16>(data, length_at);
        let flags_at = length_at + 2 + instruction_length;
        if !fits(data, length_at + 2, instruction_length as int) {
            Err(end_of_stream())
        } else {
            match parse_flags(data, flags_at, point_count(end_points)) {
                Err(e) => Err(e),
                Ok((flags, logical, x_at)) => match parse_deltas(
                    data,
                    x_at,
                    logical,
                    X_SHORT_VECTOR,
                    X_SAME_OR_POSITIVE,
                ) {
                    Err(e) => Err(e),
                    Ok((x_coordinates, x_deltas, y_at)) => match parse_deltas(
                        data,
                        y_at,
                        logical,
                        Y_SHORT_VECTOR,
                        Y_SAME_OR_POSITIVE,
                    ) {
                        Err(e) => Err(e),
                        Ok((y_coordinates, y_deltas, end)) => Ok(
                            (
                                SimpleGlyphModel {
                                    end_pts_of_contours: end_points,
                                    instruction_length,
                                    instructions: items_at::<u8>(
                                        data,
                                        length_at + 2,
                                        instruction_length as int,
                                    ),
                                    flags,
                                    x_coordinates,
                                    y_coordinates,
                                    logical_flags: logical,
                                    x_deltas,
                                    y_deltas,
                                },
                                end,
                            ),
                        ),
                    },
                },
            }
        }
    }
}

/// A simple glyph that was decoded ends within the stream.
pub proof fn lemma_parse_simple_end(data: Seq<u8>, at: int, contours: i16)
    requires
        0 <= at,
    ensures
        parse_simple(data, at, contours) matches Ok((_, end)) ==> at <= end <= data.len(),
{
    if let Ok((glyph, end)) = parse_simple(data, at, contours) {
        let length_at = at + 2 * contours;
        let instruction_length = value_at::<u16>(data, length_at);
        let flags_at = length_at + 2 + instruction_length;
        let points = point_count(items_at::<u16>(data, at, contours as int));
        lemma_expand_flags_len(data, flags_at, points, Seq::empty());
        let x_at = expand_flags(data, flags_at, points, Seq::empty())->Ok_0.1;
        lemma_parse_deltas_len(data, x_at, glyph.logical_flags, X_SHORT_VECTOR, X_SAME_OR_POSITIVE);
        let y_at = parse_deltas(
            data,
            x_at,
            glyph.logical_flags,
            X_SHORT_VECTOR,
            X_SAME_OR_POSITIVE,
        )->Ok_0.2;
        lemma_parse_deltas_len(data, y_at, glyph.logical_flags, Y_SHORT_VECTOR, Y_SAME_OR_POSITIVE);
    }
}

impl SimpleGlyph {
    /// Decodes a simple glyph of `contours` contours behind its header.
    pub fn try_from_params(contours: i16, stream: &mut Stream<'_>) -> (r: Result<Self, Error>)
        ensures
            final(stream).bytes() == old(stream).bytes(),
            match r {
                Ok(v) => parse_simple(old(stream).bytes(), old(stream).cursor(), contours) == Ok::<
                    (SimpleGlyphModel, int),
                    Error,
                >((v@, final(stream).cursor())) && v@.wf(),
                Err(e) => parse_simple(old(stream).bytes(), old(stream).cursor(), contours) == Err::<
                    (SimpleGlyphModel, int),
                    Error,
                >(e),
            },
    {
        let ghost data = stream.bytes();
        proof {
            stream.lemma_cursor_range();
        }
        if contours < 0 {
            return Err(Error::DecodeError(DecodeError::InvalidLength));
        }
        let end_pts_of_contours: Sequence<u16> = stream.read_seq(contours as usize)?;
        let instruction_length: u16 = u16::try_from_stream(stream)?;
        let instructions: Sequence<u8> = stream.read_seq(instruction_length as usize)?;
        let points: u32 = if end_pts_of_contours.len() == 0 {
            1
        } else {
            end_pts_of_contours.as_slice()[end_pts_of_contours.len() - 1] as u32 + 1
        };
        let ghost flags_at = stream.cursor();
        let (flags, logical_flags) = parse_outline_flags(points, stream)?;
        let ghost x_at = stream.cursor();
        let (x_coordinates, x_deltas) = parse_coordinates(
            logical_flags.as_slice(),
            stream,
            X_SHORT_VECTOR,
            X_SAME_OR_POSITIVE,
        )?;
        let ghost y_at = stream.cursor();
        let (y_coordinates, y_deltas) = parse_coordinates(
            logical_flags.as_slice(),
            stream,
            Y_SHORT_VECTOR,
            Y_SAME_OR_POSITIVE,
        )?;
        proof {
            lemma_expand_flags_len(data, flags_at, points as int, Seq::empty());
            lemma_parse_deltas_len(data, x_at, logical_flags@, X_SHORT_VECTOR, X_SAME_OR_POSITIVE);
            lemma_parse_deltas_len(data, y_at, logical_flags@, Y_SHORT_VECTOR, Y_SAME_OR_POSITIVE);
        }
        Ok(
            SimpleGlyph {
                end_pts_of_contours,
                instruction_length,
                instructions,
                flags,
                x_coordinates,
                y_coordinates,
                logical_flags,
                x_deltas,
                y_deltas,
            },
        )
    }

    /// The x coordinate of each point.
    pub fn x_points(&self) -> (points: Vec<i64>)
        requires
            self@.x_deltas.len() <= 0x1_0000_0000_0000,
        ensures
            points@ == resolved(self@.x_deltas),
    {
        resolve_points(self.x_deltas.as_slice())
    }

    /// The y coordinate of each point.
    pub fn y_points(&self) -> (points: Vec<i64>)
        requires
            self@.y_deltas.len() <= 0x1_0000_0000_0000,
        ensures
            points@ == resolved(self@.y_deltas),
    {
        resolve_points(self.y_deltas.as_slice())
    }
}

impl Encode for SimpleGlyph {
    open spec fn wire(&self) -> Seq<u8> {
        self@.wire()
    }

    fn encode(&self, out: &mut Vec<u8>) {
        self.end_pts_of_contours.encode(out);
        self.instruction_length.encode(out);
        self.instructions.encode(out);
        self.flags.encode(out);
        self.x_coordinates.encode(out);
        self.y_coordinates.encode(out);
        assert(out@ =~= old(out)@ + self.wire());
    }
}

/// Where coordinates were read, `data` holds the wire forms of the stored
/// coordinates one after another.
pub proof fn lemma_deltas_exact(data: Seq<u8>, at: int, flags: Seq<u8>, size_bit: u8, sign_bit: u8)
    requires
        0 <= at,
    ensures
        parse_deltas(data, at, flags, size_bit, sign_bit) matches Ok((stored, _, end)) ==> holds(
            data,
            at,
            concat_wire(stored),
        ) && end == at + concat_wire(stored).len(),
    decreases flags.len(),
{
    if flags.len() > 0 {
        lemma_deltas_exact(data, at, flags.drop_last(), size_bit, sign_bit);
        if let Ok((stored, _, end)) = parse_deltas(data, at, flags, size_bit, sign_bit) {
            let before = parse_deltas(data, at, flags.drop_last(), size_bit, sign_bit)->Ok_0;
            let next = before.2;
            match stored_coordinate(data, next, flags.last(), size_bit, sign_bit)->Ok_0.0 {
                Some(coordinate) => {
                    if flags.last().is_set(size_bit) {
                        lemma_value_exact::<u8>(data, next);
                    } else {
                        lemma_value_exact::<i16>(data, next);
                    }
                    assert(stored.drop_last() =~= before.0);
                    lemma_holds_join(data, at, concat_wire(before.0), coordinate.wire());
                },
                None => {},
            }
        }
    }
}

/// What was decoded is what the bytes hold: where a simple glyph was
/// decoded, `data` holds its wire form, and the glyph ends where the wire
/// form ends.
pub proof fn lemma_simple_exact(data: Seq<u8>, at: int, contours: i16)
    requires
        0 <= at,
    ensures
        parse_simple(data, at, contours) matches Ok((glyph, end)) ==> holds(
            data,
            at,
            glyph.wire(),
        ) && end == at + glyph.wire().len(),
{
    if let Ok((glyph, end)) = parse_simple(data, at, contours) {
        let length_at = at + 2 * contours;
        let flags_at = length_at + 2 + glyph.instruction_length;
        let points = point_count(glyph.end_pts_of_contours);
        lemma_items_exact::<u16>(data, at, contours as int);
        lemma_value_exact::<u16>(data, length_at);
        lemma_items_exact::<u8>(data, length_at + 2, glyph.instruction_length as int);
        lemma_expand_flags_len(data, flags_at, points, Seq::empty());
        let x_at = expand_flags(data, flags_at, points, Seq::empty())->Ok_0.1;
        lemma_bytes_wire(glyph.flags);
        assert(holds(data, flags_at, glyph.flags));
        lemma_deltas_exact(data, x_at, glyph.logical_flags, X_SHORT_VECTOR, X_SAME_OR_POSITIVE);
        let y_at = x_at + concat_wire(glyph.x_coordinates).len();
        lemma_deltas_exact(data, y_at, glyph.logical_flags, Y_SHORT_VECTOR, Y_SAME_OR_POSITIVE);
        let b0 = concat_wire(glyph.end_pts_of_contours);
        lemma_holds_join(data, at, b0, glyph.instruction_length.wire());
        let b1 = b0 + glyph.instruction_length.wire();
        lemma_holds_join(data, at, b1, concat_wire(glyph.instructions));
        let b2 = b1 + concat_wire(glyph.instructions);
        lemma_holds_join(data, at, b2, concat_wire(glyph.flags));
        let b3 = b2 + concat_wire(glyph.flags);
        lemma_holds_join(data, at, b3, concat_wire(glyph.x_coordinates));
        let b4 = b3 + concat_wire(glyph.x_coordinates);
        lemma_holds_join(data, at, b4, concat_wire(glyph.y_coordinates));
    }
}

/// Reading flags never moves backwards.
proof fn lemma_expand_flags_end(data: Seq<u8>, at: int, points: int, logical: Seq<u8>)
    ensures
        expand_flags(data, at, points, logical) matches Ok((_, end)) ==> at <= end,
    decreases points_left(points, logical.len() as int),
{
    if logical.len() < points && fits(data, at, 1) {
        let flag = value_at::<u8>(data, at);
        if flag.is_set(REPEAT) {
            if fits(data, at + 1, 1) {
                let count = value_at::<u8>(data, at + 1);
                lemma_expand_flags_end(data, at + 2, points, logical + flag_run(flag, count));
            }
        } else {
            lemma_expand_flags_end(data, at + 1, points, logical.push(flag));
        }
    }
}

/// Reading flags depends on the bytes read only: two streams that hold the
/// same bytes give the same flags.
proof fn lemma_expand_flags_same(
    data: Seq<u8>,
    at: int,
    other: Seq<u8>,
    to: int,
    len: int,
    points: int,
    logical: Seq<u8>,
)
    requires
        same_bytes(data, at, other, to, len),
        expand_flags(data, at, points, logical) matches Ok((_, end)) && end <= at + len,
    ensures
        expand_flags(other, to, points, logical) == Ok::<(Seq<u8>, int), Error>(
            (
                expand_flags(data, at, points, logical)->Ok_0.0,
                to + expand_flags(data, at, points, logical)->Ok_0.1 - at,
            ),
        ),
    decreases points_left(points, logical.len() as int),
{
    if logical.len() < points {
        let flag = value_at::<u8>(data, at);
        if flag.is_set(REPEAT) {
            let count = value_at::<u8>(data, at + 1);
            let next = logical + flag_run(flag, count);
            lemma_expand_flags_end(data, at + 2, points, next);
            lemma_same_value::<u8>(data, at, other, to, len);
            lemma_same_bytes_skip(data, at, other, to, len, 1);
            lemma_same_value::<u8>(data, at + 1, other, to + 1, len - 1);
            lemma_same_bytes_skip(data, at, other, to, len, 2);
            lemma_expand_flags_same(data, at + 2, other, to + 2, len - 2, points, next);
        } else {
            let next = logical.push(flag);
            lemma_expand_flags_end(data, at + 1, points, next);
            lemma_same_value::<u8>(data, at, other, to, len);
            lemma_same_bytes_skip(data, at, other, to, len, 1);
            lemma_expand_flags_same(data, at + 1, other, to + 1, len - 1, points, next);
        }
    }
}

/// Reading coordinates depends on the bytes read only: two streams that
/// hold the same bytes give the same coordinates.
proof fn lemma_deltas_same(
    data: Seq<u8>,
    at: int,
    other: Seq<u8>,
    to: int,
    len: int,
    flags: Seq<u8>,
    size_bit: u8,
    sign_bit: u8,
)
    requires
        same_bytes(data, at, other, to, len),
        parse_deltas(data, at, flags, size_bit, sign_bit) matches Ok((_, _, end)) && end <= at
            + len,
    ensures
        parse_deltas(other, to, flags, size_bit, sign_bit) == Ok::<
            (Seq<Coord>, Seq<i16>, int),
            Error,
        >(
            (
                parse_deltas(data, at, flags, size_bit, sign_bit)->Ok_0.0,
                parse_deltas(data, at, flags, size_bit, sign_bit)->Ok_0.1,
                to + parse_deltas(data, at, flags, size_bit, sign_bit)->Ok_0.2 - at,
            ),
        ),
    decreases flags.len(),
{
    if flags.len() > 0 {
        let rest = flags.drop_last();
        let next = parse_deltas(data, at, rest, size_bit, sign_bit)->Ok_0.2;
        lemma_parse_deltas_len(data, at, rest, size_bit, sign_bit);
        lemma_deltas_same(data, at, other, to, len, rest, size_bit, sign_bit);
        lemma_same_bytes_skip(data, at, other, to, len, next - at);
        if flags.last().is_set(size_bit) {
            lemma_same_value::<u8>(data, next, other, to + next - at, len - (next - at));
        } else if !flags.last().is_set(sign_bit) {
            lemma_same_value::<i16>(data, next, other, to + next - at, len - (next - at));
        }
    }
}

/// Decoding a simple glyph depends on the bytes read only: two streams that
/// hold the same bytes give the same glyph.
pub proof fn lemma_simple_same(
    data: Seq<u8>,
    at: int,
    other: Seq<u8>,
    to: int,
    len: int,
    contours: i16,
)
    requires
        same_bytes(data, at, other, to, len),
        parse_simple(data, at, contours) matches Ok((_, end)) && end <= at + len,
    ensures
        parse_simple(other, to, contours) == Ok::<(SimpleGlyphModel, int), Error>(
            (
                parse_simple(data, at, contours)->Ok_0.0,
                to + parse_simple(data, at, contours)->Ok_0.1 - at,
            ),
        ),
{
    let glyph = parse_simple(data, at, contours)->Ok_0.0;
    let end = parse_simple(data, at, contours)->Ok_0.1;
    let length_in = 2 * contours;
    let flags_in = length_in + 2 + glyph.instruction_length;
    let points = point_count(glyph.end_pts_of_contours);
    let x_at = expand_flags(data, at + flags_in, points, Seq::empty())->Ok_0.1;
    let y_at = parse_deltas(
        data,
        x_at,
        glyph.logical_flags,
        X_SHORT_VECTOR,
        X_SAME_OR_POSITIVE,
    )->Ok_0.2;
    lemma_expand_flags_end(data, at + flags_in, points, Seq::empty());
    lemma_parse_deltas_len(data, x_at, glyph.logical_flags, X_SHORT_VECTOR, X_SAME_OR_POSITIVE);
    lemma_parse_deltas_len(data, y_at, glyph.logical_flags, Y_SHORT_VECTOR, Y_SAME_OR_POSITIVE);
    lemma_same_items::<u16>(data, at, other, to, len, contours as int);
    lemma_same_bytes_skip(data, at, other, to, len, length_in);
    lemma_same_value::<u16>(data, at + length_in, other, to + length_in, len - length_in);
    lemma_same_bytes_skip(data, at, other, to, len, length_in + 2);
    lemma_same_items::<u8>(
        data,
        at + length_in + 2,
        other,
        to + length_in + 2,
        len - length_in - 2,
        glyph.instruction_length as int,
    );
    lemma_same_bytes_skip(data, at, other, to, len, flags_in);
    lemma_expand_flags_same(
        data,
        at + flags_in,
        other,
        to + flags_in,
        len - flags_in,
        points,
        Seq::empty(),
    );
    lemma_same_window(
        data,
        at + flags_in,
        other,
        to + flags_in,
        len - flags_in,
        x_at - (at + flags_in),
    );
    lemma_same_bytes_skip(data, at, other, to, len, x_at - at);
    lemma_deltas_same(
        data,
        x_at,
        other,
        to + x_at - at,
        len - (x_at - at),
        glyph.logical_flags,
        X_SHORT_VECTOR,
        X_SAME_OR_POSITIVE,
    );
    lemma_same_bytes_skip(data, at, other, to, len, y_at - at);
    lemma_deltas_same(
        data,
        y_at,
        other,
        to + y_at - at,
        len - (y_at - at),
        glyph.logical_flags,
        Y_SHORT_VECTOR,
        Y_SAME_OR_POSITIVE,
    );
}

} // verus!
