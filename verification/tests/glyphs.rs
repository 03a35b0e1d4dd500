use sfnt_codec::error::{DecodeError, Error};
use sfnt_codec::sfnt::types::ShortFrac;
use sfnt_codec::table::glyf::Glyf;
use sfnt_codec::table::glyph::compound::{read_argument, ComponentGlyph, CompoundGlyph};
use sfnt_codec::table::glyph::simple::{
    parse_coordinates, parse_outline_flags, resolve_points, SimpleGlyph, X_SAME_OR_POSITIVE,
    X_SHORT_VECTOR, Y_SAME_OR_POSITIVE, Y_SHORT_VECTOR,
};
use sfnt_codec::table::glyph::{Coord, Glyph, GlyphData, GlyphHeader};
use sfnt_codec::table::loca::LocaFormat;
use sfnt_codec::table::tags::LOCA;
use sfnt_codec::table::{FontTable, Loca};
use sfnt_codec::utils::codec::encode;
use sfnt_codec::utils::reader::{Stream, TryFromStream};
use sfnt_codec::utils::types::{Opt, Sequence};
use std::collections::BTreeMap;

const EOF: Error = Error::DecodeError(DecodeError::UnexpectedEof);

#[test]
fn repeated_flag_stands_for_itself_and_its_count() {
    let data = [0b0000_0001u8, 0b0000_1001, 3, 0x77];
    let mut stream = Stream::new(&data);
    let (flags, logical) = parse_outline_flags(5, &mut stream).unwrap();
    assert_eq!(flags.as_slice(), &[0b0000_0001u8, 0b0000_1001, 3][..]);
    assert_eq!(
        logical,
        vec![0b0000_0001u8, 0b0000_1001, 0b0000_1001, 0b0000_1001, 0b0000_1001]
    );
    assert_eq!(stream.stream_position(), 3);
}

#[test]
fn flags_without_repeat_are_one_for_each_point() {
    let data = [0x01u8, 0x03, 0x05, 0x02, 0x99];
    let mut stream = Stream::new(&data);
    let (flags, logical) = parse_outline_flags(4, &mut stream).unwrap();
    assert_eq!(flags.as_slice(), &[0x01u8, 0x03, 0x05, 0x02][..]);
    assert_eq!(logical, vec![0x01u8, 0x03, 0x05, 0x02]);
    assert_eq!(logical.len(), 4);
}

#[test]
fn repeat_count_is_read_even_for_the_last_point() {
    let data = [0x08u8, 0, 0x55];
    let mut stream = Stream::new(&data);
    let (flags, logical) = parse_outline_flags(1, &mut stream).unwrap();
    assert_eq!(flags.as_slice(), &[0x08u8, 0][..]);
    assert_eq!(logical, vec![0x08u8]);
    assert_eq!(stream.stream_position(), 2);
}

#[test]
fn repeat_beyond_the_points_is_kept_in_full() {
    let data = [0x08u8, 5];
    let mut stream = Stream::new(&data);
    let (flags, logical) = parse_outline_flags(2, &mut stream).unwrap();
    assert_eq!(flags.as_slice(), &[0x08u8, 5][..]);
    assert_eq!(logical, vec![0x08u8; 6]);
}

#[test]
fn no_points_need_no_flags() {
    let data = [1u8, 2, 3];
    let mut stream = Stream::new(&data);
    let (flags, logical) = parse_outline_flags(0, &mut stream).unwrap();
    assert_eq!(flags.len(), 0);
    assert_eq!(logical.len(), 0);
    assert_eq!(stream.stream_position(), 0);
}

#[test]
fn flags_that_end_early_are_an_error() {
    let data = [0x01u8, 0x01];
    let mut stream = Stream::new(&data);
    assert_eq!(parse_outline_flags(3, &mut stream), Err(EOF));
    let data = [0x01u8, 0x08];
    let mut stream = Stream::new(&data);
    assert_eq!(parse_outline_flags(3, &mut stream), Err(EOF));
}

#[test]
fn largest_point_count_is_read() {
    let mut data = Vec::new();
    for _ in 0..256 {
        data.extend_from_slice(&[0x08, 255]);
    }
    let mut stream = Stream::new(&data);
    let (flags, logical) = parse_outline_flags(65536, &mut stream).unwrap();
    assert_eq!(flags.len(), 512);
    assert_eq!(logical.len(), 65536);
}

#[test]
fn coordinates_are_read_as_the_flags_say() {
    // short positive, short negative, long, same, long
    let flags = [0x12u8, 0x02, 0x00, 0x10, 0x00];
    let data = [10u8, 20, 0xff, 0x38, 0x01, 0x00, 0xee];
    let mut stream = Stream::new(&data);
    let (stored, deltas) =
        parse_coordinates(&flags, &mut stream, X_SHORT_VECTOR, X_SAME_OR_POSITIVE).unwrap();
    assert_eq!(
        stored.as_slice(),
        &[Coord::UInt8(10), Coord::UInt8(20), Coord::Int16(-200), Coord::Int16(256)][..]
    );
    assert_eq!(deltas, vec![10, -20, -200, 0, 256]);
    assert_eq!(stream.stream_position(), 6);
    assert_eq!(resolve_points(&deltas), vec![10, -10, -210, -210, 46]);
}

#[test]
fn y_coordinates_use_their_own_bits() {
    // bit 2 short, bit 5 positive
    let flags = [0x24u8, 0x04, 0x20, 0x00];
    let data = [7u8, 9, 0x80, 0x00];
    let mut stream = Stream::new(&data);
    let (stored, deltas) =
        parse_coordinates(&flags, &mut stream, Y_SHORT_VECTOR, Y_SAME_OR_POSITIVE).unwrap();
    assert_eq!(
        stored.as_slice(),
        &[Coord::UInt8(7), Coord::UInt8(9), Coord::Int16(i16::MIN)][..]
    );
    assert_eq!(deltas, vec![7, -9, 0, i16::MIN]);
    // read as x coordinates, the same flags ask for four long values
    let mut stream = Stream::new(&data);
    assert_eq!(
        parse_coordinates(&flags, &mut stream, X_SHORT_VECTOR, X_SAME_OR_POSITIVE),
        Err(EOF)
    );
}

#[test]
fn coordinates_that_end_early_are_an_error() {
    let flags = [0x02u8, 0x00];
    let data = [1u8, 2];
    let mut stream = Stream::new(&data);
    assert_eq!(
        parse_coordinates(&flags, &mut stream, X_SHORT_VECTOR, X_SAME_OR_POSITIVE),
        Err(EOF)
    );
    let mut stream = Stream::new(&data[..0]);
    assert_eq!(
        parse_coordinates(&flags, &mut stream, X_SHORT_VECTOR, X_SAME_OR_POSITIVE),
        Err(EOF)
    );
}

#[test]
fn points_are_running_sums_of_the_changes() {
    assert_eq!(resolve_points(&[]), Vec::<i64>::new());
    assert_eq!(resolve_points(&[5]), vec![5]);
    assert_eq!(resolve_points(&[i16::MAX, i16::MAX, 2]), vec![32767, 65534, 65536]);
    assert_eq!(resolve_points(&[i16::MIN, i16::MIN, -1]), vec![-32768, -65536, -65537]);
}

fn triangle_bytes() -> Vec<u8> {
    let mut bytes = vec![0, 2]; // one contour that ends at point 2
    bytes.extend_from_slice(&[0, 2, 0xb0, 0x01]); // two instruction bytes
    bytes.extend_from_slice(&[0x37, 0x33, 0x35]); // flags
    bytes.extend_from_slice(&[10, 20]); // x: +10, +20, same
    bytes.extend_from_slice(&[5, 6]); // y: +5, same, +6
    bytes
}

#[test]
fn simple_glyph_keeps_stored_and_resolved_values() {
    let bytes = triangle_bytes();
    let mut stream = Stream::new(&bytes);
    let glyph = SimpleGlyph::try_from_params(1, &mut stream).unwrap();
    assert_eq!(glyph.end_pts_of_contours.as_slice(), &[2u16][..]);
    assert_eq!(glyph.instruction_length, 2);
    assert_eq!(glyph.instructions.as_slice(), &[0xb0u8, 0x01][..]);
    assert_eq!(glyph.flags.as_slice(), &[0x37u8, 0x33, 0x35][..]);
    assert_eq!(glyph.logical_flags, vec![0x37u8, 0x33, 0x35]);
    assert_eq!(glyph.logical_flags.len(), 3);
    assert_eq!(glyph.x_coordinates.as_slice(), &[Coord::UInt8(10), Coord::UInt8(20)][..]);
    assert_eq!(glyph.y_coordinates.as_slice(), &[Coord::UInt8(5), Coord::UInt8(6)][..]);
    assert_eq!(glyph.x_deltas, vec![10, 20, 0]);
    assert_eq!(glyph.y_deltas, vec![5, 0, 6]);
    assert_eq!(glyph.x_points(), vec![10, 30, 30]);
    assert_eq!(glyph.y_points(), vec![5, 5, 11]);
    assert_eq!(stream.stream_position(), bytes.len() as u64);
    assert_eq!(encode(glyph).unwrap(), bytes);
}

#[test]
fn simple_glyph_without_contours_has_one_point() {
    let bytes = [0u8, 0, 0x31, 0xaa];
    let mut stream = Stream::new(&bytes);
    let glyph = SimpleGlyph::try_from_params(0, &mut stream).unwrap();
    assert_eq!(glyph.end_pts_of_contours.len(), 0);
    assert_eq!(glyph.logical_flags, vec![0x31u8]);
    assert_eq!(glyph.x_deltas, vec![0]);
    assert_eq!(glyph.y_deltas, vec![0]);
    assert_eq!(stream.stream_position(), 3);
}

#[test]
fn simple_glyph_with_a_negative_contour_count_is_an_error() {
    let bytes = triangle_bytes();
    let mut stream = Stream::new(&bytes);
    assert_eq!(
        SimpleGlyph::try_from_params(-1, &mut stream),
        Err(Error::DecodeError(DecodeError::InvalidLength))
    );
    assert_eq!(stream.stream_position(), 0);
}

#[test]
fn simple_glyph_that_ends_early_is_an_error() {
    let bytes = triangle_bytes();
    for cut in 0..bytes.len() {
        let mut stream = Stream::new(&bytes[..cut]);
        assert_eq!(SimpleGlyph::try_from_params(1, &mut stream), Err(EOF));
    }
}

#[test]
fn simple_glyph_with_the_last_point_number_is_read() {
    let mut bytes = vec![0xff, 0xff, 0, 0];
    for _ in 0..256 {
        bytes.extend_from_slice(&[0x38, 255]);
    }
    let mut stream = Stream::new(&bytes);
    let glyph = SimpleGlyph::try_from_params(1, &mut stream).unwrap();
    assert_eq!(glyph.logical_flags.len(), 65536);
    assert_eq!(glyph.x_coordinates.len(), 0);
    assert_eq!(glyph.x_points().len(), 65536);
}

#[test]
fn arguments_are_read_by_width_and_sign() {
    let data = [0xfeu8, 0xdc];
    let mut stream = Stream::new(&data);
    assert_eq!(read_argument(0b00, &mut stream), Ok(Coord::UInt8(0xfe)));
    assert_eq!(stream.stream_position(), 1);
    stream.seek(0);
    assert_eq!(read_argument(0b10, &mut stream), Ok(Coord::Int8(-2)));
    stream.seek(0);
    assert_eq!(read_argument(0b01, &mut stream), Ok(Coord::UInt16(0xfedc)));
    assert_eq!(stream.stream_position(), 2);
    stream.seek(0);
    assert_eq!(read_argument(0b11, &mut stream), Ok(Coord::Int16(-292)));
    stream.seek(1);
    assert_eq!(read_argument(0b11, &mut stream), Err(EOF));
    assert_eq!(read_argument(0x0100, &mut stream), Ok(Coord::UInt8(0xdc)));
}

#[test]
fn component_without_scale_is_placed_unchanged() {
    let data = [0x00u8, 0x02, 0x00, 0x07, 0xff, 0x05];
    let mut stream = Stream::new(&data);
    let component = ComponentGlyph::try_from_stream(&mut stream).unwrap();
    assert_eq!(
        component,
        ComponentGlyph {
            flags: 2,
            glyph_index: 7,
            argument1: Coord::Int8(-1),
            argument2: Coord::Int8(5),
            scale: Opt::Absent,
            x_scale: Opt::Absent,
            scale_01: Opt::Absent,
            scale_10: Opt::Absent,
            y_scale: Opt::Absent,
        }
    );
    assert_eq!(encode(component).unwrap(), data.to_vec());
}

#[test]
fn component_transform_follows_the_flags() {
    // one scale, word arguments
    let data = [0x00u8, 0x09, 0, 1, 0, 2, 0, 3, 0x40, 0x00];
    let mut stream = Stream::new(&data);
    let c = ComponentGlyph::try_from_stream(&mut stream).unwrap();
    assert_eq!(c.argument1, Coord::UInt16(2));
    assert_eq!(c.argument2, Coord::UInt16(3));
    assert_eq!(c.scale, Opt::Present(ShortFrac(0x4000)));
    assert_eq!(c.x_scale, Opt::Absent);
    assert_eq!(encode(c).unwrap(), data.to_vec());
    // a scale for each axis
    let data = [0x00u8, 0x40, 0, 1, 2, 3, 0x40, 0x00, 0x20, 0x00];
    let mut stream = Stream::new(&data);
    let c = ComponentGlyph::try_from_stream(&mut stream).unwrap();
    assert_eq!(c.scale, Opt::Absent);
    assert_eq!(c.x_scale, Opt::Present(ShortFrac(0x4000)));
    assert_eq!(c.y_scale, Opt::Present(ShortFrac(0x2000)));
    assert_eq!(c.scale_01, Opt::Absent);
    assert_eq!(encode(c).unwrap(), data.to_vec());
    // a two-by-two matrix
    let data = [0x00u8, 0x80, 0, 1, 2, 3, 0, 1, 0, 2, 0, 3, 0, 4];
    let mut stream = Stream::new(&data);
    let c = ComponentGlyph::try_from_stream(&mut stream).unwrap();
    assert_eq!(c.x_scale, Opt::Present(ShortFrac(1)));
    assert_eq!(c.scale_01, Opt::Present(ShortFrac(2)));
    assert_eq!(c.scale_10, Opt::Present(ShortFrac(3)));
    assert_eq!(c.y_scale, Opt::Present(ShortFrac(4)));
    assert_eq!(stream.stream_position(), 14);
    assert_eq!(encode(c).unwrap(), data.to_vec());
    // the single scale wins over the others
    let data = [0x00u8, 0xc8, 0, 1, 2, 3, 0, 9, 0, 8];
    let mut stream = Stream::new(&data);
    let c = ComponentGlyph::try_from_stream(&mut stream).unwrap();
    assert_eq!(c.scale, Opt::Present(ShortFrac(9)));
    assert_eq!(c.x_scale, Opt::Absent);
    assert_eq!(stream.stream_position(), 8);
}

#[test]
fn component_that_ends_early_is_an_error() {
    let data = [0x00u8, 0x80, 0, 1, 2, 3, 0, 1, 0, 2, 0, 3, 0, 4];
    for cut in 0..data.len() {
        let mut stream = Stream::new(&data[..cut]);
        assert_eq!(ComponentGlyph::try_from_stream(&mut stream), Err(EOF));
    }
}

#[test]
fn compound_glyph_stops_at_the_first_component_without_more() {
    let mut data = vec![0x00u8, 0x22, 0, 1, 1, 2]; // more components
    data.extend_from_slice(&[0x00, 0x20, 0, 2, 3, 4]); // more components
    data.extend_from_slice(&[0x00, 0x02, 0, 3, 5, 6]); // last
    data.extend_from_slice(&[0x00, 0x22, 0, 4, 7, 8]); // not part of the glyph
    let mut stream = Stream::new(&data);
    let glyph = CompoundGlyph::try_from_stream(&mut stream).unwrap();
    assert_eq!(glyph.components.len(), 3);
    let indices: Vec<u16> = glyph.components.iter().map(|c| c.glyph_index).collect();
    assert_eq!(indices, vec![1, 2, 3]);
    assert_eq!(glyph.instruction_length, Opt::Absent);
    assert_eq!(glyph.instructions, Opt::Absent);
    assert_eq!(stream.stream_position(), 18);
    assert_eq!(encode(glyph).unwrap(), data[..18].to_vec());
}

#[test]
fn compound_glyph_that_never_ends_is_an_error() {
    let mut data = Vec::new();
    for i in 0..1000u16 {
        data.extend_from_slice(&[0x00, 0x20]);
        data.extend_from_slice(&i.to_be_bytes());
        data.extend_from_slice(&[0, 0]);
    }
    let mut stream = Stream::new(&data);
    assert_eq!(CompoundGlyph::try_from_stream(&mut stream), Err(EOF));
    let mut stream = Stream::new(&data[..0]);
    assert_eq!(CompoundGlyph::try_from_stream(&mut stream), Err(EOF));
}

#[test]
fn compound_glyph_reads_instructions_of_the_last_component() {
    let mut data = vec![0x01u8, 0x20, 0, 1, 1, 2]; // asks for instructions, but is not the last
    data.extend_from_slice(&[0x01, 0x00, 0, 2, 3, 4]); // last, asks for instructions
    data.extend_from_slice(&[0, 3, 0xa, 0xb, 0xc, 0xd]);
    let mut stream = Stream::new(&data);
    let glyph = CompoundGlyph::try_from_stream(&mut stream).unwrap();
    assert_eq!(glyph.components.len(), 2);
    assert_eq!(glyph.instruction_length, Opt::Present(3));
    assert_eq!(glyph.instructions, Opt::Present(Sequence::from(vec![0xa, 0xb, 0xc])));
    assert_eq!(stream.stream_position(), 17);
    assert_eq!(encode(glyph).unwrap(), data[..17].to_vec());
    let mut stream = Stream::new(&data[..16]);
    assert_eq!(CompoundGlyph::try_from_stream(&mut stream), Err(EOF));
    let mut stream = Stream::new(&data[..13]);
    assert_eq!(CompoundGlyph::try_from_stream(&mut stream), Err(EOF));
    // the first component alone asks for instructions in vain
    let mut data = vec![0x01u8, 0x20, 0, 1, 1, 2];
    data.extend_from_slice(&[0x00, 0x00, 0, 2, 3, 4]);
    let mut stream = Stream::new(&data);
    let glyph = CompoundGlyph::try_from_stream(&mut stream).unwrap();
    assert_eq!(glyph.instructions, Opt::Absent);
}

fn header_bytes(contours: i16) -> Vec<u8> {
    let mut bytes = contours.to_be_bytes().to_vec();
    bytes.extend_from_slice(&[0, 1, 0, 2, 0, 3, 0, 4]);
    bytes
}

#[test]
fn glyph_kind_follows_the_sign_of_the_contour_count() {
    let mut simple = header_bytes(1);
    simple.extend_from_slice(&triangle_bytes());
    let mut stream = Stream::new(&simple);
    let glyph = Glyph::try_from_stream(&mut stream).unwrap();
    assert_eq!(
        glyph.header,
        GlyphHeader { number_of_contours: 1, x_min: 1, y_min: 2, x_max: 3, y_max: 4 }
    );
    assert!(matches!(glyph.data, GlyphData::Simple(_)));
    assert_eq!(encode(glyph).unwrap(), simple);

    let mut compound = header_bytes(-1);
    compound.extend_from_slice(&[0x00, 0x02, 0, 3, 5, 6]);
    let mut stream = Stream::new(&compound);
    let glyph = Glyph::try_from_stream(&mut stream).unwrap();
    assert!(matches!(glyph.data, GlyphData::Compound(_)));
    assert_eq!(encode(glyph).unwrap(), compound);

    let mut empty = header_bytes(0);
    empty.extend_from_slice(&[0, 0, 0x31]);
    let mut stream = Stream::new(&empty);
    assert!(matches!(
        Glyph::try_from_stream(&mut stream).unwrap().data,
        GlyphData::Simple(_)
    ));
    let mut stream = Stream::new(&empty[..9]);
    assert_eq!(Glyph::try_from_stream(&mut stream), Err(EOF));
}

fn loca_tables(offsets: Vec<u32>) -> BTreeMap<u32, FontTable> {
    let mut map = BTreeMap::new();
    map.insert(
        LOCA,
        FontTable::Loca(Loca { offsets: Sequence::from(offsets), format: LocaFormat::Long }),
    );
    map
}

#[test]
fn glyf_reads_the_glyphs_with_an_outline() {
    let mut first = header_bytes(1);
    first.extend_from_slice(&triangle_bytes()); // 10 + 13 bytes, then 1 of padding
    let mut second = header_bytes(-1);
    second.extend_from_slice(&[0x00, 0x02, 0, 3, 5, 6]); // 16 bytes
    let mut data = vec![0xcc; 2];
    data.extend_from_slice(&first);
    data.push(0);
    data.extend_from_slice(&second);
    let mut stream = Stream::new(&data);
    stream.seek(2);
    // glyph 1 is empty
    let glyf = Glyf::try_from_params(&loca_tables(vec![0, 24, 24, 40]), &mut stream).unwrap();
    assert_eq!(glyf.glyphs.len(), 2);
    assert!(matches!(glyf.glyphs.as_slice()[0].data, GlyphData::Simple(_)));
    assert!(matches!(glyf.glyphs.as_slice()[1].data, GlyphData::Compound(_)));
    let mut both = first.clone();
    both.extend_from_slice(&second);
    assert_eq!(encode(glyf).unwrap(), both);
}

#[test]
fn glyf_without_outlines_reads_nothing() {
    let data = [1u8, 2, 3];
    let mut stream = Stream::new(&data);
    let glyf = Glyf::try_from_params(&loca_tables(vec![0, 0, 0]), &mut stream).unwrap();
    assert_eq!(glyf.glyphs.len(), 0);
    let glyf = Glyf::try_from_params(&loca_tables(vec![]), &mut stream).unwrap();
    assert_eq!(glyf.glyphs.len(), 0);
    let glyf = Glyf::try_from_params(&loca_tables(vec![7]), &mut stream).unwrap();
    assert_eq!(glyf.glyphs.len(), 0);
    assert_eq!(stream.stream_position(), 0);
}

#[test]
fn glyf_needs_loca() {
    let data = [0u8; 32];
    let mut stream = Stream::new(&data);
    assert_eq!(
        Glyf::try_from_params(&BTreeMap::new(), &mut stream),
        Err(Error::MissingDependency(LOCA))
    );
    let mut map = BTreeMap::new();
    map.insert(LOCA, FontTable::Other(Sequence::from(vec![0])));
    assert_eq!(
        Glyf::try_from_params(&map, &mut stream),
        Err(Error::ExpectedTable("loca"))
    );
}

#[test]
fn glyf_that_ends_early_is_an_error() {
    let mut data = header_bytes(1);
    data.extend_from_slice(&triangle_bytes());
    let mut stream = Stream::new(&data);
    assert_eq!(
        Glyf::try_from_params(&loca_tables(vec![0, 24, 48]), &mut stream),
        Err(EOF)
    );
}
