use sfnt_codec::error::{DecodeError, Error};
use sfnt_codec::sfnt::types::{FWord, Fixed, LongDateTime, UFWord};
use sfnt_codec::table::cmap::{
    distinct_offsets, Cmap, CmapHeader, CmapSubtable, EncodingSubtable, Format12, Format12Group,
    Format4, Format6,
};
use sfnt_codec::table::hmtx::LongHorMetric;
use sfnt_codec::table::loca::LocaFormat;
use sfnt_codec::table::tags::{CMAP, GLYF, HEAD, HHEA, HMTX, LOCA, MAXP};
use sfnt_codec::table::{FontTable, GetFontTable, Head, Hhea, Hmtx, Loca, Maxp};
use sfnt_codec::ttf::font_dir::TableDirEntry;
use sfnt_codec::utils::codec::{encode, Decode};
use sfnt_codec::utils::reader::{Stream, TryFromStream};
use sfnt_codec::utils::types::Sequence;
use std::collections::BTreeMap;

fn head(index_to_loc_format: i16) -> Head {
    Head {
        version: Fixed(1, 0),
        font_revision: Fixed(2, 0x4000),
        check_sum_adjustement: 0xdead_beef,
        magic_number: 0x5f0f_3cf5,
        flags: 3,
        units_per_em: 2048,
        created: LongDateTime(1),
        modified: LongDateTime(-2),
        x_min: FWord(-10),
        y_min: FWord(-20),
        x_max: FWord(1000),
        y_max: FWord(2000),
        mac_style: 0,
        lowest_rec_ppem: 8,
        font_direction_hint: 2,
        index_to_loc_format,
        glyph_data_format: 0,
        reserved: 0,
    }
}

fn maxp(num_glyphs: u16) -> Maxp {
    Maxp {
        version: Fixed(1, 0),
        num_glyphs,
        max_points: 1,
        max_contours: 2,
        max_component_points: 3,
        max_component_contours: 4,
        max_zones: 5,
        max_twilight_points: 6,
        max_storage: 7,
        max_function_defs: 8,
        max_instruction_defs: 9,
        max_stack_elements: 10,
        max_size_of_instructions: 11,
        max_component_elements: 12,
        max_component_depth: 13,
    }
}

fn hhea(num_of_long_hor_metrics: u16) -> Hhea {
    Hhea {
        version: Fixed(1, 0),
        ascent: FWord(800),
        descent: FWord(-200),
        line_gap: FWord(90),
        advance_width_max: UFWord(1200),
        min_left_side_bearing: FWord(-5),
        min_right_side_bearing: FWord(-6),
        x_max_extent: FWord(1100),
        carret_slope_rise: 1,
        carret_slope_run: 0,
        carret_offset: FWord(0),
        reserved: 0,
        metric_data_format: 0,
        num_of_long_hor_metrics,
    }
}

fn tables(format: i16, num_glyphs: u16, num_long: u16) -> BTreeMap<u32, FontTable> {
    let mut map = BTreeMap::new();
    map.insert(HEAD, FontTable::Head(head(format)));
    map.insert(MAXP, FontTable::Maxp(maxp(num_glyphs)));
    map.insert(HHEA, FontTable::Hhea(hhea(num_long)));
    map
}

#[test]
fn head_takes_fifty_six_bytes() {
    let bytes = encode(head(1)).unwrap();
    assert_eq!(bytes.len(), 56);
    assert_eq!(Head::size(), 56);
    assert_eq!(&bytes[..8], &[0, 1, 0, 0, 0, 2, 0x40, 0]);
    assert_eq!(&bytes[12..16], &[0x5f, 0x0f, 0x3c, 0xf5]);
    assert_eq!(&bytes[50..52], &[0, 1]);
    let mut stream = Stream::new(&bytes);
    assert_eq!(Head::try_from_stream(&mut stream), Ok(head(1)));
    assert_eq!(stream.stream_position(), 56);
}

#[test]
fn hhea_takes_thirty_six_bytes() {
    let bytes = encode(hhea(77)).unwrap();
    assert_eq!(bytes.len(), 36);
    assert_eq!(&bytes[34..], &[0, 77]);
    assert_eq!(Hhea::decode_from_slice(&bytes), hhea(77));
}

#[test]
fn maxp_takes_thirty_two_bytes() {
    let bytes = encode(maxp(300)).unwrap();
    assert_eq!(bytes.len(), 32);
    assert_eq!(&bytes[4..6], &[1, 44]);
    assert_eq!(Maxp::decode_from_slice(&bytes), maxp(300));
}

#[test]
fn fixed_table_that_ends_early_is_an_error() {
    let bytes = encode(head(0)).unwrap();
    let mut stream = Stream::new(&bytes[..55]);
    assert_eq!(
        Head::try_from_stream(&mut stream),
        Err(Error::DecodeError(DecodeError::UnexpectedEof))
    );
}

#[test]
fn hmtx_has_one_entry_for_each_glyph() {
    let data = [0u8, 100, 0, 1, 0, 200, 0xff, 0xff, 0, 3, 0, 4, 0xff, 0xfe, 9, 9];
    let mut stream = Stream::new(&data);
    let hmtx = Hmtx::try_from_params(&tables(0, 5, 2), &mut stream).unwrap();
    assert_eq!(
        hmtx.h_metrics.as_slice(),
        &[
            LongHorMetric { advance_width: 100, left_side_bearing: 1 },
            LongHorMetric { advance_width: 200, left_side_bearing: -1 },
        ][..]
    );
    assert_eq!(
        hmtx.left_side_bearing.as_slice(),
        &[FWord(3), FWord(4), FWord(-2)][..]
    );
    assert_eq!(hmtx.h_metrics.len() + hmtx.left_side_bearing.len(), 5);
    assert_eq!(stream.stream_position(), 14);
    assert_eq!(encode(hmtx).unwrap(), data[..14].to_vec());
}

#[test]
fn hmtx_with_more_long_metrics_than_glyphs_is_an_error() {
    let data = [0u8; 64];
    let mut stream = Stream::new(&data);
    assert_eq!(
        Hmtx::try_from_params(&tables(0, 2, 3), &mut stream),
        Err(Error::DecodeError(DecodeError::InvalidLength))
    );
    assert_eq!(stream.stream_position(), 0);
}

#[test]
fn hmtx_with_only_long_metrics_has_no_bearings() {
    let data = [0u8, 1, 0, 2, 0, 3, 0, 4];
    let mut stream = Stream::new(&data);
    let hmtx = Hmtx::try_from_params(&tables(0, 2, 2), &mut stream).unwrap();
    assert_eq!(hmtx.h_metrics.len(), 2);
    assert_eq!(hmtx.left_side_bearing.len(), 0);
}

#[test]
fn hmtx_that_ends_early_is_an_error() {
    let data = [0u8; 13];
    let mut stream = Stream::new(&data);
    assert_eq!(
        Hmtx::try_from_params(&tables(0, 5, 2), &mut stream),
        Err(Error::DecodeError(DecodeError::UnexpectedEof))
    );
}

#[test]
fn hmtx_needs_maxp_and_hhea() {
    let data = [0u8; 64];
    let mut only_head = BTreeMap::new();
    only_head.insert(HEAD, FontTable::Head(head(0)));
    let mut stream = Stream::new(&data);
    assert_eq!(
        Hmtx::try_from_params(&only_head, &mut stream),
        Err(Error::MissingDependency(MAXP))
    );
    only_head.insert(MAXP, FontTable::Maxp(maxp(1)));
    assert_eq!(
        Hmtx::try_from_params(&only_head, &mut stream),
        Err(Error::MissingDependency(HHEA))
    );
    only_head.insert(HHEA, FontTable::Maxp(maxp(1)));
    assert_eq!(
        Hmtx::try_from_params(&only_head, &mut stream),
        Err(Error::ExpectedTable("hhea"))
    );
}

#[test]
fn short_loca_is_doubled() {
    let data = [0u8, 0, 0, 5, 0, 5, 0x80, 0, 0xff, 0xff, 1];
    let mut stream = Stream::new(&data);
    let loca = Loca::try_from_params(&tables(0, 4, 0), &mut stream).unwrap();
    assert_eq!(loca.format, LocaFormat::Short);
    assert_eq!(loca.offsets.as_slice(), &[0u32, 10, 10, 0x1_0000, 0x1_fffe][..]);
    assert_eq!(stream.stream_position(), 10);
    assert!(loca.is_ordered());
    assert_eq!(encode(loca).unwrap(), data[..10].to_vec());
}

#[test]
fn long_loca_is_taken_as_it_is() {
    let data = [0u8, 0, 0, 0, 0, 0, 0, 11, 0x01, 0x02, 0x03, 0x04];
    let mut stream = Stream::new(&data);
    let loca = Loca::try_from_params(&tables(1, 2, 0), &mut stream).unwrap();
    assert_eq!(loca.format, LocaFormat::Long);
    assert_eq!(loca.offsets.as_slice(), &[0u32, 11, 0x0102_0304][..]);
    assert!(loca.is_ordered());
    assert_eq!(encode(loca).unwrap(), data.to_vec());
}

#[test]
fn any_format_but_zero_is_long() {
    let data = [0u8; 8];
    for format in [1i16, 2, -1, i16::MAX, i16::MIN] {
        let mut stream = Stream::new(&data);
        let loca = Loca::try_from_params(&tables(format, 1, 0), &mut stream).unwrap();
        assert_eq!(loca.format, LocaFormat::Long);
        assert_eq!(loca.offsets.len(), 2);
    }
}

#[test]
fn loca_that_ends_early_is_an_error() {
    let data = [0u8; 9];
    let mut stream = Stream::new(&data);
    assert_eq!(
        Loca::try_from_params(&tables(0, 4, 0), &mut stream),
        Err(Error::DecodeError(DecodeError::UnexpectedEof))
    );
    let mut stream = Stream::new(&data);
    assert_eq!(
        Loca::try_from_params(&tables(1, 2, 0), &mut stream),
        Err(Error::DecodeError(DecodeError::UnexpectedEof))
    );
}

#[test]
fn loca_for_the_largest_font_has_one_more_offset_than_glyphs() {
    let data = vec![0u8; 2 * 65536];
    let mut stream = Stream::new(&data);
    let loca = Loca::try_from_params(&tables(0, u16::MAX, 0), &mut stream).unwrap();
    assert_eq!(loca.offsets.len(), 65536);
}

#[test]
fn loca_needs_head_and_maxp() {
    let data = [0u8; 16];
    let mut stream = Stream::new(&data);
    let mut map = BTreeMap::new();
    assert_eq!(
        Loca::try_from_params(&map, &mut stream),
        Err(Error::MissingDependency(HEAD))
    );
    map.insert(HEAD, FontTable::Maxp(maxp(1)));
    assert_eq!(
        Loca::try_from_params(&map, &mut stream),
        Err(Error::ExpectedTable("head"))
    );
    map.insert(HEAD, FontTable::Head(head(0)));
    assert_eq!(
        Loca::try_from_params(&map, &mut stream),
        Err(Error::MissingDependency(MAXP))
    );
    map.insert(MAXP, FontTable::Other(Sequence::from(vec![1, 2, 3])));
    assert_eq!(
        Loca::try_from_params(&map, &mut stream),
        Err(Error::ExpectedTable("maxp"))
    );
}

#[test]
fn loca_order_is_checked() {
    let ordered = Loca { offsets: Sequence::from(vec![0, 4, 4, 9]), format: LocaFormat::Long };
    assert!(ordered.is_ordered());
    let falling = Loca { offsets: Sequence::from(vec![0, 8, 4]), format: LocaFormat::Long };
    assert!(!falling.is_ordered());
    let late = Loca { offsets: Sequence::from(vec![2, 8]), format: LocaFormat::Long };
    assert!(!late.is_ordered());
    let empty = Loca { offsets: Sequence::from(Vec::new()), format: LocaFormat::Short };
    assert!(empty.is_ordered());
    let data = [0u8, 0, 0, 8, 0, 0, 0, 4];
    let mut stream = Stream::new(&data);
    let decoded = Loca::try_from_params(&tables(1, 1, 0), &mut stream).unwrap();
    assert!(!decoded.is_ordered());
}

#[test]
fn short_loca_is_halved_and_cut_to_sixteen_bits() {
    let loca = Loca {
        offsets: Sequence::from(vec![0, 7, 0x2_0000, 0x2_0006]),
        format: LocaFormat::Short,
    };
    assert_eq!(encode(loca).unwrap(), vec![0, 0, 0, 3, 0, 0, 0, 3]);
}

#[test]
fn typed_access_tells_missing_from_unexpected() {
    let mut map = tables(0, 1, 1);
    assert_eq!(map.head(), Ok(&head(0)));
    assert_eq!(map.maxp(), Ok(&maxp(1)));
    assert_eq!(map.hhea(), Ok(&hhea(1)));
    assert_eq!(map.hmtx(), Err(Error::MissingDependency(HMTX)));
    assert_eq!(map.cmap(), Err(Error::MissingDependency(CMAP)));
    assert_eq!(map.loca(), Err(Error::MissingDependency(LOCA)));
    map.insert(HMTX, FontTable::Head(head(0)));
    map.insert(CMAP, FontTable::Head(head(0)));
    map.insert(LOCA, FontTable::Head(head(0)));
    assert_eq!(map.hmtx(), Err(Error::ExpectedTable("hmtx")));
    assert_eq!(map.cmap(), Err(Error::ExpectedTable("cmap")));
    assert_eq!(map.loca(), Err(Error::ExpectedTable("loca")));
}

fn format_6_bytes() -> Vec<u8> {
    vec![0, 6, 0, 14, 0, 0, 0, 65, 0, 2, 0, 7, 0, 8]
}

fn format_12_bytes() -> Vec<u8> {
    let mut bytes = vec![0, 12, 0, 0, 0, 0, 0, 28, 0, 0, 0, 0, 0, 0, 0, 1];
    bytes.extend_from_slice(&[0, 0, 0, 65, 0, 0, 0, 90, 0, 0, 0, 1]);
    bytes
}

fn format_4_bytes() -> Vec<u8> {
    // two segments, one glyph index
    let mut bytes = vec![0, 4, 0, 34, 0, 0, 0, 4, 0, 4, 0, 1, 0, 0];
    bytes.extend_from_slice(&[0, 70, 0xff, 0xff]); // end codes
    bytes.extend_from_slice(&[0, 0]); // reserved
    bytes.extend_from_slice(&[0, 65, 0xff, 0xff]); // start codes
    bytes.extend_from_slice(&[0xff, 0xc0, 0, 1]); // deltas
    bytes.extend_from_slice(&[0, 0, 0, 0]); // range offsets
    bytes.extend_from_slice(&[0, 9]); // glyph indices
    bytes
}

#[test]
fn format_6_subtable_is_a_trimmed_table() {
    let bytes = format_6_bytes();
    let mut stream = Stream::new(&bytes);
    let table = CmapSubtable::try_from_stream(&mut stream).unwrap();
    assert_eq!(
        table,
        CmapSubtable::Format6(Format6 {
            format: 6,
            length: 14,
            language: 0,
            first_code: 65,
            entry_count: 2,
            glyph_index_array: Sequence::from(vec![7, 8]),
        })
    );
    assert_eq!(stream.stream_position(), 14);
    assert_eq!(encode(table).unwrap(), bytes);
}

#[test]
fn format_12_subtable_holds_groups() {
    let bytes = format_12_bytes();
    let mut stream = Stream::new(&bytes);
    let table = CmapSubtable::try_from_stream(&mut stream).unwrap();
    assert_eq!(
        table,
        CmapSubtable::Format12(Format12 {
            format: 12,
            reserved: 0,
            length: 28,
            language: 0,
            n_groups: 1,
            groups: Sequence::from(vec![Format12Group {
                start_char_code: 65,
                end_char_code: 90,
                start_glyph_code: 1,
            }]),
        })
    );
    assert_eq!(stream.stream_position(), 28);
    assert_eq!(encode(table).unwrap(), bytes);
}

#[test]
fn format_12_with_too_many_groups_is_an_error() {
    let mut bytes = format_12_bytes();
    bytes[12] = 0xff;
    let mut stream = Stream::new(&bytes);
    assert_eq!(
        CmapSubtable::try_from_stream(&mut stream),
        Err(Error::DecodeError(DecodeError::UnexpectedEof))
    );
}

#[test]
fn format_4_subtable_fills_its_length_with_glyph_indices() {
    let bytes = format_4_bytes();
    let mut stream = Stream::new(&bytes);
    let table = CmapSubtable::try_from_stream(&mut stream).unwrap();
    assert_eq!(
        table,
        CmapSubtable::Format4(Format4 {
            format: 4,
            length: 34,
            language: 0,
            seg_count_x2: 4,
            search_range: 4,
            entry_selector: 1,
            range_shift: 0,
            end_code: Sequence::from(vec![70, 0xffff]),
            reserved: 0,
            start_code: Sequence::from(vec![65, 0xffff]),
            id_delta: Sequence::from(vec![0xffc0, 1]),
            id_range_offset: Sequence::from(vec![0, 0]),
            glyph_index_array: Sequence::from(vec![9]),
        })
    );
    assert_eq!(stream.stream_position(), 34);
    assert_eq!(encode(table).unwrap(), bytes);
}

#[test]
fn format_4_without_glyph_indices_ends_behind_the_segments() {
    let mut bytes = format_4_bytes();
    bytes[3] = 32;
    let mut stream = Stream::new(&bytes);
    match CmapSubtable::try_from_stream(&mut stream).unwrap() {
        CmapSubtable::Format4(table) => assert_eq!(table.glyph_index_array.len(), 0),
        other => panic!("{:?}", other),
    }
    assert_eq!(stream.stream_position(), 32);
}

#[test]
fn format_4_with_an_odd_rest_drops_the_last_byte() {
    let mut bytes = format_4_bytes();
    bytes[3] = 35;
    bytes.push(0);
    let mut stream = Stream::new(&bytes);
    match CmapSubtable::try_from_stream(&mut stream).unwrap() {
        CmapSubtable::Format4(table) => assert_eq!(table.glyph_index_array.len(), 1),
        other => panic!("{:?}", other),
    }
    assert_eq!(stream.stream_position(), 34);
}

#[test]
fn format_4_with_a_length_below_its_segments_is_an_error() {
    let mut bytes = format_4_bytes();
    bytes[3] = 31;
    let mut stream = Stream::new(&bytes);
    assert_eq!(
        CmapSubtable::try_from_stream(&mut stream),
        Err(Error::DecodeError(DecodeError::InvalidLength))
    );
}

#[test]
fn format_4_that_ends_early_is_an_error() {
    let bytes = format_4_bytes();
    for cut in [1usize, 3, 13, 17, 19, 33] {
        let mut stream = Stream::new(&bytes[..cut]);
        assert_eq!(
            CmapSubtable::try_from_stream(&mut stream),
            Err(Error::DecodeError(DecodeError::UnexpectedEof))
        );
    }
}

#[test]
fn unknown_subtable_format_is_reported_with_its_number() {
    for format in [0u16, 2, 5, 13, 14, 0xffff] {
        let mut bytes = format_6_bytes();
        bytes[0] = (format >> 8) as u8;
        bytes[1] = format as u8;
        let mut stream = Stream::new(&bytes);
        assert_eq!(
            CmapSubtable::try_from_stream(&mut stream),
            Err(Error::UnsupportedCmapSubtable(format))
        );
    }
}

fn record(platform_id: u16, offset: u32) -> EncodingSubtable {
    EncodingSubtable { platform_id, platform_specific_id: 1, offset }
}

fn cmap_bytes(records: &[EncodingSubtable], subtables: &[Vec<u8>]) -> Vec<u8> {
    let mut bytes = vec![0, 0];
    bytes.extend_from_slice(&(records.len() as u16).to_be_bytes());
    for r in records {
        bytes.extend_from_slice(&encode(*r).unwrap());
    }
    for s in subtables {
        bytes.extend_from_slice(s);
    }
    bytes
}

#[test]
fn distinct_offsets_are_ascending() {
    let records = Sequence::from(vec![
        record(0, 40),
        record(1, 12),
        record(3, 40),
        record(4, 12),
        record(5, 7),
    ]);
    assert_eq!(distinct_offsets(&records), vec![7, 12, 40]);
    assert_eq!(distinct_offsets(&Sequence::from(Vec::new())), Vec::<u32>::new());
}

#[test]
fn cmap_decodes_one_subtable_for_each_distinct_offset() {
    // three records, two of them share the format 6 subtable
    let records = [record(0, 28), record(3, 42), record(1, 28)];
    let bytes = cmap_bytes(&records, &[format_6_bytes(), format_12_bytes()]);
    // the table does not start at the start of the stream
    let mut data = vec![0xaa; 5];
    data.extend_from_slice(&bytes);
    let mut stream = Stream::new(&data);
    stream.seek(5);
    let cmap = Cmap::try_from_stream(&mut stream).unwrap();
    assert_eq!(cmap.index, CmapHeader { version: 0, number_subtables: 3 });
    assert_eq!(cmap.encoding_subtables.as_slice(), &records[..]);
    assert_eq!(cmap.cmap_subtables.len(), 2);
    assert!(matches!(cmap.cmap_subtables.as_slice()[0], CmapSubtable::Format6(_)));
    assert!(matches!(cmap.cmap_subtables.as_slice()[1], CmapSubtable::Format12(_)));
    assert_eq!(stream.stream_position(), 5 + 28 + 14 + 28);
    assert_eq!(encode(cmap).unwrap(), bytes);
}

#[test]
fn cmap_decodes_subtables_in_ascending_order_of_offset() {
    // the records name the later subtable first
    let records = [record(0, 34), record(3, 20)];
    let bytes = cmap_bytes(&records, &[format_6_bytes(), format_4_bytes()]);
    let mut stream = Stream::new(&bytes);
    let cmap = Cmap::try_from_stream(&mut stream).unwrap();
    assert!(matches!(cmap.cmap_subtables.as_slice()[0], CmapSubtable::Format6(_)));
    assert!(matches!(cmap.cmap_subtables.as_slice()[1], CmapSubtable::Format4(_)));
}

#[test]
fn cmap_seeks_to_each_subtable() {
    // a gap of three bytes in front of the subtable
    let records = [record(0, 15)];
    let mut bytes = cmap_bytes(&records, &[vec![0xee; 3], format_6_bytes()]);
    bytes.extend_from_slice(&[1, 2, 3]);
    let mut stream = Stream::new(&bytes);
    let cmap = Cmap::try_from_stream(&mut stream).unwrap();
    assert_eq!(cmap.cmap_subtables.len(), 1);
    assert_eq!(stream.stream_position(), 29);
}

#[test]
fn cmap_without_records_has_no_subtables() {
    let bytes = cmap_bytes(&[], &[]);
    let mut stream = Stream::new(&bytes);
    let cmap = Cmap::try_from_stream(&mut stream).unwrap();
    assert_eq!(cmap.encoding_subtables.len(), 0);
    assert_eq!(cmap.cmap_subtables.len(), 0);
    assert_eq!(stream.stream_position(), 4);
}

#[test]
fn cmap_reports_the_first_failing_subtable() {
    let records = [record(0, 34), record(3, 20)];
    let mut bad = format_6_bytes();
    bad[1] = 9;
    let bytes = cmap_bytes(&records, &[bad, format_6_bytes()[..10].to_vec()]);
    let mut stream = Stream::new(&bytes);
    assert_eq!(
        Cmap::try_from_stream(&mut stream),
        Err(Error::UnsupportedCmapSubtable(9))
    );
    let records = [record(0, u32::MAX)];
    let bytes = cmap_bytes(&records, &[]);
    let mut stream = Stream::new(&bytes);
    assert_eq!(
        Cmap::try_from_stream(&mut stream),
        Err(Error::DecodeError(DecodeError::UnexpectedEof))
    );
}

#[test]
fn table_is_decoded_at_the_offset_of_its_entry() {
    let mut data = vec![0x55u8; 3];
    data.extend_from_slice(&encode(maxp(9)).unwrap());
    data.extend_from_slice(&[1, 2, 3, 4, 5]);
    let mut stream = Stream::new(&data);
    stream.seek(17);
    let none = BTreeMap::new();
    let entry = TableDirEntry { tag: MAXP, check_sum: 0, offset: 3, length: 32 };
    assert_eq!(
        FontTable::try_from_params(&entry, &none, &mut stream),
        Ok(FontTable::Maxp(maxp(9)))
    );
    assert_eq!(stream.stream_position(), 35);
    let entry = TableDirEntry { tag: GLYF, check_sum: 0, offset: 35, length: 4 };
    assert_eq!(
        FontTable::try_from_params(&entry, &none, &mut stream),
        Ok(FontTable::Other(Sequence::from(vec![1, 2, 3, 4])))
    );
    let entry = TableDirEntry { tag: 0x4142_4344, check_sum: 0, offset: 38, length: 3 };
    assert_eq!(
        FontTable::try_from_params(&entry, &none, &mut stream),
        Err(Error::DecodeError(DecodeError::UnexpectedEof))
    );
    let entry = TableDirEntry { tag: 0x4142_4344, check_sum: 0, offset: u32::MAX, length: 0 };
    assert_eq!(
        FontTable::try_from_params(&entry, &none, &mut stream),
        Ok(FontTable::Other(Sequence::from(Vec::new())))
    );
}

#[test]
fn dependent_table_without_its_dependency_is_an_error() {
    let data = [0u8; 64];
    let mut stream = Stream::new(&data);
    let none = BTreeMap::new();
    let entry = TableDirEntry { tag: LOCA, check_sum: 0, offset: 0, length: 4 };
    assert_eq!(
        FontTable::try_from_params(&entry, &none, &mut stream),
        Err(Error::MissingDependency(HEAD))
    );
    let entry = TableDirEntry { tag: HMTX, check_sum: 0, offset: 0, length: 4 };
    assert_eq!(
        FontTable::try_from_params(&entry, &none, &mut stream),
        Err(Error::MissingDependency(MAXP))
    );
}

#[test]
fn unknown_table_is_written_as_it_was_read() {
    let table = FontTable::Other(Sequence::from(vec![9, 8, 7]));
    assert_eq!(encode(table).unwrap(), vec![9, 8, 7]);
    assert_eq!(encode(FontTable::Maxp(maxp(3))).unwrap(), encode(maxp(3)).unwrap());
}
