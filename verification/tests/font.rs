use sfnt_codec::error::{DecodeError, EncodeError, Error};
use sfnt_codec::sfnt::types::{FWord, Fixed, LongDateTime, UFWord};
use sfnt_codec::table::cmap::{Cmap, CmapHeader, CmapSubtable, EncodingSubtable, Format6};
use sfnt_codec::table::hmtx::LongHorMetric;
use sfnt_codec::table::loca::LocaFormat;
use sfnt_codec::table::tags::{CMAP, GLYF, HEAD, HHEA, HMTX, LOCA, MAXP, NAME, POST};
use sfnt_codec::table::{FontTable, Head, Hhea, Hmtx, Loca, Maxp};
use sfnt_codec::ttf::font::Font;
use sfnt_codec::ttf::font_dir::{FontDirectory, OffsetSubtable, TableDirEntry};
use sfnt_codec::utils::codec::encode;
use sfnt_codec::utils::reader::{Stream, TryFromStream};
use sfnt_codec::utils::types::Sequence;
use std::collections::BTreeMap;

const KERN: u32 = 0x6b65_726e;
const GPOS: u32 = 0x4750_4f53;

fn head() -> Head {
    Head {
        version: Fixed(1, 0),
        font_revision: Fixed(1, 0),
        check_sum_adjustement: 0,
        magic_number: 0x5f0f_3cf5,
        flags: 0,
        units_per_em: 1000,
        created: LongDateTime(0),
        modified: LongDateTime(0),
        x_min: FWord(0),
        y_min: FWord(0),
        x_max: FWord(0),
        y_max: FWord(0),
        mac_style: 0,
        lowest_rec_ppem: 0,
        font_direction_hint: 0,
        index_to_loc_format: 0,
        glyph_data_format: 0,
        reserved: 0,
    }
}

fn maxp() -> Maxp {
    Maxp {
        version: Fixed(1, 0),
        num_glyphs: 3,
        max_points: 0,
        max_contours: 0,
        max_component_points: 0,
        max_component_contours: 0,
        max_zones: 0,
        max_twilight_points: 0,
        max_storage: 0,
        max_function_defs: 0,
        max_instruction_defs: 0,
        max_stack_elements: 0,
        max_size_of_instructions: 0,
        max_component_elements: 0,
        max_component_depth: 0,
    }
}

fn hhea() -> Hhea {
    Hhea {
        version: Fixed(1, 0),
        ascent: FWord(0),
        descent: FWord(0),
        line_gap: FWord(0),
        advance_width_max: UFWord(0),
        min_left_side_bearing: FWord(0),
        min_right_side_bearing: FWord(0),
        x_max_extent: FWord(0),
        carret_slope_rise: 0,
        carret_slope_run: 0,
        carret_offset: FWord(0),
        reserved: 0,
        metric_data_format: 0,
        num_of_long_hor_metrics: 2,
    }
}

fn cmap() -> Cmap {
    Cmap {
        index: CmapHeader { version: 0, number_subtables: 2 },
        encoding_subtables: Sequence::from(vec![
            EncodingSubtable { platform_id: 0, platform_specific_id: 3, offset: 20 },
            EncodingSubtable { platform_id: 3, platform_specific_id: 1, offset: 20 },
        ]),
        cmap_subtables: Sequence::from(vec![CmapSubtable::Format6(Format6 {
            format: 6,
            length: 13,
            language: 0,
            first_code: 65,
            entry_count: 1,
            glyph_index_array: Sequence::from(vec![2]),
        })]),
    }
}

fn tables() -> Vec<(u32, FontTable)> {
    vec![
        (HEAD, FontTable::Head(head())),
        (MAXP, FontTable::Maxp(maxp())),
        (
            LOCA,
            FontTable::Loca(Loca {
                offsets: Sequence::from(vec![0, 0, 4, 6]),
                format: LocaFormat::Short,
            }),
        ),
        (GLYF, FontTable::Other(Sequence::from(vec![1, 2, 3, 4, 5, 6]))),
        (HHEA, FontTable::Hhea(hhea())),
        (
            HMTX,
            FontTable::Hmtx(Hmtx {
                h_metrics: Sequence::from(vec![
                    LongHorMetric { advance_width: 500, left_side_bearing: 10 },
                    LongHorMetric { advance_width: 600, left_side_bearing: -10 },
                ]),
                left_side_bearing: Sequence::from(vec![FWord(7)]),
            }),
        ),
        (CMAP, FontTable::Cmap(cmap())),
        (NAME, FontTable::Other(Sequence::from(vec![b'n']))),
        (POST, FontTable::Other(Sequence::from(vec![b'p', b'o', b's']))),
        (GPOS, FontTable::Other(Sequence::from(vec![0xaa; 5]))),
        (KERN, FontTable::Other(Sequence::from(Vec::new()))),
    ]
}

/// A font whose directory lists the tables at the offsets at which encoding
/// puts them; `listed` gives the order of the directory entries.
fn font(listed: &[u32]) -> Font {
    let tables = tables();
    let mut offset = 12 + 16 * listed.len() as u32;
    let mut entries = BTreeMap::new();
    for (tag, table) in &tables {
        if !listed.contains(tag) {
            continue;
        }
        let length = encode(table.clone()).unwrap().len() as u32;
        entries.insert(*tag, TableDirEntry { tag: *tag, check_sum: *tag ^ 1, offset, length });
        offset += length;
        offset += (4 - offset % 4) % 4;
    }
    Font {
        font_directory: FontDirectory {
            offset_subtable: OffsetSubtable {
                scaler_type: 0x0001_0000,
                num_tables: listed.len() as u16,
                search_range: 128,
                entry_selector: 3,
                range_shift: 48,
            },
            table_directory: Sequence::from(
                listed.iter().map(|t| entries[t]).collect::<Vec<TableDirEntry>>(),
            ),
        },
        tables: tables.into_iter().filter(|(t, _)| listed.contains(t)).collect(),
    }
}

const ALL: [u32; 11] = [CMAP, GLYF, GPOS, HEAD, HHEA, HMTX, KERN, LOCA, MAXP, NAME, POST];

#[test]
fn font_is_written_directory_first_then_tables_by_priority() {
    let font = font(&ALL);
    let bytes = font.encode().unwrap();
    assert_eq!(&bytes[..12], &[0, 1, 0, 0, 0, 11, 0, 128, 0, 3, 0, 48]);
    assert_eq!(&bytes[12..16], b"cmap");
    let start = 12 + 16 * 11;
    assert_eq!(&bytes[start..start + 56], &encode(head()).unwrap()[..]);
    assert_eq!(&bytes[start + 56..start + 88], &encode(maxp()).unwrap()[..]);
    // loca, stored halved
    assert_eq!(&bytes[start + 88..start + 96], &[0, 0, 0, 0, 0, 2, 0, 3]);
    // glyf and its padding
    assert_eq!(&bytes[start + 96..start + 104], &[1, 2, 3, 4, 5, 6, 0, 0]);
    // every table starts at a multiple of four
    assert_eq!(bytes.len() % 4, 0);
    let tail = &bytes[bytes.len() - 16..];
    assert_eq!(tail, &[b'n', 0, 0, 0, b'p', b'o', b's', 0, 0xaa, 0xaa, 0xaa, 0xaa, 0xaa, 0, 0, 0]);
}

#[test]
fn decoding_the_bytes_of_a_font_gives_the_font_back() {
    let font = font(&ALL);
    let bytes = font.encode().unwrap();
    let mut stream = Stream::new(&bytes);
    let decoded = Font::try_from_stream(&mut stream).unwrap();
    assert_eq!(decoded, font);
    assert_eq!(decoded.encode().unwrap(), bytes);
}

#[test]
fn decoding_does_not_depend_on_the_order_of_the_directory() {
    let listed = [POST, KERN, NAME, CMAP, HMTX, HHEA, GLYF, LOCA, MAXP, HEAD, GPOS];
    let font = font(&listed);
    let bytes = font.encode().unwrap();
    let mut stream = Stream::new(&bytes);
    let decoded = Font::try_from_stream(&mut stream).unwrap();
    assert_eq!(decoded, font);
    assert_eq!(decoded.tables.len(), 11);
    assert_eq!(decoded.tables[&KERN], FontTable::Other(Sequence::from(Vec::new())));
    assert!(matches!(decoded.tables[&LOCA], FontTable::Loca(_)));
}

#[test]
fn decoding_does_not_depend_on_where_the_tables_lie() {
    // hmtx and loca lie in front of the tables they depend on
    let mut bytes = vec![0, 1, 0, 0, 0, 9, 0, 0, 0, 0, 0, 0];
    let mut body = Vec::new();
    let start = 12 + 16 * 9;
    let order = [HMTX, LOCA, HEAD, HHEA, MAXP, CMAP, GLYF, NAME, POST];
    let tables: BTreeMap<u32, FontTable> = tables().into_iter().collect();
    for tag in order {
        let table = encode(tables[&tag].clone()).unwrap();
        bytes.extend_from_slice(&tag.to_be_bytes());
        bytes.extend_from_slice(&[0, 0, 0, 0]);
        bytes.extend_from_slice(&((start + body.len()) as u32).to_be_bytes());
        bytes.extend_from_slice(&(table.len() as u32).to_be_bytes());
        body.extend_from_slice(&table);
    }
    bytes.extend_from_slice(&body);
    let mut stream = Stream::new(&bytes);
    let decoded = Font::try_from_stream(&mut stream).unwrap();
    assert_eq!(decoded.tables.len(), 9);
    for tag in order {
        assert_eq!(decoded.tables[&tag], tables[&tag]);
    }
}

#[test]
fn font_without_post_is_refused_before_any_table_is_read() {
    let listed = [CMAP, GLYF, HEAD, HHEA, HMTX, LOCA, MAXP, NAME];
    let bytes = font(&listed).encode().unwrap();
    // no table body follows the directory
    let mut stream = Stream::new(&bytes[..12 + 16 * 8]);
    assert_eq!(Font::try_from_stream(&mut stream), Err(Error::MissingRequiredTable));
    let mut stream = Stream::new(&bytes);
    assert_eq!(Font::try_from_stream(&mut stream), Err(Error::MissingRequiredTable));
}

#[test]
fn font_without_any_required_table_is_refused() {
    for skip in [CMAP, GLYF, HEAD, HHEA, HMTX, LOCA, MAXP, NAME, POST] {
        let listed: Vec<u32> = ALL.iter().copied().filter(|t| *t != skip).collect();
        let bytes = font(&listed).encode().unwrap();
        let mut stream = Stream::new(&bytes);
        assert_eq!(Font::try_from_stream(&mut stream), Err(Error::MissingRequiredTable));
    }
}

#[test]
fn font_that_ends_early_is_an_error() {
    let bytes = font(&ALL).encode().unwrap();
    for cut in [0usize, 11, 12, 100, 12 + 16 * 11, 300, bytes.len() - 9] {
        let mut stream = Stream::new(&bytes[..cut]);
        assert_eq!(
            Font::try_from_stream(&mut stream),
            Err(Error::DecodeError(DecodeError::UnexpectedEof))
        );
    }
}

#[test]
fn font_with_a_broken_table_is_an_error() {
    let mut broken = font(&ALL);
    if let Some(FontTable::Hhea(hhea)) = broken.tables.get_mut(&HHEA) {
        hhea.num_of_long_hor_metrics = 4;
    }
    let bytes = broken.encode().unwrap();
    let mut stream = Stream::new(&bytes);
    assert_eq!(
        Font::try_from_stream(&mut stream),
        Err(Error::DecodeError(DecodeError::InvalidLength))
    );
    let mut broken = font(&ALL);
    if let Some(FontTable::Cmap(cmap)) = broken.tables.get_mut(&CMAP) {
        cmap.cmap_subtables = Sequence::from(vec![CmapSubtable::Format6(Format6 {
            format: 7,
            length: 12,
            language: 0,
            first_code: 0,
            entry_count: 0,
            glyph_index_array: Sequence::from(Vec::new()),
        })]);
    }
    let bytes = broken.encode().unwrap();
    let mut stream = Stream::new(&bytes);
    assert_eq!(Font::try_from_stream(&mut stream), Err(Error::UnsupportedCmapSubtable(7)));
}

#[test]
fn font_with_two_entries_for_a_tag_keeps_the_last() {
    let mut twice = font(&ALL);
    let mut entries = twice.font_directory.table_directory.clone().into_vec();
    let kern = entries.iter().position(|e| e.tag == KERN).unwrap();
    let gpos = *entries.iter().find(|e| e.tag == GPOS).unwrap();
    // a second entry for GPOS that points at the bytes of the first entry
    // for kern, which in turn is listed once more at the end
    entries.insert(0, TableDirEntry { tag: KERN, check_sum: 0, offset: 0, length: 2 });
    entries.push(TableDirEntry { tag: GPOS, check_sum: 0, offset: 1, length: 3 });
    let _ = kern;
    twice.font_directory.table_directory = Sequence::from(entries);
    twice.font_directory.offset_subtable.num_tables = 13;
    let mut bytes = encode(twice.font_directory.clone()).unwrap();
    bytes.extend_from_slice(&[0; 64]);
    let mut stream = Stream::new(&bytes);
    let mut short = twice.clone();
    short.tables.clear();
    let dir = FontDirectory::try_from_stream(&mut stream).unwrap();
    assert_eq!(dir, twice.font_directory);
    let order: Vec<u32> = dir.get_sorted_table_entries().iter().map(|e| e.tag).collect();
    assert_eq!(order, vec![HEAD, MAXP, LOCA, GLYF, HHEA, HMTX, CMAP, NAME, POST, KERN, GPOS]);
    let map = dir.get_table_entries_map();
    assert_eq!(map[&GPOS].offset, 1);
    assert_ne!(map[&GPOS], gpos);
}

#[test]
fn font_that_lacks_a_listed_table_cannot_be_encoded() {
    let mut missing = font(&ALL);
    missing.tables.remove(&HMTX);
    assert_eq!(
        missing.encode(),
        Err(Error::EncodeError(EncodeError::MissingTable(HMTX)))
    );
    missing.tables.remove(&HEAD);
    assert_eq!(
        missing.encode(),
        Err(Error::EncodeError(EncodeError::MissingTable(HEAD)))
    );
}

#[test]
fn font_writes_what_its_directory_lists() {
    // a table that the directory does not list is not written
    let mut more = font(&ALL);
    let bytes = more.encode().unwrap();
    more.tables.insert(0x7a7a_7a7a, FontTable::Other(Sequence::from(vec![1, 2, 3])));
    assert_eq!(more.encode().unwrap(), bytes);
}

#[test]
fn padding_follows_the_entry_not_the_table() {
    let mut font = font(&[CMAP, GLYF, HEAD, HHEA, HMTX, LOCA, MAXP, NAME, POST]);
    let bytes = font.encode().unwrap();
    let mut entries = font.font_directory.table_directory.clone().into_vec();
    let post = entries.iter().position(|e| e.tag == POST).unwrap();
    // offset + length = a multiple of four: no padding behind the table
    entries[post].length = 4 - entries[post].offset % 4;
    font.font_directory.table_directory = Sequence::from(entries);
    let shorter = font.encode().unwrap();
    assert_eq!(shorter.len() + 1, bytes.len());
    assert_eq!(&shorter[shorter.len() - 3..], b"pos");
}
