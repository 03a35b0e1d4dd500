use sfnt_codec::error::{DecodeError, Error};
use sfnt_codec::table::tags::{
    compare_tags, tag_priority, CMAP, GLYF, HEAD, HHEA, HMTX, LOCA, MAXP, NAME, POST,
    REQUIRED_TAGS,
};
use sfnt_codec::ttf::font_dir::{FontDirectory, OffsetSubtable, TableDirEntry};
use sfnt_codec::utils::codec::encode;
use sfnt_codec::utils::reader::{Stream, TryFromStream};
use sfnt_codec::utils::types::Sequence;
use std::cmp::Ordering;

fn entry(tag: u32, offset: u32, length: u32) -> TableDirEntry {
    TableDirEntry { tag, check_sum: 0, offset, length }
}

fn directory(entries: Vec<TableDirEntry>) -> FontDirectory {
    FontDirectory {
        offset_subtable: OffsetSubtable {
            scaler_type: 0x0001_0000,
            num_tables: entries.len() as u16,
            search_range: 0,
            entry_selector: 0,
            range_shift: 0,
        },
        table_directory: Sequence::from(entries),
    }
}

#[test]
fn tags_are_the_four_letters_of_their_names() {
    assert_eq!(CMAP, u32::from_be_bytes(*b"cmap"));
    assert_eq!(GLYF, u32::from_be_bytes(*b"glyf"));
    assert_eq!(HEAD, u32::from_be_bytes(*b"head"));
    assert_eq!(HHEA, u32::from_be_bytes(*b"hhea"));
    assert_eq!(HMTX, u32::from_be_bytes(*b"hmtx"));
    assert_eq!(LOCA, u32::from_be_bytes(*b"loca"));
    assert_eq!(MAXP, u32::from_be_bytes(*b"maxp"));
    assert_eq!(NAME, u32::from_be_bytes(*b"name"));
    assert_eq!(POST, u32::from_be_bytes(*b"post"));
    assert_eq!(CMAP, 1668112752);
    assert_eq!(POST, 1886352244);
    assert_eq!(REQUIRED_TAGS.len(), 9);
}

#[test]
fn priorities_follow_the_dependencies() {
    assert_eq!(tag_priority(HEAD), 1);
    assert_eq!(tag_priority(MAXP), 2);
    assert_eq!(tag_priority(LOCA), 3);
    assert_eq!(tag_priority(GLYF), 4);
    assert_eq!(tag_priority(HHEA), 5);
    assert_eq!(tag_priority(HMTX), 6);
    assert_eq!(tag_priority(CMAP), 7);
    assert_eq!(tag_priority(NAME), 8);
    assert_eq!(tag_priority(POST), 9);
    assert_eq!(tag_priority(u32::from_be_bytes(*b"kern")), 255);
    assert_eq!(tag_priority(0), 255);
}

#[test]
fn compare_tags_orders_by_priority() {
    assert_eq!(compare_tags(HEAD, MAXP), Ordering::Less);
    assert_eq!(compare_tags(HMTX, HHEA), Ordering::Greater);
    assert_eq!(compare_tags(CMAP, CMAP), Ordering::Equal);
    assert_eq!(compare_tags(POST, 7), Ordering::Less);
    assert_eq!(compare_tags(7, 8), Ordering::Equal);
    assert_eq!(compare_tags(7, HEAD), Ordering::Greater);
}

#[test]
fn padding_brings_the_end_to_a_multiple_of_four() {
    assert_eq!(entry(HEAD, 100, 13).padding(), 3);
    assert_eq!(entry(HEAD, 100, 12).padding(), 0);
    assert_eq!(entry(HEAD, 100, 14).padding(), 2);
    assert_eq!(entry(HEAD, 100, 15).padding(), 1);
    assert_eq!(entry(HEAD, 0, 0).padding(), 0);
}

#[test]
fn padding_does_not_overflow() {
    assert_eq!(entry(HEAD, u32::MAX, u32::MAX).padding(), 2);
    assert_eq!(entry(HEAD, u32::MAX, 0).padding(), 1);
}

#[test]
fn directory_is_read_entry_by_entry() {
    let mut bytes = vec![0, 1, 0, 0, 0, 2, 0, 32, 0, 1, 0, 0];
    bytes.extend_from_slice(b"head");
    bytes.extend_from_slice(&[0, 0, 0, 7, 0, 0, 0, 44, 0, 0, 0, 56]);
    bytes.extend_from_slice(b"maxp");
    bytes.extend_from_slice(&[0, 0, 0, 8, 0, 0, 0, 100, 0, 0, 0, 32]);
    let mut stream = Stream::new(&bytes);
    let dir = FontDirectory::try_from_stream(&mut stream).unwrap();
    assert_eq!(dir.offset_subtable.scaler_type, 0x0001_0000);
    assert_eq!(dir.offset_subtable.num_tables, 2);
    assert_eq!(dir.offset_subtable.search_range, 32);
    assert_eq!(dir.offset_subtable.entry_selector, 1);
    assert_eq!(
        dir.table_directory.as_slice(),
        &[
            TableDirEntry { tag: HEAD, check_sum: 7, offset: 44, length: 56 },
            TableDirEntry { tag: MAXP, check_sum: 8, offset: 100, length: 32 },
        ][..]
    );
    assert_eq!(stream.stream_position(), 44);
    assert_eq!(encode(dir).unwrap(), bytes);
}

#[test]
fn directory_that_ends_early_is_an_error() {
    let mut bytes = vec![0, 1, 0, 0, 0, 2, 0, 32, 0, 1, 0, 0];
    bytes.extend_from_slice(b"head");
    bytes.extend_from_slice(&[0, 0, 0, 7, 0, 0, 0, 44, 0, 0, 0, 56]);
    let mut stream = Stream::new(&bytes);
    assert_eq!(
        FontDirectory::try_from_stream(&mut stream),
        Err(Error::DecodeError(DecodeError::UnexpectedEof))
    );
    let mut stream = Stream::new(&bytes[..11]);
    assert_eq!(
        FontDirectory::try_from_stream(&mut stream),
        Err(Error::DecodeError(DecodeError::UnexpectedEof))
    );
}

#[test]
fn required_tags_must_all_be_there() {
    let all: Vec<TableDirEntry> = REQUIRED_TAGS.iter().map(|t| entry(*t, 0, 0)).collect();
    assert!(directory(all.clone()).contains_required_tags());
    for skip in 0..all.len() {
        let mut some = all.clone();
        some.remove(skip);
        assert!(!directory(some).contains_required_tags());
    }
    assert!(!directory(Vec::new()).contains_required_tags());
}

#[test]
fn last_entry_of_a_tag_wins() {
    let dir = directory(vec![entry(HEAD, 1, 1), entry(MAXP, 2, 2), entry(HEAD, 3, 3)]);
    let map = dir.get_table_entries_map();
    assert_eq!(map.len(), 2);
    assert_eq!(map[&HEAD], entry(HEAD, 3, 3));
    assert_eq!(map[&MAXP], entry(MAXP, 2, 2));
}

#[test]
fn sorted_entries_put_producers_before_dependents() {
    let kern = u32::from_be_bytes(*b"kern");
    let gpos = u32::from_be_bytes(*b"GPOS");
    let dir = directory(vec![
        entry(gpos, 1, 0),
        entry(POST, 2, 0),
        entry(NAME, 3, 0),
        entry(CMAP, 4, 0),
        entry(HMTX, 5, 0),
        entry(kern, 6, 0),
        entry(HHEA, 7, 0),
        entry(GLYF, 8, 0),
        entry(LOCA, 9, 0),
        entry(MAXP, 10, 0),
        entry(HEAD, 11, 0),
    ]);
    let tags: Vec<u32> = dir.get_sorted_table_entries().iter().map(|e| e.tag).collect();
    assert_eq!(
        tags,
        vec![HEAD, MAXP, LOCA, GLYF, HHEA, HMTX, CMAP, NAME, POST, gpos, kern]
    );
}

#[test]
fn sorted_entries_hold_each_tag_once() {
    let kern = u32::from_be_bytes(*b"kern");
    let gpos = u32::from_be_bytes(*b"GPOS");
    let dir = directory(vec![
        entry(kern, 1, 0),
        entry(HEAD, 2, 0),
        entry(gpos, 3, 0),
        entry(kern, 4, 0),
        entry(HEAD, 5, 0),
    ]);
    assert_eq!(
        dir.get_sorted_table_entries(),
        vec![entry(HEAD, 5, 0), entry(gpos, 3, 0), entry(kern, 4, 0)]
    );
    assert_eq!(directory(Vec::new()).get_sorted_table_entries(), Vec::new());
}
