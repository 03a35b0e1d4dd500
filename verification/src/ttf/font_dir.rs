//! The font directory: which tables a font has and where they lie.

use crate::error::{end_of_stream, Error};
use crate::table::tags::{
    priority, Tag, CMAP, GLYF, HEAD, HHEA, HMTX, LOCA, MAXP, NAME, POST,
};
use crate::utils::codec::{has_value, value_at, Decode, Encode};
use crate::utils::reader::{
    fits, holds, items_at, lemma_holds_join, lemma_holds_split, lemma_items_exact,
    lemma_items_held, lemma_value_exact, lemma_value_held, ReadSeq, Stream, TryFromStream,
};
use crate::utils::types::{concat_wire, Sequence};
use std::collections::BTreeMap;
use vstd::prelude::*;
use vstd::slice::slice_subrange;

verus! {

/// The number of bytes that bring `end` up to the next multiple of four.
pub open spec fn padding_for(end: int) -> int {
    (4 - end % 4) % 4
}

/// The head of the font directory.
#[derive(Debug, Clone, Copy, PartialEq, Eq)]
pub struct OffsetSubtable {
    pub scaler_type: u32,
    /// The number of directory entries that follow.
    pub num_tables: u16,
    pub search_range: u16,
    pub entry_selector: u16,
    pub range_shift: u16,
}

impl Encode for OffsetSubtable {
    open spec fn wire(&self) -> Seq<u8> {
        self.scaler_type.wire()
            + self.num_tables.wire()
            + self.search_range.wire()
            + self.entry_selector.wire()
            + self.range_shift.wire()
    }

    fn encode(&self, out: &mut Vec<u8>) {
        self.scaler_type.encode(out);
        self.num_tables.encode(out);
        self.search_range.encode(out);
        self.entry_selector.encode(out);
        self.range_shift.encode(out);
        assert(out@ =~= old(out)@ + self.wire());
    }
}

impl Decode for OffsetSubtable {
    open spec fn wire_size() -> nat {
        12
    }

    open spec fn from_wire(bytes: Seq<u8>) -> OffsetSubtable {
        OffsetSubtable {
            scaler_type: u32::from_wire(bytes.subrange(0, 4)),
            num_tables: u16::from_wire(bytes.subrange(4, 6)),
            search_range: u16::from_wire(bytes.subrange(6, 8)),
            entry_selector: u16::from_wire(bytes.subrange(8, 10)),
            range_shift: u16::from_wire(bytes.subrange(10, 12)),
        }
    }

    proof fn lemma_wire_exact(bytes: Seq<u8>) {
        u32::lemma_wire_exact(bytes.subrange(0, 4));
        u16::lemma_wire_exact(bytes.subrange(4, 6));
        u16::lemma_wire_exact(bytes.subrange(6, 8));
        u16::lemma_wire_exact(bytes.subrange(8, 10));
        u16::lemma_wire_exact(bytes.subrange(10, 12));
        assert(Self::from_wire(bytes).wire() =~= bytes);
    }

    proof fn lemma_wire_round_trip(&self) {
        self.scaler_type.lemma_wire_round_trip();
        self.num_tables.lemma_wire_round_trip();
        self.search_range.lemma_wire_round_trip();
        self.entry_selector.lemma_wire_round_trip();
        self.range_shift.lemma_wire_round_trip();
        assert(self.wire().subrange(0, 4) =~= self.scaler_type.wire());
        assert(self.wire().subrange(4, 6) =~= self.num_tables.wire());
        assert(self.wire().subrange(6, 8) =~= self.search_range.wire());
        assert(self.wire().subrange(8, 10) =~= self.entry_selector.wire());
        assert(self.wire().subrange(10, 12) =~= self.range_shift.wire());
    }

    fn size() -> (n: usize) {
        12
    }

    fn decode_from_slice(bytes: &[u8]) -> (v: OffsetSubtable) {
        OffsetSubtable {
            scaler_type: u32::decode_from_slice(slice_subrange(bytes, 0, 4)),
            num_tables: u16::decode_from_slice(slice_subrange(bytes, 4, 6)),
            search_range: u16::decode_from_slice(slice_subrange(bytes, 6, 8)),
            entry_selector: u16::decode_from_slice(slice_subrange(bytes, 8, 10)),
            range_shift: u16::decode_from_slice(slice_subrange(bytes, 10, 12)),
        }
    }
}

/// A directory entry: where a table lies in the stream.
#[derive(Debug, Clone, Copy, PartialEq, Eq)]
pub struct TableDirEntry {
    /// The name of the table.
    pub tag: u32,
    pub check_sum: u32,
    /// Where the table starts, in bytes from the start of the stream.
    pub offset: u32,
    /// The length of the table in bytes, without padding.
    pub length: u32,
}

impl Encode for TableDirEntry {
    open spec fn wire(&self) -> Seq<u8> {
        self.tag.wire()
            + self.check_sum.wire()
            + self.offset.wire()
            + self.length.wire()
    }

    fn encode(&self, out: &mut Vec<u8>) {
        self.tag.encode(out);
        self.check_sum.encode(out);
        self.offset.encode(out);
        self.length.encode(out);
        assert(out@ =~= old(out)@ + self.wire());
    }
}

impl Decode for TableDirEntry {
    open spec fn wire_size() -> nat {
        16
    }

    open spec fn from_wire(bytes: Seq<u8>) -> TableDirEntry {
        TableDirEntry {
            tag: u32::from_wire(bytes.subrange(0, 4)),
            check_sum: u32::from_wire(bytes.subrange(4, 8)),
            offset: u32::from_wire(bytes.subrange(8, 12)),
            length: u32::from_wire(bytes.subrange(12, 16)),
        }
    }

    proof fn lemma_wire_exact(bytes: Seq<u8>) {
        u32::lemma_wire_exact(bytes.subrange(0, 4));
        u32::lemma_wire_exact(bytes.subrange(4, 8));
        u32::lemma_wire_exact(bytes.subrange(8, 12));
        u32::lemma_wire_exact(bytes.subrange(12, 16));
        assert(Self::from_wire(bytes).wire() =~= bytes);
    }

    proof fn lemma_wire_round_trip(&self) {
        self.tag.lemma_wire_round_trip();
        self.check_sum.lemma_wire_round_trip();
        self.offset.lemma_wire_round_trip();
        self.length.lemma_wire_round_trip();
        assert(self.wire().subrange(0, 4) =~= self.tag.wire());
        assert(self.wire().subrange(4, 8) =~= self.check_sum.wire());
        assert(self.wire().subrange(8, 12) =~= self.offset.wire());
        assert(self.wire().subrange(12, 16) =~= self.length.wire());
    }

    fn size() -> (n: usize) {
        16
    }

    fn decode_from_slice(bytes: &[u8]) -> (v: TableDirEntry) {
        TableDirEntry {
            tag: u32::decode_from_slice(slice_subrange(bytes, 0, 4)),
            check_sum: u32::decode_from_slice(slice_subrange(bytes, 4, 8)),
            offset: u32::decode_from_slice(slice_subrange(bytes, 8, 12)),
            length: u32::decode_from_slice(slice_subrange(bytes, 12, 16)),
        }
    }
}

impl TableDirEntry {
    /// The number of zero bytes that follow the table, so that the next one
    /// starts at a multiple of four bytes.
    pub fn padding(&self) -> (r: usize)
        ensures
            r == padding_for(self.offset + self.length),
            r < 4,
    {
        let end: u64 = self.offset as u64 + self.length as u64;
        let remainder: u64 = end % 4;
        ((4 - remainder) % 4) as usize
    }
}

/// The font directory: its head and one entry for each table.
#[derive(Debug, Clone, PartialEq, Eq)]
pub struct FontDirectory {
    pub offset_subtable: OffsetSubtable,
    pub table_directory: Sequence<TableDirEntry>,
}

/// The mathematical value of a [`FontDirectory`].
pub struct FontDirectoryModel {
    pub offset_subtable: OffsetSubtable,
    pub table_directory: Seq<TableDirEntry>,
}

impl View for FontDirectory {
    type V = FontDirectoryModel;

    open spec fn view(&self) -> FontDirectoryModel {
        FontDirectoryModel {
            offset_subtable: self.offset_subtable,
            table_directory: self.table_directory@,
        }
    }
}

/// Whether some entry of `entries` has the tag `tag`.
pub open spec fn has_tag(entries: Seq<TableDirEntry>, tag: Tag) -> bool {
    exists|i: int| 0 <= i < entries.len() && (#[trigger] entries[i]).tag == tag
}

/// Whether `entries` names each of the tables that every font must have.
pub open spec fn has_required_tags(entries: Seq<TableDirEntry>) -> bool {
    &&& has_tag(entries, CMAP)
    &&& has_tag(entries, GLYF)
    &&& has_tag(entries, HEAD)
    &&& has_tag(entries, HHEA)
    &&& has_tag(entries, HMTX)
    &&& has_tag(entries, LOCA)
    &&& has_tag(entries, MAXP)
    &&& has_tag(entries, NAME)
    &&& has_tag(entries, POST)
}

/// The entries by tag; of several entries with one tag, the last one counts.
pub open spec fn entries_map(entries: Seq<TableDirEntry>) -> Map<Tag, TableDirEntry>
    decreases entries.len(),
{
    if entries.len() == 0 {
        Map::empty()
    } else {
        entries_map(entries.drop_last()).insert(entries.last().tag, entries.last())
    }
}

/// The map of the entries has exactly the tags of the entries, and gives for
/// each tag an entry with that tag.
pub proof fn lemma_entries_map(entries: Seq<TableDirEntry>)
    ensures
        forall|tag: Tag| #[trigger] entries_map(entries).contains_key(tag) <==> has_tag(entries, tag),
        forall|tag: Tag| #[trigger]
            entries_map(entries).contains_key(tag) ==> entries_map(entries)[tag].tag == tag
                && entries.contains(entries_map(entries)[tag]),
        entries_map(entries).dom().finite(),
    decreases entries.len(),
{
    if entries.len() > 0 {
        let rest = entries.drop_last();
        let last = entries.last();
        lemma_entries_map(rest);
        assert forall|tag: Tag| #[trigger]
            entries_map(entries).contains_key(tag) <==> has_tag(entries, tag) by {
            if has_tag(entries, tag) {
                let i = choose|i: int| 0 <= i < entries.len() && (#[trigger] entries[i]).tag == tag;
                if i < rest.len() {
                    assert(rest[i].tag == tag);
                }
            }
            if has_tag(rest, tag) {
                let i = choose|i: int| 0 <= i < rest.len() && (#[trigger] rest[i]).tag == tag;
                assert(entries[i].tag == tag);
            }
            if tag == last.tag {
                assert(entries[entries.len() - 1].tag == tag);
            }
        }
        assert forall|tag: Tag| #[trigger] entries_map(entries).contains_key(tag) implies entries_map(
            entries,
        )[tag].tag == tag && entries.contains(entries_map(entries)[tag]) by {
            if tag == last.tag {
                assert(entries[entries.len() - 1] == last);
            } else {
                let e = entries_map(rest)[tag];
                let i = choose|i: int| 0 <= i < rest.len() && rest[i] == e;
                assert(entries[i] == e);
            }
        }
    }
}

/// The entry for `tag`, where there is one: a sequence of one item or none.
pub open spec fn entry_for(entries: Seq<TableDirEntry>, tag: Tag) -> Seq<TableDirEntry> {
    if entries_map(entries).contains_key(tag) {
        seq![entries_map(entries)[tag]]
    } else {
        Seq::empty()
    }
}

/// The entries of the tables with a known tag, in the order of their
/// priority.
pub open spec fn known_order(entries: Seq<TableDirEntry>) -> Seq<TableDirEntry> {
    entry_for(entries, HEAD) + entry_for(entries, MAXP) + entry_for(entries, LOCA) + entry_for(
        entries,
        GLYF,
    ) + entry_for(entries, HHEA) + entry_for(entries, HMTX) + entry_for(entries, CMAP) + entry_for(
        entries,
        NAME,
    ) + entry_for(entries, POST)
}

/// Whether an entry at index `from` or later has the tag `tag`.
pub open spec fn occurs_from(entries: Seq<TableDirEntry>, tag: Tag, from: int) -> bool {
    exists|j: int| from <= j < entries.len() && (#[trigger] entries[j]).tag == tag
}

/// Of the first `n` entries, those with an unknown tag that no later entry
/// has, in the order of the directory.
pub open spec fn unknown_order(entries: Seq<TableDirEntry>, n: int) -> Seq<TableDirEntry>
    decreases n,
{
    if n <= 0 {
        Seq::empty()
    } else {
        let before = unknown_order(entries, n - 1);
        let entry = entries[n - 1];
        if priority(entry.tag) == 255 && !occurs_from(entries, entry.tag, n) {
            before.push(entry)
        } else {
            before
        }
    }
}

/// The order in which the tables are decoded and written: one entry for each
/// tag of the directory, the known tags first, by priority, then the others
/// as the directory lists them.
pub open spec fn decode_order(entries: Seq<TableDirEntry>) -> Seq<TableDirEntry> {
    known_order(entries) + unknown_order(entries, entries.len() as int)
}

/// Every entry that stands behind the known ones in the order of decoding
/// is an entry of the directory with an unknown tag.
pub proof fn lemma_unknown_order(entries: Seq<TableDirEntry>, n: int)
    requires
        n <= entries.len(),
    ensures
        forall|k: int|
            0 <= k < unknown_order(entries, n).len() ==> priority(
                (#[trigger] unknown_order(entries, n)[k]).tag,
            ) == 255 && entries.contains(unknown_order(entries, n)[k]),
    decreases n,
{
    if n > 0 {
        lemma_unknown_order(entries, n - 1);
        let before = unknown_order(entries, n - 1);
        let order = unknown_order(entries, n);
        let entry = entries[n - 1];
        assert(entries.contains(entry));
        assert forall|k: int| 0 <= k < order.len() implies priority((#[trigger] order[k]).tag)
            == 255 && entries.contains(order[k]) by {
            if k < before.len() {
                assert(order[k] == before[k]);
            }
        }
    }
}

/// An unknown tag whose last entry is among the first `n` entries has an
/// entry behind the known ones in the order of decoding.
proof fn lemma_unknown_order_has(entries: Seq<TableDirEntry>, n: int, i: int)
    requires
        0 <= i < n <= entries.len(),
        priority(entries[i].tag) == 255,
        !occurs_from(entries, entries[i].tag, i + 1),
    ensures
        has_tag(unknown_order(entries, n), entries[i].tag),
    decreases n,
{
    let order = unknown_order(entries, n);
    if i == n - 1 {
        assert(order[order.len() - 1].tag == entries[i].tag);
    } else {
        lemma_unknown_order_has(entries, n - 1, i);
        let before = unknown_order(entries, n - 1);
        let k = choose|k: int| 0 <= k < before.len() && (#[trigger] before[k]).tag == entries[i].tag;
        assert(order[k].tag == entries[i].tag);
    }
}

/// A tag that occurs at index `from` or later occurs at some index for the
/// last time.
proof fn lemma_last_occurrence(entries: Seq<TableDirEntry>, tag: Tag, from: int) -> (i: int)
    requires
        0 <= from,
        occurs_from(entries, tag, from),
    ensures
        from <= i < entries.len(),
        entries[i].tag == tag,
        !occurs_from(entries, tag, i + 1),
    decreases entries.len() - from,
{
    let j = choose|j: int| from <= j < entries.len() && (#[trigger] entries[j]).tag == tag;
    if occurs_from(entries, tag, j + 1) {
        lemma_last_occurrence(entries, tag, j + 1)
    } else {
        j
    }
}

/// The order of decoding holds entries of the directory only, and an entry
/// for each tag of the directory.
pub proof fn lemma_decode_order_tags(entries: Seq<TableDirEntry>)
    ensures
        forall|k: int|
            0 <= k < decode_order(entries).len() ==> entries.contains(
                #[trigger] decode_order(entries)[k],
            ),
        forall|tag: Tag| #[trigger] has_tag(decode_order(entries), tag) <==> has_tag(entries, tag),
{
    let order = decode_order(entries);
    let known = known_order(entries);
    let unknown = unknown_order(entries, entries.len() as int);
    lemma_entries_map(entries);
    lemma_unknown_order(entries, entries.len() as int);
    assert forall|k: int| 0 <= k < known.len() implies entries.contains(#[trigger] known[k])
        && priority(known[k].tag) != 255 && entries_map(entries).contains_key(known[k].tag)
        && known[k] == entries_map(entries)[known[k].tag] by {
        lemma_known_order_item(entries, k);
    }
    assert forall|k: int| 0 <= k < order.len() implies entries.contains(#[trigger] order[k]) by {
        if k < known.len() {
            assert(order[k] == known[k]);
        } else {
            assert(order[k] == unknown[k - known.len()]);
        }
    }
    assert forall|tag: Tag| #[trigger] has_tag(order, tag) <==> has_tag(entries, tag) by {
        if has_tag(order, tag) {
            let k = choose|k: int| 0 <= k < order.len() && (#[trigger] order[k]).tag == tag;
            assert(entries.contains(order[k]));
            let i = choose|i: int| 0 <= i < entries.len() && entries[i] == order[k];
            assert(entries[i].tag == tag);
        }
        if has_tag(entries, tag) {
            if priority(tag) == 255 {
                let w = choose|w: int| 0 <= w < entries.len() && (#[trigger] entries[w]).tag == tag;
                assert(occurs_from(entries, tag, 0));
                let i = lemma_last_occurrence(entries, tag, 0);
                lemma_unknown_order_has(entries, entries.len() as int, i);
                let k = choose|k: int| 0 <= k < unknown.len() && (#[trigger] unknown[k]).tag == tag;
                assert(order[known.len() + k].tag == tag);
            } else {
                let k = lemma_known_order_has(entries, tag);
                assert(order[k].tag == tag);
            }
        }
    }
}

/// Each of the known entries is the entry that the directory has for its
/// tag, and the tag is a known one.
proof fn lemma_known_order_item(entries: Seq<TableDirEntry>, k: int)
    requires
        0 <= k < known_order(entries).len(),
    ensures
        priority(known_order(entries)[k].tag) != 255,
        entries_map(entries).contains_key(known_order(entries)[k].tag),
        known_order(entries)[k] == entries_map(entries)[known_order(entries)[k].tag],
        entries.contains(known_order(entries)[k]),
{
    lemma_entries_map(entries);
    let s0 = entry_for(entries, HEAD);
    let s1 = s0 + entry_for(entries, MAXP);
    let s2 = s1 + entry_for(entries, LOCA);
    let s3 = s2 + entry_for(entries, GLYF);
    let s4 = s3 + entry_for(entries, HHEA);
    let s5 = s4 + entry_for(entries, HMTX);
    let s6 = s5 + entry_for(entries, CMAP);
    let s7 = s6 + entry_for(entries, NAME);
    let s8 = s7 + entry_for(entries, POST);
    assert(known_order(entries) == s8);
    lemma_entry_for_item(entries, HEAD);
    lemma_entry_for_item(entries, MAXP);
    lemma_entry_for_item(entries, LOCA);
    lemma_entry_for_item(entries, GLYF);
    lemma_entry_for_item(entries, HHEA);
    lemma_entry_for_item(entries, HMTX);
    lemma_entry_for_item(entries, CMAP);
    lemma_entry_for_item(entries, NAME);
    lemma_entry_for_item(entries, POST);
    if k < s0.len() {
    } else if k < s1.len() {
        assert(s8[k] == entry_for(entries, MAXP)[k - s0.len()]);
    } else if k < s2.len() {
        assert(s8[k] == entry_for(entries, LOCA)[k - s1.len()]);
    } else if k < s3.len() {
        assert(s8[k] == entry_for(entries, GLYF)[k - s2.len()]);
    } else if k < s4.len() {
        assert(s8[k] == entry_for(entries, HHEA)[k - s3.len()]);
    } else if k < s5.len() {
        assert(s8[k] == entry_for(entries, HMTX)[k - s4.len()]);
    } else if k < s6.len() {
        assert(s8[k] == entry_for(entries, CMAP)[k - s5.len()]);
    } else if k < s7.len() {
        assert(s8[k] == entry_for(entries, NAME)[k - s6.len()]);
    } else {
        assert(s8[k] == entry_for(entries, POST)[k - s7.len()]);
    }
}

/// The entry for a tag, where there is one, is the one that the directory
/// has for the tag.
proof fn lemma_entry_for_item(entries: Seq<TableDirEntry>, tag: Tag)
    ensures
        entry_for(entries, tag).len() <= 1,
        entry_for(entries, tag).len() == 1 <==> has_tag(entries, tag),
        entry_for(entries, tag).len() == 1 ==> {
            let entry = entry_for(entries, tag)[0];
            &&& entry.tag == tag
            &&& entries_map(entries).contains_key(tag)
            &&& entry == entries_map(entries)[tag]
            &&& entries.contains(entry)
        },
{
    lemma_entries_map(entries);
}

/// A known tag of the directory has its entry among the known entries.
proof fn lemma_known_order_has(entries: Seq<TableDirEntry>, tag: Tag) -> (k: int)
    requires
        has_tag(entries, tag),
        priority(tag) != 255,
    ensures
        0 <= k < known_order(entries).len(),
        known_order(entries)[k].tag == tag,
{
    let s0 = entry_for(entries, HEAD);
    let s1 = s0 + entry_for(entries, MAXP);
    let s2 = s1 + entry_for(entries, LOCA);
    let s3 = s2 + entry_for(entries, GLYF);
    let s4 = s3 + entry_for(entries, HHEA);
    let s5 = s4 + entry_for(entries, HMTX);
    let s6 = s5 + entry_for(entries, CMAP);
    let s7 = s6 + entry_for(entries, NAME);
    let s8 = s7 + entry_for(entries, POST);
    assert(known_order(entries) == s8);
    lemma_entry_for_item(entries, tag);
    if tag == HEAD {
        0
    } else if tag == MAXP {
        assert(s8[s0.len() as int] == entry_for(entries, MAXP)[0]);
        s0.len() as int
    } else if tag == LOCA {
        assert(s8[s1.len() as int] == entry_for(entries, LOCA)[0]);
        s1.len() as int
    } else if tag == GLYF {
        assert(s8[s2.len() as int] == entry_for(entries, GLYF)[0]);
        s2.len() as int
    } else if tag == HHEA {
        assert(s8[s3.len() as int] == entry_for(entries, HHEA)[0]);
        s3.len() as int
    } else if tag == HMTX {
        assert(s8[s4.len() as int] == entry_for(entries, HMTX)[0]);
        s4.len() as int
    } else if tag == CMAP {
        assert(s8[s5.len() as int] == entry_for(entries, CMAP)[0]);
        s5.len() as int
    } else if tag == NAME {
        assert(s8[s6.len() as int] == entry_for(entries, NAME)[0]);
        s6.len() as int
    } else {
        assert(s8[s7.len() as int] == entry_for(entries, POST)[0]);
        s7.len() as int
    }
}

/// Whether the priorities of the tags of `order` grow strictly from each
/// entry to the next and stay below `bound`.
pub open spec fn ranked(order: Seq<TableDirEntry>, bound: int) -> bool {
    &&& forall|i: int, j: int|
        0 <= i < j < order.len() ==> priority((#[trigger] order[i]).tag) < priority(
            (#[trigger] order[j]).tag,
        )
    &&& forall|i: int| 0 <= i < order.len() ==> priority((#[trigger] order[i]).tag) < bound
}

/// Behind entries of lower priority, the entry for a tag keeps the order
/// ranked.
proof fn lemma_ranked_push(order: Seq<TableDirEntry>, entries: Seq<TableDirEntry>, tag: Tag)
    requires
        ranked(order, priority(tag) as int),
    ensures
        ranked(order + entry_for(entries, tag), priority(tag) + 1),
{
    lemma_entry_for_item(entries, tag);
    let next = order + entry_for(entries, tag);
    assert forall|i: int, j: int| 0 <= i < j < next.len() implies priority(
        (#[trigger] next[i]).tag,
    ) < priority((#[trigger] next[j]).tag) by {
        assert(next[i] == order[i]);
        if j < order.len() {
            assert(next[j] == order[j]);
        } else {
            assert(next[j] == entry_for(entries, tag)[0]);
        }
    }
    assert forall|i: int| 0 <= i < next.len() implies priority((#[trigger] next[i]).tag)
        < priority(tag) + 1 by {
        if i < order.len() {
            assert(next[i] == order[i]);
        } else {
            assert(next[i] == entry_for(entries, tag)[0]);
        }
    }
}

/// The known entries stand in the strict order of their priorities.
proof fn lemma_known_order_ranked(entries: Seq<TableDirEntry>)
    ensures
        ranked(known_order(entries), 10),
{
    let s0 = entry_for(entries, HEAD);
    let s1 = s0 + entry_for(entries, MAXP);
    let s2 = s1 + entry_for(entries, LOCA);
    let s3 = s2 + entry_for(entries, GLYF);
    let s4 = s3 + entry_for(entries, HHEA);
    let s5 = s4 + entry_for(entries, HMTX);
    let s6 = s5 + entry_for(entries, CMAP);
    let s7 = s6 + entry_for(entries, NAME);
    let s8 = s7 + entry_for(entries, POST);
    assert(known_order(entries) == s8);
    let none = Seq::<TableDirEntry>::empty();
    assert(ranked(none, 1));
    lemma_ranked_push(none, entries, HEAD);
    assert(none + entry_for(entries, HEAD) =~= s0);
    lemma_ranked_push(s0, entries, MAXP);
    lemma_ranked_push(s1, entries, LOCA);
    lemma_ranked_push(s2, entries, GLYF);
    lemma_ranked_push(s3, entries, HHEA);
    lemma_ranked_push(s4, entries, HMTX);
    lemma_ranked_push(s5, entries, CMAP);
    lemma_ranked_push(s6, entries, NAME);
    lemma_ranked_push(s7, entries, POST);
}

/// Each of the unknown entries is the last entry of the directory with its
/// tag, and no two of them have the same tag.
proof fn lemma_unknown_order_distinct(entries: Seq<TableDirEntry>, n: int)
    requires
        n <= entries.len(),
    ensures
        forall|a: int|
            0 <= a < unknown_order(entries, n).len() ==> !occurs_from(
                entries,
                (#[trigger] unknown_order(entries, n)[a]).tag,
                n,
            ),
        forall|a: int, b: int|
            0 <= a < b < unknown_order(entries, n).len() ==> (#[trigger] unknown_order(
                entries,
                n,
            )[a]).tag != (#[trigger] unknown_order(entries, n)[b]).tag,
    decreases n,
{
    if n > 0 {
        lemma_unknown_order_distinct(entries, n - 1);
        let before = unknown_order(entries, n - 1);
        let order = unknown_order(entries, n);
        let entry = entries[n - 1];
        assert forall|a: int| 0 <= a < order.len() implies !occurs_from(
            entries,
            (#[trigger] order[a]).tag,
            n,
        ) by {
            if a < before.len() {
                assert(order[a] == before[a]);
                assert(!occurs_from(entries, before[a].tag, n - 1));
                if occurs_from(entries, order[a].tag, n) {
                    let j = choose|j: int|
                        n <= j < entries.len() && (#[trigger] entries[j]).tag == order[a].tag;
                    assert(n - 1 <= j < entries.len() && entries[j].tag == order[a].tag);
                }
            }
        }
        assert forall|a: int, b: int| 0 <= a < b < order.len() implies (#[trigger] order[a]).tag != (
        #[trigger] order[b]).tag by {
            assert(order[a] == before[a]);
            if b < before.len() {
                assert(order[b] == before[b]);
            } else {
                assert(order[b] == entry);
                assert(!occurs_from(entries, before[a].tag, n - 1));
                if before[a].tag == entry.tag {
                    assert(n - 1 <= n - 1 < entries.len() && entries[n - 1].tag == before[a].tag);
                }
            }
        }
    }
}

/// The order of decoding follows the priorities of the tags, so that a table
/// is decoded after every table it depends on, wherever the directory lists
/// it; and it holds no tag twice.
pub proof fn lemma_decode_order_sorted(entries: Seq<TableDirEntry>)
    ensures
        forall|i: int, j: int|
            0 <= i < j < decode_order(entries).len() ==> priority(
                (#[trigger] decode_order(entries)[i]).tag,
            ) <= priority((#[trigger] decode_order(entries)[j]).tag),
        forall|i: int, j: int|
            0 <= i < j < decode_order(entries).len() ==> (#[trigger] decode_order(entries)[i]).tag
                != (#[trigger] decode_order(entries)[j]).tag,
{
    let order = decode_order(entries);
    let known = known_order(entries);
    let unknown = unknown_order(entries, entries.len() as int);
    lemma_known_order_ranked(entries);
    lemma_unknown_order(entries, entries.len() as int);
    lemma_unknown_order_distinct(entries, entries.len() as int);
    assert forall|i: int, j: int| 0 <= i < j < order.len() implies priority(
        (#[trigger] order[i]).tag,
    ) <= priority((#[trigger] order[j]).tag) && order[i].tag != order[j].tag by {
        if j < known.len() {
            assert(order[i] == known[i] && order[j] == known[j]);
        } else if i < known.len() {
            assert(order[i] == known[i] && order[j] == unknown[j - known.len()]);
        } else {
            assert(order[i] == unknown[i - known.len()] && order[j] == unknown[j - known.len()]);
        }
    }
}

/// In a directory with all required tables, the order of decoding starts
/// with `head`, `maxp`, `loca`, `glyf`, `hhea`, `hmtx`, `cmap`, `name` and
/// `post`; the tables behind them have unknown tags.
pub proof fn lemma_decode_order_required(entries: Seq<TableDirEntry>)
    requires
        has_required_tags(entries),
    ensures
        decode_order(entries).len() >= 9,
        decode_order(entries)[0].tag == HEAD,
        decode_order(entries)[1].tag == MAXP,
        decode_order(entries)[2].tag == LOCA,
        decode_order(entries)[3].tag == GLYF,
        decode_order(entries)[4].tag == HHEA,
        decode_order(entries)[5].tag == HMTX,
        decode_order(entries)[6].tag == CMAP,
        decode_order(entries)[7].tag == NAME,
        decode_order(entries)[8].tag == POST,
        forall|k: int|
            9 <= k < decode_order(entries).len() ==> priority(
                (#[trigger] decode_order(entries)[k]).tag,
            ) == 255,
{
    lemma_entry_for_item(entries, HEAD);
    lemma_entry_for_item(entries, MAXP);
    lemma_entry_for_item(entries, LOCA);
    lemma_entry_for_item(entries, GLYF);
    lemma_entry_for_item(entries, HHEA);
    lemma_entry_for_item(entries, HMTX);
    lemma_entry_for_item(entries, CMAP);
    lemma_entry_for_item(entries, NAME);
    lemma_entry_for_item(entries, POST);
    lemma_unknown_order(entries, entries.len() as int);
    let known = known_order(entries);
    let unknown = unknown_order(entries, entries.len() as int);
    assert(known =~= seq![
        entry_for(entries, HEAD)[0],
        entry_for(entries, MAXP)[0],
        entry_for(entries, LOCA)[0],
        entry_for(entries, GLYF)[0],
        entry_for(entries, HHEA)[0],
        entry_for(entries, HMTX)[0],
        entry_for(entries, CMAP)[0],
        entry_for(entries, NAME)[0],
        entry_for(entries, POST)[0],
    ]);
    let order = decode_order(entries);
    assert forall|k: int| 9 <= k < order.len() implies priority((#[trigger] order[k]).tag)
        == 255 by {
        assert(order[k] == unknown[k - 9]);
    }
}

/// In a directory with all required tables, `loca` is decoded after `head`
/// and `maxp`, and `hmtx` after `maxp` and `hhea`.
pub proof fn lemma_dependencies_first(entries: Seq<TableDirEntry>, k: int)
    requires
        has_required_tags(entries),
        0 <= k < decode_order(entries).len(),
    ensures
        decode_order(entries)[k].tag == LOCA ==> has_tag(decode_order(entries).take(k), HEAD)
            && has_tag(decode_order(entries).take(k), MAXP),
        decode_order(entries)[k].tag == HMTX ==> has_tag(decode_order(entries).take(k), MAXP)
            && has_tag(decode_order(entries).take(k), HHEA),
{
    let order = decode_order(entries);
    lemma_decode_order_required(entries);
    if k >= 9 {
        assert(priority(order[k].tag) == 255);
    }
    if order[k].tag == LOCA {
        assert(k == 2);
        assert(order.take(k)[0].tag == HEAD);
        assert(order.take(k)[1].tag == MAXP);
    } else if order[k].tag == HMTX {
        assert(k == 5);
        assert(order.take(k)[1].tag == MAXP);
        assert(order.take(k)[4].tag == HHEA);
    }
}

/// What decoding a font directory at offset `at` gives.
pub open spec fn parse_directory(data: Seq<u8>, at: int) -> Result<(FontDirectoryModel, int), Error> {
    if !has_value::<OffsetSubtable>(data, at) {
        Err(end_of_stream())
    } else {
        let head = value_at::<OffsetSubtable>(data, at);
        if !fits(data, at + 12, 16 * head.num_tables) {
            Err(end_of_stream())
        } else {
            Ok(
                (
                    FontDirectoryModel {
                        offset_subtable: head,
                        table_directory: items_at::<TableDirEntry>(
                            data,
                            at + 12,
                            head.num_tables as int,
                        ),
                    },
                    at + 12 + 16 * head.num_tables,
                ),
            )
        }
    }
}

impl FontDirectoryModel {
    /// The directory has as many entries as its head says.
    pub open spec fn wf(self) -> bool {
        self.table_directory.len() == self.offset_subtable.num_tables
    }

    /// The bytes of the directory: the head, then the entries.
    pub open spec fn wire(self) -> Seq<u8> {
        self.offset_subtable.wire() + concat_wire(self.table_directory)
    }
}

/// Decoding the bytes of a well-formed directory gives the directory back.
pub proof fn lemma_directory_round_trip(data: Seq<u8>, at: int, directory: FontDirectoryModel)
    requires
        directory.wf(),
        holds(data, at, directory.wire()),
    ensures
        parse_directory(data, at) == Ok::<(FontDirectoryModel, int), Error>(
            (directory, at + directory.wire().len()),
        ),
        directory.wire().len() == 12 + 16 * directory.table_directory.len(),
{
    let b0 = directory.offset_subtable.wire();
    lemma_holds_split(data, at, b0, concat_wire(directory.table_directory));
    lemma_value_held::<OffsetSubtable>(data, at, directory.offset_subtable);
    lemma_items_held::<TableDirEntry>(data, at + b0.len(), directory.table_directory);
}

/// What was decoded is what the bytes hold: where a directory was decoded,
/// `data` holds its wire form, and the directory ends where the wire form
/// ends.
pub proof fn lemma_directory_exact(data: Seq<u8>, at: int)
    requires
        0 <= at,
    ensures
        parse_directory(data, at) matches Ok((directory, end)) ==> holds(
            data,
            at,
            directory.wire(),
        ) && end == at + directory.wire().len() && directory.wf(),
{
    if let Ok((directory, end)) = parse_directory(data, at) {
        lemma_value_exact::<OffsetSubtable>(data, at);
        lemma_items_exact::<TableDirEntry>(
            data,
            at + 12,
            directory.offset_subtable.num_tables as int,
        );
        lemma_holds_join(
            data,
            at,
            directory.offset_subtable.wire(),
            concat_wire(directory.table_directory),
        );
    }
}

impl TryFromStream for FontDirectory {
    type Model = FontDirectoryModel;

    open spec fn model(&self) -> FontDirectoryModel {
        self@
    }

    open spec fn parse(data: Seq<u8>, at: int) -> Result<(FontDirectoryModel, int), Error> {
        parse_directory(data, at)
    }

    fn try_from_stream(stream: &mut Stream<'_>) -> (r: Result<Self, Error>)
        ensures
            r matches Ok(v) ==> v@.wf(),
    {
        proof {
            stream.lemma_cursor_range();
        }
        let offset_subtable: OffsetSubtable = OffsetSubtable::try_from_stream(stream)?;
        let table_directory: Sequence<TableDirEntry> = stream.read_seq(
            offset_subtable.num_tables as usize,
        )?;
        Ok(FontDirectory { offset_subtable, table_directory })
    }
}

impl Encode for FontDirectory {
    open spec fn wire(&self) -> Seq<u8> {
        self@.wire()
    }

    fn encode(&self, out: &mut Vec<u8>) {
        self.offset_subtable.encode(out);
        self.table_directory.encode(out);
        assert(out@ =~= old(out)@ + self.wire());
    }
}

/// Appends the entry for `tag` to `order`, where the directory has one.
fn push_entry_for(
    order: &mut Vec<TableDirEntry>,
    map: &BTreeMap<Tag, TableDirEntry>,
    tag: Tag,
    Ghost(entries): Ghost<Seq<TableDirEntry>>,
)
    requires
        map@ == entries_map(entries),
    ensures
        final(order)@ == old(order)@ + entry_for(entries, tag),
{
    match map.get(&tag) {
        Some(entry) => {
            order.push(*entry);
            assert(order@ =~= old(order)@ + entry_for(entries, tag));
        },
        None => {
            assert(order@ =~= old(order)@ + entry_for(entries, tag));
        },
    }
}

impl FontDirectory {
    /// Whether the directory names each of the tables that every font must
    /// have.
    pub fn contains_required_tags(&self) -> (r: bool)
        ensures
            r == has_required_tags(self@.table_directory),
    {
        let entries_map = self.get_table_entries_map();
        proof {
            lemma_entries_map(self@.table_directory);
        }
        entries_map.contains_key(&CMAP) && entries_map.contains_key(&GLYF)
            && entries_map.contains_key(&HEAD) && entries_map.contains_key(&HHEA)
            && entries_map.contains_key(&HMTX) && entries_map.contains_key(&LOCA)
            && entries_map.contains_key(&MAXP) && entries_map.contains_key(&NAME)
            && entries_map.contains_key(&POST)
    }

    /// The entries in the order in which their tables are decoded and
    /// written: a table comes after every table it depends on.
    pub fn get_sorted_table_entries(&self) -> (order: Vec<TableDirEntry>)
        ensures
            order@ == decode_order(self@.table_directory),
    {
        let ghost entries = self@.table_directory;
        let map = self.get_table_entries_map();
        let mut order: Vec<TableDirEntry> = Vec::new();
        push_entry_for(&mut order, &map, HEAD, Ghost(entries));
        push_entry_for(&mut order, &map, MAXP, Ghost(entries));
        push_entry_for(&mut order, &map, LOCA, Ghost(entries));
        push_entry_for(&mut order, &map, GLYF, Ghost(entries));
        push_entry_for(&mut order, &map, HHEA, Ghost(entries));
        push_entry_for(&mut order, &map, HMTX, Ghost(entries));
        push_entry_for(&mut order, &map, CMAP, Ghost(entries));
        push_entry_for(&mut order, &map, NAME, Ghost(entries));
        push_entry_for(&mut order, &map, POST, Ghost(entries));
        assert(order@ =~= known_order(entries));
        let list: &[TableDirEntry] = self.table_directory.as_slice();
        let mut i: usize = 0;
        while i < list.len()
            invariant
                i <= list@.len(),
                list@ == entries,
                order@ == known_order(entries) + unknown_order(entries, i as int),
            decreases list@.len() - i,
        {
            let entry: TableDirEntry = list[i];
            if crate::table::tags::tag_priority(entry.tag) == 255 {
                let mut j: usize = i + 1;
                let mut found: bool = false;
                while j < list.len() && !found
                    invariant
                        i < j <= list@.len(),
                        list@ == entries,
                        entry == entries[i as int],
                        found ==> occurs_from(entries, entry.tag, i + 1),
                        !found ==> forall|k: int| i < k < j ==> (#[trigger] entries[k]).tag != entry.tag,
                    decreases list@.len() - j + if found { 0int } else { 1int },
                {
                    if list[j].tag == entry.tag {
                        found = true;
                        assert(entries[j as int].tag == entry.tag);
                    } else {
                        j = j + 1;
                    }
                }
                if !found {
                    order.push(entry);
                }
            }
            i = i + 1;
            assert(order@ =~= known_order(entries) + unknown_order(entries, i as int));
        }
        order
    }

    /// The entries by tag; of several entries with one tag, the last counts.
    pub fn get_table_entries_map(&self) -> (map: BTreeMap<Tag, TableDirEntry>)
        ensures
            map@ == entries_map(self@.table_directory),
    {
        let list: &[TableDirEntry] = self.table_directory.as_slice();
        let mut map: BTreeMap<Tag, TableDirEntry> = BTreeMap::new();
        let mut i: usize = 0;
        while i < list.len()
            invariant
                i <= list@.len(),
                list@ == self@.table_directory,
                map@ == entries_map(list@.take(i as int)),
            decreases list@.len() - i,
        {
            let entry: TableDirEntry = list[i];
            proof {
                assert(list@.take(i + 1).drop_last() =~= list@.take(i as int));
                assert(list@.take(i + 1).last() == entry);
            }
            map.insert(entry.tag, entry);
            i = i + 1;
        }
        assert(list@.take(i as int) =~= list@);
        map
    }
}

} // verus!
