//! The `cmap` table: from character codes to glyph indices.

pub mod format_12;
pub mod format_4;
pub mod format_6;

pub use format_12::{lemma_format_12_exact, lemma_format_12_round_trip, parse_format_12, Format12, Format12Group, Format12Model};
pub use format_4::{lemma_format_4_exact, lemma_format_4_round_trip, parse_format_4, Format4, Format4Model};
pub use format_6::{lemma_format_6_exact, lemma_format_6_round_trip, parse_format_6, Format6, Format6Model};

use crate::error::{end_of_stream, Error};
use crate::utils::codec::{value_at, Decode, Encode};
use crate::utils::reader::{
    fits, holds, items_at, lemma_holds_join, lemma_holds_split, lemma_items_exact,
    lemma_items_held, lemma_value_exact, lemma_value_held, ReadSeq, Stream, TryFromStream,
};
use crate::utils::types::{concat_wire, Sequence};
use vstd::prelude::*;
use vstd::slice::slice_subrange;

verus! {

/// The head of the `cmap` table.
#[derive(Debug, Clone, Copy, PartialEq, Eq)]
pub struct CmapHeader {
    pub version: u16,
    /// The number of encoding records that follow.
    pub number_subtables: u16,
}

impl Encode for CmapHeader {
    open spec fn wire(&self) -> Seq<u8> {
        self.version.wire()
            + self.number_subtables.wire()
    }

    fn encode(&self, out: &mut Vec<u8>) {
        self.version.encode(out);
        self.number_subtables.encode(out);
        assert(out@ =~= old(out)@ + self.wire());
    }
}

impl Decode for CmapHeader {
    open spec fn wire_size() -> nat {
        4
    }

    open spec fn from_wire(bytes: Seq<u8>) -> CmapHeader {
        CmapHeader {
            version: u16::from_wire(bytes.subrange(0, 2)),
            number_subtables: u16::from_wire(bytes.subrange(2, 4)),
        }
    }

    proof fn lemma_wire_exact(bytes: Seq<u8>) {
        u16::lemma_wire_exact(bytes.subrange(0, 2));
        u16::lemma_wire_exact(bytes.subrange(2, 4));
        assert(Self::from_wire(bytes).wire() =~= bytes);
    }

    proof fn lemma_wire_round_trip(&self) {
        self.version.lemma_wire_round_trip();
        self.number_subtables.lemma_wire_round_trip();
        assert(self.wire().subrange(0, 2) =~= self.version.wire());
        assert(self.wire().subrange(2, 4) =~= self.number_subtables.wire());
    }

    fn size() -> (n: usize) {
        4
    }

    fn decode_from_slice(bytes: &[u8]) -> (v: CmapHeader) {
        CmapHeader {
            version: u16::decode_from_slice(slice_subrange(bytes, 0, 2)),
            number_subtables: u16::decode_from_slice(slice_subrange(bytes, 2, 4)),
        }
    }
}

/// An encoding record: which subtable serves a platform.
#[derive(Debug, Clone, Copy, PartialEq, Eq)]
pub struct EncodingSubtable {
    pub platform_id: u16,
    pub platform_specific_id: u16,
    /// Where the subtable starts, in bytes from the start of the `cmap` table.
    pub offset: u32,
}

impl Encode for EncodingSubtable {
    open spec fn wire(&self) -> Seq<u8> {
        self.platform_id.wire()
            + self.platform_specific_id.wire()
            + self.offset.wire()
    }

    fn encode(&self, out: &mut Vec<u8>) {
        self.platform_id.encode(out);
        self.platform_specific_id.encode(out);
        self.offset.encode(out);
        assert(out@ =~= old(out)@ + self.wire());
    }
}

impl Decode for EncodingSubtable {
    open spec fn wire_size() -> nat {
        8
    }

    open spec fn from_wire(bytes: Seq<u8>) -> EncodingSubtable {
        EncodingSubtable {
            platform_id: u16::from_wire(bytes.subrange(0, 2)),
            platform_specific_id: u16::from_wire(bytes.subrange(2, 4)),
            offset: u32::from_wire(bytes.subrange(4, 8)),
        }
    }

    proof fn lemma_wire_exact(bytes: Seq<u8>) {
        u16::lemma_wire_exact(bytes.subrange(0, 2));
        u16::lemma_wire_exact(bytes.subrange(2, 4));
        u32::lemma_wire_exact(bytes.subrange(4, 8));
        assert(Self::from_wire(bytes).wire() =~= bytes);
    }

    proof fn lemma_wire_round_trip(&self) {
        self.platform_id.lemma_wire_round_trip();
        self.platform_specific_id.lemma_wire_round_trip();
        self.offset.lemma_wire_round_trip();
        assert(self.wire().subrange(0, 2) =~= self.platform_id.wire());
        assert(self.wire().subrange(2, 4) =~= self.platform_specific_id.wire());
        assert(self.wire().subrange(4, 8) =~= self.offset.wire());
    }

    fn size() -> (n: usize) {
        8
    }

    fn decode_from_slice(bytes: &[u8]) -> (v: EncodingSubtable) {
        EncodingSubtable {
            platform_id: u16::decode_from_slice(slice_subrange(bytes, 0, 2)),
            platform_specific_id: u16::decode_from_slice(slice_subrange(bytes, 2, 4)),
            offset: u32::decode_from_slice(slice_subrange(bytes, 4, 8)),
        }
    }
}

/// A character-map subtable in one of the supported formats.
#[derive(Debug, Clone, PartialEq, Eq)]
pub enum CmapSubtable {
    Format4(Format4),
    Format6(Format6),
    Format12(Format12),
}

/// The mathematical value of a [`CmapSubtable`].
pub enum CmapSubtableModel {
    Format4(Format4Model),
    Format6(Format6Model),
    Format12(Format12Model),
}

impl View for CmapSubtable {
    type V = CmapSubtableModel;

    open spec fn view(&self) -> CmapSubtableModel {
        match self {
            CmapSubtable::Format4(table) => CmapSubtableModel::Format4(table@),
            CmapSubtable::Format6(table) => CmapSubtableModel::Format6(table@),
            CmapSubtable::Format12(table) => CmapSubtableModel::Format12(table@),
        }
    }
}

impl CmapSubtableModel {
    /// The subtable is well formed for its format.
    pub open spec fn wf(self) -> bool {
        match self {
            CmapSubtableModel::Format4(table) => table.wf(),
            CmapSubtableModel::Format6(table) => table.wf(),
            CmapSubtableModel::Format12(table) => table.wf(),
        }
    }

    /// The bytes of the subtable, the format field first.
    pub open spec fn wire(self) -> Seq<u8> {
        match self {
            CmapSubtableModel::Format4(table) => table.wire(),
            CmapSubtableModel::Format6(table) => table.wire(),
            CmapSubtableModel::Format12(table) => table.wire(),
        }
    }
}

/// The subtable that starts at offset `at` with its format field.
pub open spec fn parse_subtable(data: Seq<u8>, at: int) -> Result<(CmapSubtableModel, int), Error> {
    if !fits(data, at, 2) {
        Err(end_of_stream())
    } else {
        let format = value_at::<u16>(data, at);
        if format == 4 {
            match parse_format_4(data, at + 2) {
                Ok((table, end)) => Ok((CmapSubtableModel::Format4(table), end)),
                Err(e) => Err(e),
            }
        } else if format == 6 {
            match parse_format_6(data, at + 2) {
                Ok((table, end)) => Ok((CmapSubtableModel::Format6(table), end)),
                Err(e) => Err(e),
            }
        } else if format == 12 {
            match parse_format_12(data, at + 2) {
                Ok((table, end)) => Ok((CmapSubtableModel::Format12(table), end)),
                Err(e) => Err(e),
            }
        } else {
            Err(Error::UnsupportedCmapSubtable(format))
        }
    }
}

impl TryFromStream for CmapSubtable {
    type Model = CmapSubtableModel;

    open spec fn model(&self) -> CmapSubtableModel {
        self@
    }

    open spec fn parse(data: Seq<u8>, at: int) -> Result<(CmapSubtableModel, int), Error> {
        parse_subtable(data, at)
    }

    fn try_from_stream(stream: &mut Stream<'_>) -> (r: Result<Self, Error>)
        ensures
            r matches Ok(v) ==> v@.wf(),
    {
        let format: u16 = u16::try_from_stream(stream)?;
        if format == 4 {
            let table: Format4 = Format4::try_from_stream(stream)?;
            Ok(CmapSubtable::Format4(table))
        } else if format == 6 {
            let table: Format6 = Format6::try_from_stream(stream)?;
            Ok(CmapSubtable::Format6(table))
        } else if format == 12 {
            let table: Format12 = Format12::try_from_stream(stream)?;
            Ok(CmapSubtable::Format12(table))
        } else {
            Err(Error::UnsupportedCmapSubtable(format))
        }
    }
}

impl Encode for CmapSubtable {
    open spec fn wire(&self) -> Seq<u8> {
        self@.wire()
    }

    fn encode(&self, out: &mut Vec<u8>) {
        match self {
            CmapSubtable::Format4(table) => table.encode(out),
            CmapSubtable::Format6(table) => table.encode(out),
            CmapSubtable::Format12(table) => table.encode(out),
        }
    }
}

/// Whether the items of `s` grow strictly from each to the next.
pub open spec fn strictly_ascending(s: Seq<u32>) -> bool {
    forall|i: int, j: int| 0 <= i < j < s.len() ==> s[i] < s[j]
}

/// The ascending sequence `s` with `x` put in its place, unless it is there.
pub open spec fn insert_ascending(s: Seq<u32>, x: u32) -> Seq<u32>
    decreases s.len(),
{
    if s.len() == 0 {
        seq![x]
    } else if s.last() == x {
        s
    } else if s.last() < x {
        s.push(x)
    } else {
        insert_ascending(s.drop_last(), x).push(s.last())
    }
}

/// The distinct items of `v` in ascending order.
pub open spec fn ascending_distinct(v: Seq<u32>) -> Seq<u32>
    decreases v.len(),
{
    if v.len() == 0 {
        Seq::empty()
    } else {
        insert_ascending(ascending_distinct(v.drop_last()), v.last())
    }
}

/// The subtable offsets of the encoding records, in the order of the records.
pub open spec fn record_offsets(records: Seq<EncodingSubtable>) -> Seq<u32> {
    records.map_values(|r: EncodingSubtable| r.offset)
}

/// Putting `x` into an ascending sequence keeps it ascending and adds `x`,
/// and nothing else, to its items.
pub proof fn lemma_insert_ascending(s: Seq<u32>, x: u32)
    requires
        strictly_ascending(s),
    ensures
        strictly_ascending(insert_ascending(s, x)),
        forall|y: u32| insert_ascending(s, x).contains(y) <==> (s.contains(y) || y == x),
    decreases s.len(),
{
    let r = insert_ascending(s, x);
    if s.len() == 0 {
        assert(r[0] == x);
    } else if s.last() == x {
        assert(s[s.len() - 1] == x);
    } else if s.last() < x {
        assert(r[s.len() as int] == x);
        assert forall|y: u32| r.contains(y) <==> (s.contains(y) || y == x) by {
            vstd::seq_lib::lemma_seq_contains_after_push(s, x, y);
        }
    } else {
        let rest = s.drop_last();
        let inner = insert_ascending(rest, x);
        assert(strictly_ascending(rest)) by {
            assert forall|i: int, j: int| 0 <= i < j < rest.len() implies rest[i] < rest[j] by {
                assert(rest[i] == s[i] && rest[j] == s[j]);
            }
        }
        lemma_insert_ascending(rest, x);
        assert forall|y: u32| inner.contains(y) implies y < s.last() by {
            if rest.contains(y) {
                let k = choose|k: int| 0 <= k < rest.len() && rest[k] == y;
                assert(s[k] == y);
                assert(s[k] < s[s.len() - 1]);
            }
        }
        assert forall|i: int, j: int| 0 <= i < j < r.len() implies r[i] < r[j] by {
            if j == r.len() - 1 {
                assert(inner.contains(inner[i]));
            } else {
                assert(r[i] == inner[i] && r[j] == inner[j]);
            }
        }
        assert forall|y: u32| r.contains(y) <==> (s.contains(y) || y == x) by {
            vstd::seq_lib::lemma_seq_contains_after_push(inner, s.last(), y);
            vstd::seq_lib::lemma_seq_contains_after_push(rest, s.last(), y);
            assert(rest.push(s.last()) =~= s);
        }
    }
}

/// The distinct items of `v` in ascending order are ascending, hold the items
/// of `v` and no others, and are as many as `v` has distinct items.
pub proof fn lemma_ascending_distinct(v: Seq<u32>)
    ensures
        strictly_ascending(ascending_distinct(v)),
        forall|y: u32| ascending_distinct(v).contains(y) <==> v.contains(y),
        ascending_distinct(v).to_set() == v.to_set(),
        ascending_distinct(v).len() == v.to_set().len(),
    decreases v.len(),
{
    let r = ascending_distinct(v);
    if v.len() > 0 {
        let rest = v.drop_last();
        lemma_ascending_distinct(rest);
        let inner = ascending_distinct(rest);
        lemma_insert_ascending(inner, v.last());
        assert(r == insert_ascending(inner, v.last()));
        assert(rest.push(v.last()) =~= v);
        assert forall|y: u32| r.contains(y) <==> v.contains(y) by {
            vstd::seq_lib::lemma_seq_contains_after_push(rest, v.last(), y);
            assert(r.contains(y) <==> (inner.contains(y) || y == v.last()));
            assert(inner.contains(y) <==> rest.contains(y));
        }
    }
    assert(r.to_set() =~= v.to_set());
    assert(r.no_duplicates()) by {
        assert forall|i: int, j: int| 0 <= i < r.len() && 0 <= j < r.len() && i != j implies r[i]
            != r[j] by {
            if i < j {
                assert(r[i] < r[j]);
            } else {
                assert(r[j] < r[i]);
            }
        }
    }
    r.unique_seq_to_set();
}

/// Where `x` belongs in `s`: behind everything that is not greater.
proof fn lemma_insert_ascending_at(s: Seq<u32>, x: u32, j: int)
    requires
        0 <= j <= s.len(),
        forall|k: int| j <= k < s.len() ==> s[k] > x,
        j > 0 ==> s[j - 1] <= x,
    ensures
        insert_ascending(s, x) == if j > 0 && s[j - 1] == x {
            s
        } else {
            s.insert(j, x)
        },
    decreases s.len(),
{
    if s.len() == 0 {
        assert(seq![x] =~= s.insert(j, x));
    } else if j == s.len() {
        if s.last() != x {
            assert(s.push(x) =~= s.insert(j, x));
        }
    } else {
        let rest = s.drop_last();
        assert(s[s.len() - 1] > x);
        lemma_insert_ascending_at(rest, x, j);
        if j > 0 && s[j - 1] == x {
            assert(rest.push(s.last()) =~= s);
        } else {
            assert(rest.insert(j, x).push(s.last()) =~= s.insert(j, x));
        }
    }
}

/// Puts `x` in its place in the ascending vector, unless it is there.
fn insert_offset(offsets: &mut Vec<u32>, x: u32)
    ensures
        final(offsets)@ == insert_ascending(old(offsets)@, x),
{
    let mut j: usize = offsets.len();
    while j > 0 && offsets[j - 1] > x
        invariant
            j <= offsets.len(),
            offsets@ == old(offsets)@,
            forall|k: int| j <= k < offsets.len() ==> offsets@[k] > x,
        decreases j,
    {
        j = j - 1;
    }
    proof {
        lemma_insert_ascending_at(offsets@, x, j as int);
    }
    if j > 0 && offsets[j - 1] == x {
    } else {
        offsets.insert(j, x);
    }
}

/// The distinct subtable offsets of the encoding records, ascending.
pub fn distinct_offsets(records: &Sequence<EncodingSubtable>) -> (offsets: Vec<u32>)
    ensures
        offsets@ == ascending_distinct(record_offsets(records@)),
{
    let mut offsets: Vec<u32> = Vec::new();
    let mut i: usize = 0;
    while i < records.len()
        invariant
            i <= records@.len(),
            offsets@ == ascending_distinct(record_offsets(records@).take(i as int)),
        decreases records@.len() - i,
    {
        let ghost all = record_offsets(records@);
        let record: &EncodingSubtable = &records.as_slice()[i];
        assert(all.take(i + 1).drop_last() =~= all.take(i as int));
        assert(all.take(i + 1).last() == record.offset);
        insert_offset(&mut offsets, record.offset);
        i = i + 1;
    }
    assert(record_offsets(records@).take(i as int) =~= record_offsets(records@));
    offsets
}

/// The models of the subtables in `subtables`.
pub open spec fn subtable_models(subtables: Seq<CmapSubtable>) -> Seq<CmapSubtableModel> {
    subtables.map_values(|t: CmapSubtable| t@)
}

/// The subtables that start at the offsets `offsets` from `base`, decoded one
/// after another; the first failure ends the decoding.
pub open spec fn parse_subtables(data: Seq<u8>, base: int, offsets: Seq<u32>) -> Result<
    Seq<CmapSubtableModel>,
    Error,
>
    decreases offsets.len(),
{
    if offsets.len() == 0 {
        Ok(Seq::empty())
    } else {
        match parse_subtables(data, base, offsets.drop_last()) {
            Err(e) => Err(e),
            Ok(tables) => match parse_subtable(data, base + offsets.last()) {
                Err(e) => Err(e),
                Ok((table, _)) => Ok(tables.push(table)),
            },
        }
    }
}

/// Where decoding the subtables at `offsets` ends: behind the last of them,
/// or at `first` where there is none.
pub open spec fn subtables_end(data: Seq<u8>, base: int, offsets: Seq<u32>, first: int) -> int {
    if offsets.len() == 0 {
        first
    } else {
        parse_subtable(data, base + offsets.last())->Ok_0.1
    }
}

/// The wire forms of the subtables, one after another.
pub open spec fn subtables_wire(tables: Seq<CmapSubtableModel>) -> Seq<u8>
    decreases tables.len(),
{
    if tables.len() == 0 {
        Seq::empty()
    } else {
        subtables_wire(tables.drop_last()) + tables.last().wire()
    }
}

/// The `cmap` table: its head, its encoding records, and one subtable for
/// each distinct offset that the records name, in ascending order of offset.
#[derive(Debug, Clone, PartialEq, Eq)]
pub struct Cmap {
    pub index: CmapHeader,
    pub encoding_subtables: Sequence<EncodingSubtable>,
    pub cmap_subtables: Sequence<CmapSubtable>,
}

/// The mathematical value of a [`Cmap`].
pub struct CmapModel {
    pub index: CmapHeader,
    pub encoding_subtables: Seq<EncodingSubtable>,
    pub cmap_subtables: Seq<CmapSubtableModel>,
}

impl View for Cmap {
    type V = CmapModel;

    open spec fn view(&self) -> CmapModel {
        CmapModel {
            index: self.index,
            encoding_subtables: self.encoding_subtables@,
            cmap_subtables: subtable_models(self.cmap_subtables@),
        }
    }
}

impl CmapModel {
    /// The distinct offsets at which the subtables of this table start.
    pub open spec fn offsets(self) -> Seq<u32> {
        ascending_distinct(record_offsets(self.encoding_subtables))
    }

    /// The table holds as many records as its head says, one subtable for
    /// each distinct offset, and each subtable is well formed.
    pub open spec fn wf(self) -> bool {
        &&& self.encoding_subtables.len() == self.index.number_subtables
        &&& self.cmap_subtables.len() == self.offsets().len()
        &&& forall|i: int| 0 <= i < self.cmap_subtables.len() ==> self.cmap_subtables[i].wf()
    }

    /// The bytes of the table: head, records, then the subtables back to back.
    pub open spec fn wire(self) -> Seq<u8> {
        self.index.wire() + concat_wire(self.encoding_subtables) + subtables_wire(
            self.cmap_subtables,
        )
    }
}

/// The wire forms of subtables are those of their models.
pub proof fn lemma_subtables_wire(subtables: Seq<CmapSubtable>)
    ensures
        concat_wire(subtables) == subtables_wire(subtable_models(subtables)),
    decreases subtables.len(),
{
    if subtables.len() > 0 {
        lemma_subtables_wire(subtables.drop_last());
        assert(subtable_models(subtables).drop_last() =~= subtable_models(subtables.drop_last()));
    }
}

/// The table that starts at offset `at`. Each subtable is looked for at
/// its offset from `at`; the result ends where the last subtable ends.
pub open spec fn parse_cmap(data: Seq<u8>, at: int) -> Result<(CmapModel, int), Error> {
    if !fits(data, at, 4) {
        Err(end_of_stream())
    } else {
        let index = value_at::<CmapHeader>(data, at);
        let count = index.number_subtables as int;
        if !fits(data, at + 4, 8 * count) {
            Err(end_of_stream())
        } else {
            let records = items_at::<EncodingSubtable>(data, at + 4, count);
            let offsets = ascending_distinct(record_offsets(records));
            match parse_subtables(data, at, offsets) {
                Err(e) => Err(e),
                Ok(tables) => Ok(
                    (
                        CmapModel {
                            index,
                            encoding_subtables: records,
                            cmap_subtables: tables,
                        },
                        if offsets.len() == 0 {
                            at + 4 + 8 * count
                        } else {
                            parse_subtable(data, at + offsets.last())->Ok_0.1
                        },
                    ),
                ),
            }
        }
    }
}

impl TryFromStream for Cmap {
    type Model = CmapModel;

    open spec fn model(&self) -> CmapModel {
        self@
    }

    open spec fn parse(data: Seq<u8>, at: int) -> Result<(CmapModel, int), Error> {
        parse_cmap(data, at)
    }

    fn try_from_stream(stream: &mut Stream<'_>) -> (r: Result<Self, Error>)
        ensures
            r matches Ok(v) ==> v@.wf() && v@.cmap_subtables.len() == record_offsets(
                v@.encoding_subtables,
            ).to_set().len(),
    {
        proof {
            stream.lemma_cursor_range();
        }
        let ghost data = stream.bytes();
        let base: u64 = stream.stream_position();
        let index: CmapHeader = CmapHeader::try_from_stream(stream)?;
        let encoding_subtables: Sequence<EncodingSubtable> = stream.read_seq(
            index.number_subtables as usize,
        )?;
        let offsets: Vec<u32> = distinct_offsets(&encoding_subtables);
        let mut subtables: Vec<CmapSubtable> = Vec::new();
        let mut i: usize = 0;
        let ghost records_end = base + 4 + 8 * index.number_subtables;
        assert(subtable_models(subtables@) =~= Seq::<CmapSubtableModel>::empty());
        while i < offsets.len()
            invariant
                i <= offsets@.len(),
                stream.bytes() == data,
                old(stream).bytes() == data,
                old(stream).cursor() == base,
                fits(data, base as int, 4),
                index == value_at::<CmapHeader>(data, base as int),
                fits(data, base + 4, 8 * index.number_subtables),
                encoding_subtables@ == items_at::<EncodingSubtable>(
                    data,
                    base + 4,
                    index.number_subtables as int,
                ),
                offsets@ == ascending_distinct(record_offsets(encoding_subtables@)),
                records_end == base + 4 + 8 * index.number_subtables,
                parse_subtables(data, base as int, offsets@.take(i as int)) == Ok::<
                    Seq<CmapSubtableModel>,
                    Error,
                >(subtable_models(subtables@)),
                forall|k: int| 0 <= k < subtables@.len() ==> (#[trigger] subtables@[k])@.wf(),
                stream.cursor() == subtables_end(data, base as int, offsets@.take(i as int), records_end),
            decreases offsets@.len() - i,
        {
            let ghost done = subtable_models(subtables@);
            let start: u64 = match base.checked_add(offsets[i] as u64) {
                Some(start) => start,
                None => {
                    proof {
                        stream.lemma_cursor_range();
                        lemma_parse_subtables_fails(data, base as int, offsets@, i as int);
                    }
                    return Err(Error::DecodeError(crate::error::DecodeError::UnexpectedEof));
                },
            };
            stream.seek(start);
            let subtable: CmapSubtable = match CmapSubtable::try_from_stream(stream) {
                Ok(subtable) => subtable,
                Err(e) => {
                    proof {
                        lemma_parse_subtables_fails(data, base as int, offsets@, i as int);
                    }
                    return Err(e);
                },
            };
            proof {
                lemma_parse_subtables_step(data, base as int, offsets@, i as int);
            }
            subtables.push(subtable);
            assert(subtable_models(subtables@) =~= done.push(subtable@));
            i = i + 1;
        }
        proof {
            assert(offsets@.take(i as int) =~= offsets@);
            lemma_parse_subtables_wf(data, base as int, offsets@);
            lemma_ascending_distinct(record_offsets(encoding_subtables@));
        }
        Ok(Cmap { index, encoding_subtables, cmap_subtables: Sequence(subtables) })
    }
}

/// Decoding one more subtable extends the result by it.
proof fn lemma_parse_subtables_step(data: Seq<u8>, base: int, offsets: Seq<u32>, i: int)
    requires
        0 <= i < offsets.len(),
        parse_subtables(data, base, offsets.take(i)) is Ok,
        parse_subtable(data, base + offsets[i]) is Ok,
    ensures
        parse_subtables(data, base, offsets.take(i + 1)) == Ok::<Seq<CmapSubtableModel>, Error>(
            parse_subtables(data, base, offsets.take(i))->Ok_0.push(
                parse_subtable(data, base + offsets[i])->Ok_0.0,
            ),
        ),
        forall|first: int|
            #[trigger] subtables_end(data, base, offsets.take(i + 1), first) == parse_subtable(
                data,
                base + offsets[i],
            )->Ok_0.1,
{
    let step = offsets.take(i + 1);
    assert(step.drop_last() =~= offsets.take(i));
    assert(step.last() == offsets[i]);
}

/// Once the subtable at one offset fails, decoding all of them fails alike.
proof fn lemma_parse_subtables_fails(data: Seq<u8>, base: int, offsets: Seq<u32>, i: int)
    requires
        0 <= i < offsets.len(),
        parse_subtables(data, base, offsets.take(i)) is Ok,
        parse_subtable(data, base + offsets[i]) is Err,
    ensures
        parse_subtables(data, base, offsets) == Err::<Seq<CmapSubtableModel>, Error>(
            parse_subtable(data, base + offsets[i])->Err_0,
        ),
    decreases offsets.len() - i,
{
    let step = offsets.take(i + 1);
    assert(step.drop_last() =~= offsets.take(i));
    assert(step.last() == offsets[i]);
    lemma_parse_subtables_keeps_failure(data, base, offsets, i + 1);
}

/// A failure on a prefix of the offsets is the failure on all of them.
proof fn lemma_parse_subtables_keeps_failure(data: Seq<u8>, base: int, offsets: Seq<u32>, n: int)
    requires
        0 <= n <= offsets.len(),
        parse_subtables(data, base, offsets.take(n)) is Err,
    ensures
        parse_subtables(data, base, offsets) == parse_subtables(data, base, offsets.take(n)),
    decreases offsets.len() - n,
{
    if n == offsets.len() {
        assert(offsets.take(n) =~= offsets);
    } else {
        let step = offsets.take(n + 1);
        assert(step.drop_last() =~= offsets.take(n));
        lemma_parse_subtables_keeps_failure(data, base, offsets, n + 1);
    }
}

impl Encode for Cmap {
    open spec fn wire(&self) -> Seq<u8> {
        self@.wire()
    }

    fn encode(&self, out: &mut Vec<u8>) {
        self.index.encode(out);
        self.encoding_subtables.encode(out);
        self.cmap_subtables.encode(out);
        proof {
            lemma_subtables_wire(self.cmap_subtables@);
            assert(out@ =~= old(out)@ + self.wire());
        }
    }
}

/// Subtables that were decoded are well formed, one for each offset.
pub proof fn lemma_parse_subtables_wf(data: Seq<u8>, base: int, offsets: Seq<u32>)
    ensures
        parse_subtables(data, base, offsets) matches Ok(tables) ==> tables.len() == offsets.len()
            && forall|i: int| 0 <= i < tables.len() ==> (#[trigger] tables[i]).wf(),
    decreases offsets.len(),
{
    if offsets.len() > 0 {
        lemma_parse_subtables_wf(data, base, offsets.drop_last());
        if let Ok(tables) = parse_subtables(data, base, offsets) {
            let rest = parse_subtables(data, base, offsets.drop_last())->Ok_0;
            assert forall|i: int| 0 <= i < tables.len() implies (#[trigger] tables[i]).wf() by {
                if i < rest.len() {
                    assert(tables[i] == rest[i]);
                }
            }
        }
    }
}

/// A table that was decoded is well formed, and has as many subtables as
/// its records name distinct offsets, however many records share an offset.
pub proof fn lemma_parse_cmap_wf(data: Seq<u8>, at: int)
    ensures
        parse_cmap(data, at) matches Ok((table, _)) ==> table.wf() && table.cmap_subtables.len()
            == record_offsets(table.encoding_subtables).to_set().len(),
{
    if let Ok((table, _)) = parse_cmap(data, at) {
        lemma_parse_subtables_wf(data, at, table.offsets());
        lemma_ascending_distinct(record_offsets(table.encoding_subtables));
    }
}

/// Decoding the bytes of a well-formed subtable gives the subtable back.
pub proof fn lemma_subtable_round_trip(data: Seq<u8>, at: int, table: CmapSubtableModel)
    requires
        table.wf(),
        holds(data, at, table.wire()),
    ensures
        parse_subtable(data, at) == Ok::<(CmapSubtableModel, int), Error>(
            (table, at + table.wire().len()),
        ),
{
    match table {
        CmapSubtableModel::Format4(inner) => lemma_format_4_round_trip(data, at, inner),
        CmapSubtableModel::Format6(inner) => lemma_format_6_round_trip(data, at, inner),
        CmapSubtableModel::Format12(inner) => lemma_format_12_round_trip(data, at, inner),
    }
}

/// Whether the subtables `tables` lie back to back from the offset `first`
/// on, each at its offset among `offsets`.
pub open spec fn packed_from(offsets: Seq<u32>, tables: Seq<CmapSubtableModel>, first: int) -> bool {
    &&& offsets.len() == tables.len()
    &&& forall|j: int|
        0 <= j < tables.len() ==> #[trigger] offsets[j] == first + subtables_wire(
            tables.take(j),
        ).len()
}

impl CmapModel {
    /// Whether the subtables lie back to back behind the records, each at
    /// its offset: the layout that encoding produces.
    pub open spec fn is_packed(self) -> bool {
        packed_from(
            self.offsets(),
            self.cmap_subtables,
            (4 + 8 * self.encoding_subtables.len()) as int,
        )
    }
}

/// Subtables that lie back to back at their offsets are decoded as they are.
pub proof fn lemma_subtables_round_trip(
    data: Seq<u8>,
    base: int,
    first: int,
    offsets: Seq<u32>,
    tables: Seq<CmapSubtableModel>,
)
    requires
        packed_from(offsets, tables, first),
        forall|i: int| 0 <= i < tables.len() ==> (#[trigger] tables[i]).wf(),
        holds(data, base + first, subtables_wire(tables)),
    ensures
        parse_subtables(data, base, offsets) == Ok::<Seq<CmapSubtableModel>, Error>(tables),
        subtables_end(data, base, offsets, base + first) == base + first + subtables_wire(
            tables,
        ).len(),
    decreases tables.len(),
{
    if tables.len() > 0 {
        let rest = tables.drop_last();
        let last = tables.last();
        let front = offsets.drop_last();
        lemma_holds_split(data, base + first, subtables_wire(rest), last.wire());
        assert forall|j: int| 0 <= j < rest.len() implies #[trigger] front[j] == first
            + subtables_wire(rest.take(j)).len() by {
            assert(rest.take(j) =~= tables.take(j));
            assert(front[j] == offsets[j]);
        }
        assert forall|i: int| 0 <= i < rest.len() implies (#[trigger] rest[i]).wf() by {
            assert(rest[i] == tables[i]);
        }
        lemma_subtables_round_trip(data, base, first, front, rest);
        assert(tables.take(tables.len() - 1) =~= rest);
        assert(offsets.last() == offsets[tables.len() - 1]);
        assert(tables[tables.len() - 1].wf());
        lemma_subtable_round_trip(data, base + offsets.last(), last);
        assert(rest.push(last) =~= tables);
    } else {
        assert(tables =~= Seq::<CmapSubtableModel>::empty());
    }
}

/// Decoding the bytes of a well-formed table whose subtables lie back to
/// back behind the records gives the table back.
pub proof fn lemma_cmap_round_trip(data: Seq<u8>, at: int, table: CmapModel)
    requires
        table.wf(),
        table.is_packed(),
        holds(data, at, table.wire()),
    ensures
        parse_cmap(data, at) == Ok::<(CmapModel, int), Error>((table, at + table.wire().len())),
{
    let b0 = table.index.wire();
    let b1 = b0 + concat_wire(table.encoding_subtables);
    lemma_holds_split(data, at, b1, subtables_wire(table.cmap_subtables));
    lemma_holds_split(data, at, b0, concat_wire(table.encoding_subtables));
    lemma_value_held::<CmapHeader>(data, at, table.index);
    lemma_items_held::<EncodingSubtable>(data, at + b0.len(), table.encoding_subtables);
    lemma_subtables_round_trip(
        data,
        at,
        (4 + 8 * table.encoding_subtables.len()) as int,
        table.offsets(),
        table.cmap_subtables,
    );
}

/// What was decoded is what the bytes hold: where a subtable was decoded,
/// `data` holds its wire form, and the subtable ends where the wire form
/// ends.
pub proof fn lemma_subtable_exact(data: Seq<u8>, at: int)
    requires
        0 <= at,
    ensures
        parse_subtable(data, at) matches Ok((table, end)) ==> holds(data, at, table.wire()) && end
            == at + table.wire().len() && table.wf(),
{
    if fits(data, at, 2) {
        let format = value_at::<u16>(data, at);
        if format == 4 {
            lemma_format_4_exact(data, at);
        } else if format == 6 {
            lemma_format_6_exact(data, at);
        } else if format == 12 {
            lemma_format_12_exact(data, at);
        }
    }
}

/// Where subtables that lie back to back were decoded, `data` holds their
/// wire forms one after another.
pub proof fn lemma_subtables_exact(data: Seq<u8>, base: int, first: int, offsets: Seq<u32>)
    requires
        0 <= base,
        0 <= first,
        parse_subtables(data, base, offsets) matches Ok(tables) && packed_from(
            offsets,
            tables,
            first,
        ),
    ensures
        holds(data, base + first, subtables_wire(parse_subtables(data, base, offsets)->Ok_0)),
        subtables_end(data, base, offsets, base + first) == base + first + subtables_wire(
            parse_subtables(data, base, offsets)->Ok_0,
        ).len(),
    decreases offsets.len(),
{
    let tables = parse_subtables(data, base, offsets)->Ok_0;
    if offsets.len() > 0 {
        let front = offsets.drop_last();
        let rest = parse_subtables(data, base, front)->Ok_0;
        lemma_parse_subtables_wf(data, base, front);
        assert(tables.drop_last() =~= rest);
        assert forall|j: int| 0 <= j < rest.len() implies #[trigger] front[j] == first
            + subtables_wire(rest.take(j)).len() by {
            assert(rest.take(j) =~= tables.take(j));
            assert(front[j] == offsets[j]);
        }
        lemma_subtables_exact(data, base, first, front);
        assert(tables.take(tables.len() - 1) =~= rest);
        assert(offsets.last() == offsets[tables.len() - 1]);
        lemma_subtable_exact(data, base + offsets.last());
        lemma_holds_join(data, base + first, subtables_wire(rest), tables.last().wire());
    }
}

/// What was decoded is what the bytes hold: where a table was decoded whose
/// subtables lie back to back behind the records, `data` holds its wire form,
/// and the table ends where the wire form ends.
pub proof fn lemma_cmap_exact(data: Seq<u8>, at: int)
    requires
        0 <= at,
        parse_cmap(data, at) matches Ok((table, _)) && table.is_packed(),
    ensures
        holds(data, at, parse_cmap(data, at)->Ok_0.0.wire()),
        parse_cmap(data, at)->Ok_0.1 == at + parse_cmap(data, at)->Ok_0.0.wire().len(),
{
    let table = parse_cmap(data, at)->Ok_0.0;
    let count = table.index.number_subtables as int;
    lemma_value_exact::<CmapHeader>(data, at);
    lemma_items_exact::<EncodingSubtable>(data, at + 4, count);
    lemma_subtables_exact(data, at, 4 + 8 * count, table.offsets());
    let b0 = table.index.wire();
    lemma_holds_join(data, at, b0, concat_wire(table.encoding_subtables));
    let b1 = b0 + concat_wire(table.encoding_subtables);
    lemma_holds_join(data, at, b1, subtables_wire(table.cmap_subtables));
}

} // verus!
