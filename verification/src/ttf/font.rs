//! The font: its directory and its decoded tables.

use crate::error::{EncodeError, Error};
use crate::table::tags::Tag;
use crate::table::{
    extends, lemma_agrees_extends, lemma_agrees_restricts, lemma_parse_table_agrees,
    lemma_table_exact, lemma_table_round_trip, parse_table, table_agrees, table_fits_entry,
    table_models, FontTable, FontTableModel,
};
use crate::ttf::font_dir::{
    decode_order, has_required_tags, has_tag, lemma_decode_order_sorted,
    lemma_decode_order_tags, lemma_dependencies_first, lemma_directory_exact,
    lemma_directory_round_trip, padding_for, parse_directory, FontDirectory, FontDirectoryModel,
    TableDirEntry,
};
use crate::utils::codec::Encode;
use crate::utils::reader::{holds, lemma_holds_join, Stream, TryFromStream};
use std::collections::BTreeMap;
use vstd::prelude::*;

verus! {

/// A font: the directory as it was read, and one decoded table for each tag
/// of the directory.
#[derive(Debug, Clone, PartialEq, Eq)]
pub struct Font {
    pub font_directory: FontDirectory,
    pub tables: BTreeMap<u32, FontTable>,
}

/// The mathematical value of a [`Font`].
pub struct FontModel {
    pub font_directory: FontDirectoryModel,
    pub tables: Map<Tag, FontTableModel>,
}

impl View for Font {
    type V = FontModel;

    open spec fn view(&self) -> FontModel {
        FontModel { font_directory: self.font_directory@, tables: table_models(self.tables@) }
    }
}

/// What decoding the tables of the entries `order`, one after another,
/// gives: the tables by tag, and where the last one ends (`start` where there
/// is none). Each table is decoded with the tables before it at hand; the
/// first failure ends the decoding.
pub open spec fn parse_tables(data: Seq<u8>, order: Seq<TableDirEntry>, start: int) -> Result<
    (Map<Tag, FontTableModel>, int),
    Error,
>
    decreases order.len(),
{
    if order.len() == 0 {
        Ok((Map::empty(), start))
    } else {
        match parse_tables(data, order.drop_last(), start) {
            Err(e) => Err(e),
            Ok((tables, _)) => match parse_table(data, order.last(), tables) {
                Err(e) => Err(e),
                Ok((table, end)) => Ok((tables.insert(order.last().tag, table), end)),
            },
        }
    }
}

/// What decoding a font whose directory starts at offset `at` gives. A
/// directory that lacks a required table is an error before any table is
/// looked at. The offsets of the tables count from the start of the stream.
pub open spec fn parse_font(data: Seq<u8>, at: int) -> Result<(FontModel, int), Error> {
    match parse_directory(data, at) {
        Err(e) => Err(e),
        Ok((directory, end)) => if !has_required_tags(directory.table_directory) {
            Err(Error::MissingRequiredTable)
        } else {
            match parse_tables(data, decode_order(directory.table_directory), end) {
                Err(e) => Err(e),
                Ok((tables, last)) => Ok((FontModel { font_directory: directory, tables }, last)),
            }
        },
    }
}

/// `n` zero bytes.
pub open spec fn zeros(n: int) -> Seq<u8> {
    Seq::new(n as nat, |i: int| 0u8)
}

/// The bytes of the tables of the entries `order`, one after another, each
/// followed by the padding of its entry; an entry without a table is an
/// error.
pub open spec fn tables_wire(tables: Map<Tag, FontTableModel>, order: Seq<TableDirEntry>) -> Result<
    Seq<u8>,
    Error,
>
    decreases order.len(),
{
    if order.len() == 0 {
        Ok(Seq::empty())
    } else {
        let entry = order.last();
        match tables_wire(tables, order.drop_last()) {
            Err(e) => Err(e),
            Ok(bytes) => if !tables.contains_key(entry.tag) {
                Err(Error::EncodeError(EncodeError::MissingTable(entry.tag)))
            } else {
                Ok(bytes + tables[entry.tag].wire() + zeros(padding_for(entry.offset + entry.length)))
            },
        }
    }
}

impl FontModel {
    /// The font has a table for each tag of its directory, and no other.
    pub open spec fn wf(self) -> bool {
        &&& self.font_directory.wf()
        &&& forall|tag: Tag| #[trigger]
            self.tables.contains_key(tag) <==> crate::ttf::font_dir::has_tag(
                self.font_directory.table_directory,
                tag,
            )
    }

    /// The bytes of the font: the directory, then the tables in the order of
    /// decoding, each padded as its entry says.
    pub open spec fn wire(self) -> Result<Seq<u8>, Error> {
        match tables_wire(self.tables, self.order()) {
            Err(e) => Err(e),
            Ok(bytes) => Ok(self.font_directory.wire() + bytes),
        }
    }
}

/// Decoding one more table extends the result by it.
proof fn lemma_parse_tables_step(data: Seq<u8>, order: Seq<TableDirEntry>, start: int, i: int)
    requires
        0 <= i < order.len(),
        parse_tables(data, order.take(i), start) is Ok,
    ensures
        parse_tables(data, order.take(i + 1), start) == match parse_table(
            data,
            order[i],
            parse_tables(data, order.take(i), start)->Ok_0.0,
        ) {
            Err(e) => Err::<(Map<Tag, FontTableModel>, int), Error>(e),
            Ok((table, end)) => Ok(
                (parse_tables(data, order.take(i), start)->Ok_0.0.insert(order[i].tag, table), end),
            ),
        },
{
    assert(order.take(i + 1).drop_last() =~= order.take(i));
    assert(order.take(i + 1).last() == order[i]);
}

/// A failure on the first `n` entries is the failure on all of them.
proof fn lemma_parse_tables_keeps_failure(
    data: Seq<u8>,
    order: Seq<TableDirEntry>,
    start: int,
    n: int,
)
    requires
        0 <= n <= order.len(),
        parse_tables(data, order.take(n), start) is Err,
    ensures
        parse_tables(data, order, start) == parse_tables(data, order.take(n), start),
    decreases order.len() - n,
{
    if n == order.len() {
        assert(order.take(n) =~= order);
    } else {
        assert(order.take(n + 1).drop_last() =~= order.take(n));
        lemma_parse_tables_keeps_failure(data, order, start, n + 1);
    }
}

/// The tables that were decoded are those of the entries, by tag.
pub proof fn lemma_parse_tables_tags(data: Seq<u8>, order: Seq<TableDirEntry>, start: int)
    ensures
        parse_tables(data, order, start) matches Ok((tables, _)) ==> forall|tag: Tag| #[trigger]
            tables.contains_key(tag) <==> crate::ttf::font_dir::has_tag(order, tag),
    decreases order.len(),
{
    if order.len() > 0 {
        let rest = order.drop_last();
        lemma_parse_tables_tags(data, rest, start);
        if let Ok((tables, _)) = parse_tables(data, order, start) {
            assert forall|tag: Tag| #[trigger]
                tables.contains_key(tag) <==> crate::ttf::font_dir::has_tag(order, tag) by {
                if crate::ttf::font_dir::has_tag(order, tag) {
                    let i = choose|i: int| 0 <= i < order.len() && (#[trigger] order[i]).tag == tag;
                    if i < rest.len() {
                        assert(rest[i].tag == tag);
                    }
                }
                if crate::ttf::font_dir::has_tag(rest, tag) {
                    let i = choose|i: int| 0 <= i < rest.len() && (#[trigger] rest[i]).tag == tag;
                    assert(order[i].tag == tag);
                }
                if tag == order.last().tag {
                    assert(order[order.len() - 1].tag == tag);
                }
            }
        }
    }
}

impl TryFromStream for Font {
    type Model = FontModel;

    open spec fn model(&self) -> FontModel {
        self@
    }

    open spec fn parse(data: Seq<u8>, at: int) -> Result<(FontModel, int), Error> {
        parse_font(data, at)
    }

    fn try_from_stream(stream: &mut Stream<'_>) -> (r: Result<Self, Error>)
        ensures
            (parse_directory(old(stream).bytes(), old(stream).cursor()) matches Ok((directory, _))
                && !has_required_tags(directory.table_directory)) ==> r == Err::<Font, Error>(
                Error::MissingRequiredTable,
            ),
    {
        let ghost data = stream.bytes();
        let ghost at = stream.cursor();
        let font_directory: FontDirectory = FontDirectory::try_from_stream(stream)?;
        if !font_directory.contains_required_tags() {
            return Err(Error::MissingRequiredTable);
        }
        let ghost start = stream.cursor();
        let order: Vec<TableDirEntry> = font_directory.get_sorted_table_entries();
        let mut tables: BTreeMap<u32, FontTable> = BTreeMap::new();
        let mut i: usize = 0;
        assert(table_models(tables@) =~= Map::<Tag, FontTableModel>::empty());
        while i < order.len()
            invariant
                i <= order@.len(),
                stream.bytes() == data,
                old(stream).bytes() == data,
                old(stream).cursor() == at,
                parse_directory(data, at) == Ok::<(FontDirectoryModel, int), Error>(
                    (font_directory@, start),
                ),
                has_required_tags(font_directory@.table_directory),
                order@ == decode_order(font_directory@.table_directory),
                parse_tables(data, order@.take(i as int), start) == Ok::<
                    (Map<Tag, FontTableModel>, int),
                    Error,
                >((table_models(tables@), stream.cursor())),
            decreases order@.len() - i,
        {
            let ghost before = table_models(tables@);
            proof {
                lemma_parse_tables_step(data, order@, start, i as int);
            }
            let table: FontTable = match FontTable::try_from_params(&order[i], &tables, stream) {
                Ok(table) => table,
                Err(e) => {
                    proof {
                        lemma_parse_tables_keeps_failure(data, order@, start, i + 1);
                    }
                    return Err(e);
                },
            };
            tables.insert(order[i].tag, table);
            assert(table_models(tables@) =~= before.insert(order@[i as int].tag, table@));
            i = i + 1;
        }
        assert(order@.take(i as int) =~= order@);
        Ok(Font { font_directory, tables })
    }
}

impl Font {
    /// The bytes of the font: the directory, then the tables in the order of
    /// decoding, each followed by the padding of its entry. Nothing is
    /// written where the font lacks a table that its directory lists.
    pub fn encode(&self) -> (r: Result<Vec<u8>, Error>)
        ensures
            match r {
                Ok(bytes) => self@.wire() == Ok::<Seq<u8>, Error>(bytes@),
                Err(e) => self@.wire() == Err::<Seq<u8>, Error>(e),
            },
    {
        let order: Vec<TableDirEntry> = self.font_directory.get_sorted_table_entries();
        assert(order@ == self@.order()) by {
            reveal(FontModel::order);
        }
        let mut out: Vec<u8> = Vec::new();
        self.font_directory.encode(&mut out);
        let ghost head = self@.font_directory.wire();
        assert(out@ =~= head);
        let mut i: usize = 0;
        while i < order.len()
            invariant
                i <= order@.len(),
                order@ == self@.order(),
                head == self@.font_directory.wire(),
                tables_wire(self@.tables, order@.take(i as int)) matches Ok(bytes) && out@ == head
                    + bytes,
            decreases order@.len() - i,
        {
            let entry: TableDirEntry = order[i];
            let ghost done = tables_wire(self@.tables, order@.take(i as int))->Ok_0;
            proof {
                assert(order@.take(i + 1).drop_last() =~= order@.take(i as int));
                assert(order@.take(i + 1).last() == entry);
            }
            match self.tables.get(&entry.tag) {
                None => {
                    proof {
                        lemma_tables_wire_keeps_failure(self@.tables, order@, i + 1);
                    }
                    return Err(Error::EncodeError(EncodeError::MissingTable(entry.tag)));
                },
                Some(table) => {
                    table.encode(&mut out);
                    let padding: usize = entry.padding();
                    let ghost unpadded = out@;
                    let mut k: usize = 0;
                    while k < padding
                        invariant
                            k <= padding,
                            out@ == unpadded + zeros(k as int),
                        decreases padding - k,
                    {
                        out.push(0u8);
                        k = k + 1;
                        assert(out@ =~= unpadded + zeros(k as int));
                    }
                    assert(out@ =~= head + (done + table@.wire() + zeros(padding as int)));
                },
            }
            i = i + 1;
        }
        assert(order@.take(i as int) =~= order@);
        Ok(out)
    }
}

/// A failure on the first `n` entries is the failure on all of them.
proof fn lemma_tables_wire_keeps_failure(
    tables: Map<Tag, FontTableModel>,
    order: Seq<TableDirEntry>,
    n: int,
)
    requires
        0 <= n <= order.len(),
        tables_wire(tables, order.take(n)) is Err,
    ensures
        tables_wire(tables, order) == tables_wire(tables, order.take(n)),
    decreases order.len() - n,
{
    if n == order.len() {
        assert(order.take(n) =~= order);
    } else {
        assert(order.take(n + 1).drop_last() =~= order.take(n));
        lemma_tables_wire_keeps_failure(tables, order, n + 1);
    }
}

/// The tables of `tables` whose tags are among those of `order`.
pub open spec fn tables_of(tables: Map<Tag, FontTableModel>, order: Seq<TableDirEntry>) -> Map<
    Tag,
    FontTableModel,
> {
    Map::new(|tag: Tag| has_tag(order, tag), |tag: Tag| tables[tag])
}

impl FontModel {
    /// The order in which the tables are decoded and written.
    #[verifier::opaque]
    pub open spec fn order(self) -> Seq<TableDirEntry> {
        decode_order(self.font_directory.table_directory)
    }

    /// Where the bytes of table number `k` in the order of decoding start in
    /// the bytes of the font.
    pub open spec fn table_start(self, k: int) -> int {
        (self.font_directory.wire().len() + tables_wire(
            self.tables,
            self.order().take(k),
        )->Ok_0.len()) as int
    }

    /// What holds of table number `k` in a font that is laid out as encoding
    /// lays it out: its entry gives the offset at which its bytes start, and
    /// the table is what its own bytes are decoded to.
    pub open spec fn table_in_place(self, k: int) -> bool {
        let entry = self.order()[k];
        &&& entry.offset == self.table_start(k)
        &&& table_fits_entry(self.tables[entry.tag], entry, self.tables)
    }

    /// Whether the font is laid out as encoding lays it out: it has all
    /// required tables, each entry of its directory gives the offset at
    /// which encoding puts the table, and each table is what its own bytes
    /// are decoded to.
    pub open spec fn is_canonical(self) -> bool {
        &&& self.wf()
        &&& has_required_tags(self.font_directory.table_directory)
        &&& forall|k: int| 0 <= k < self.order().len() ==> #[trigger] self.table_in_place(k)
    }
}

/// The bytes of the tables can be written where there is a table for each
/// entry.
proof fn lemma_tables_wire_ok(tables: Map<Tag, FontTableModel>, order: Seq<TableDirEntry>)
    requires
        forall|k: int| 0 <= k < order.len() ==> tables.contains_key((#[trigger] order[k]).tag),
    ensures
        tables_wire(tables, order) is Ok,
    decreases order.len(),
{
    if order.len() > 0 {
        let rest = order.drop_last();
        assert forall|k: int| 0 <= k < rest.len() implies tables.contains_key(
            (#[trigger] rest[k]).tag,
        ) by {
            assert(rest[k] == order[k]);
        }
        lemma_tables_wire_ok(tables, rest);
        assert(tables.contains_key(order[order.len() - 1].tag));
    }
}

/// The bytes of the tables hold the bytes of each table behind the bytes of
/// the tables before it.
#[verifier::rlimit(40)]
proof fn lemma_tables_wire_holds(tables: Map<Tag, FontTableModel>, order: Seq<TableDirEntry>, k: int)
    requires
        0 <= k < order.len(),
        tables_wire(tables, order) is Ok,
    ensures
        tables_wire(tables, order.take(k)) is Ok,
        holds(
            tables_wire(tables, order)->Ok_0,
            tables_wire(tables, order.take(k))->Ok_0.len() as int,
            tables[order[k].tag].wire(),
        ),
    decreases order.len(),
{
    let rest = order.drop_last();
    let entry = order.last();
    let whole = tables_wire(tables, order)->Ok_0;
    let before = tables_wire(tables, rest)->Ok_0;
    let table = tables[entry.tag].wire();
    let padding = zeros(padding_for(entry.offset + entry.length));
    assert(whole == before + table + padding);
    if k == order.len() - 1 {
        assert(order.take(k) =~= rest);
        assert(whole.subrange(before.len() as int, (before.len() + table.len()) as int) =~= table);
    } else {
        lemma_tables_wire_holds(tables, rest, k);
        assert(rest.take(k) =~= order.take(k));
        assert(rest[k] == order[k]);
        let start = tables_wire(tables, order.take(k))->Ok_0.len() as int;
        let inner = tables[order[k].tag].wire();
        if inner.len() > 0 {
            assert(whole.subrange(start, start + inner.len()) =~= before.subrange(
                start,
                start + inner.len(),
            ));
        }
    }
}

/// The bytes of a font hold each table at the offset of its entry.
#[verifier::rlimit(40)]
proof fn lemma_table_is_held(font: FontModel, bytes: Seq<u8>, k: int)
    requires
        font.is_canonical(),
        font.wire() == Ok::<Seq<u8>, Error>(bytes),
        0 <= k < font.order().len(),
    ensures
        holds(bytes, font.order()[k].offset as int, font.tables[font.order()[k].tag].wire()),
{
    let order = font.order();
    let table = font.tables[order[k].tag];
    let start = font.font_directory.wire().len() as int;
    let all = tables_wire(font.tables, order)->Ok_0;
    lemma_tables_wire_holds(font.tables, order, k);
    assert(bytes == font.font_directory.wire() + all);
    let inner = tables_wire(font.tables, order.take(k))->Ok_0.len() as int;
    assert(font.table_in_place(k));
    assert(order[k].offset == font.table_start(k));
    if table.wire().len() > 0 {
        assert(bytes.subrange(start + inner, start + inner + table.wire().len()) =~= all.subrange(
            inner,
            inner + table.wire().len(),
        ));
    }
}

/// Each table of a font that is laid out as encoding lays it out agrees
/// with the tables that are decoded before it.
#[verifier::rlimit(40)]
proof fn lemma_table_fits_earlier(font: FontModel, k: int)
    requires
        font.is_canonical(),
        0 <= k < font.order().len(),
    ensures
        table_fits_entry(
            font.tables[font.order()[k].tag],
            font.order()[k],
            tables_of(font.tables, font.order().take(k)),
        ),
{
    reveal(FontModel::order);
    let order = font.order();
    let before = tables_of(font.tables, order.take(k));
    assert(font.table_in_place(k));
    lemma_dependencies_first(font.font_directory.table_directory, k);
    lemma_font_has_tables(font);
    lemma_tables_of_extends(font.tables, order, k);
    lemma_agrees_restricts(font.tables[order[k].tag], order[k], before, font.tables);
}

/// A well-formed font has a table for each entry in the order of decoding.
proof fn lemma_font_has_tables(font: FontModel)
    requires
        font.wf(),
    ensures
        forall|i: int|
            0 <= i < font.order().len() ==> font.tables.contains_key((#[trigger] font.order()[i]).tag),
{
    reveal(FontModel::order);
    let order = font.order();
    lemma_decode_order_tags(font.font_directory.table_directory);
    assert forall|i: int| 0 <= i < order.len() implies font.tables.contains_key(
        (#[trigger] order[i]).tag,
    ) by {
        assert(has_tag(order, order[i].tag));
    }
}

/// The tables of the first entries are among all tables, where each entry
/// has one.
proof fn lemma_tables_of_extends(tables: Map<Tag, FontTableModel>, order: Seq<TableDirEntry>, k: int)
    requires
        0 <= k <= order.len(),
        forall|i: int| 0 <= i < order.len() ==> tables.contains_key((#[trigger] order[i]).tag),
    ensures
        extends(tables, tables_of(tables, order.take(k))),
{
    let before = tables_of(tables, order.take(k));
    assert forall|tag: Tag| #[trigger] before.contains_key(tag) implies tables.contains_key(tag)
        && tables[tag] == before[tag] by {
        let i = choose|i: int| 0 <= i < order.take(k).len() && (#[trigger] order.take(k)[i]).tag == tag;
        assert(order[i].tag == tag);
    }
}

/// The tables of one more entry are the tables before, and its table.
proof fn lemma_tables_of_step(tables: Map<Tag, FontTableModel>, order: Seq<TableDirEntry>, k: int)
    requires
        0 <= k < order.len(),
    ensures
        tables_of(tables, order.take(k)).insert(order[k].tag, tables[order[k].tag]) == tables_of(
            tables,
            order.take(k + 1),
        ),
{
    let n = k + 1;
    let entry = order[k];
    assert forall|tag: Tag| #[trigger]
        has_tag(order.take(n), tag) <==> (has_tag(order.take(k), tag) || tag == entry.tag) by {
        if has_tag(order.take(n), tag) {
            let i = choose|i: int|
                0 <= i < order.take(n).len() && (#[trigger] order.take(n)[i]).tag == tag;
            if i < k {
                assert(order.take(k)[i].tag == tag);
            }
        }
        if has_tag(order.take(k), tag) {
            let i = choose|i: int|
                0 <= i < order.take(k).len() && (#[trigger] order.take(k)[i]).tag == tag;
            assert(order.take(n)[i].tag == tag);
        }
        if tag == entry.tag {
            assert(order.take(n)[k].tag == tag);
        }
    }
    assert(tables_of(tables, order.take(k)).insert(entry.tag, tables[entry.tag]) =~= tables_of(
        tables,
        order.take(n),
    ));
}

/// Decoding the tables of a font that is laid out as encoding lays it out
/// gives, for the first `n` entries in the order of decoding, the tables of
/// the font.
#[verifier::rlimit(40)]
proof fn lemma_tables_round_trip(font: FontModel, bytes: Seq<u8>, n: int)
    requires
        font.is_canonical(),
        font.wire() == Ok::<Seq<u8>, Error>(bytes),
        0 <= n <= font.order().len(),
    ensures
        parse_tables(bytes, font.order().take(n), font.font_directory.wire().len() as int)
            matches Ok((tables, _)) && tables == tables_of(font.tables, font.order().take(n)),
    decreases n,
{
    let order = font.order();
    let start = font.font_directory.wire().len() as int;
    if n == 0 {
        assert(tables_of(font.tables, order.take(0)) =~= Map::<Tag, FontTableModel>::empty());
    } else {
        let k = n - 1;
        lemma_tables_round_trip(font, bytes, k);
        let before = tables_of(font.tables, order.take(k));
        lemma_table_is_held(font, bytes, k);
        lemma_table_fits_earlier(font, k);
        lemma_table_round_trip(bytes, order[k], font.tables[order[k].tag], before);
        lemma_tables_of_step(font.tables, order, k);
        lemma_parse_tables_step(bytes, order, start, k);
    }
}

/// A font with a table for each tag of its directory can be encoded.
proof fn lemma_font_wire_ok(font: FontModel)
    requires
        font.wf(),
    ensures
        tables_wire(font.tables, font.order()) is Ok,
{
    lemma_font_has_tables(font);
    lemma_tables_wire_ok(font.tables, font.order());
}

/// The tables of all entries are all tables of the font.
proof fn lemma_tables_of_all(font: FontModel)
    requires
        font.wf(),
    ensures
        tables_of(font.tables, font.order()) == font.tables,
{
    reveal(FontModel::order);
    lemma_decode_order_tags(font.font_directory.table_directory);
    assert(tables_of(font.tables, font.order()) =~= font.tables);
}

/// The bytes of a font start with the bytes of its directory, and decoding
/// them gives the directory back.
proof fn lemma_font_directory_round_trip(font: FontModel, bytes: Seq<u8>)
    requires
        font.font_directory.wf(),
        tables_wire(font.tables, font.order()) is Ok,
        bytes == font.font_directory.wire() + tables_wire(font.tables, font.order())->Ok_0,
    ensures
        font.wire() == Ok::<Seq<u8>, Error>(bytes),
        parse_directory(bytes, 0) == Ok::<(FontDirectoryModel, int), Error>(
            (font.font_directory, font.font_directory.wire().len() as int),
        ),
{
    let head = font.font_directory.wire();
    assert(bytes.subrange(0, head.len() as int) =~= head);
    lemma_directory_round_trip(bytes, 0, font.font_directory);
}

/// A font is decoded from its directory and its tables.
proof fn lemma_parse_font_parts(
    bytes: Seq<u8>,
    directory: FontDirectoryModel,
    end: int,
    tables: Map<Tag, FontTableModel>,
    last: int,
)
    requires
        parse_directory(bytes, 0) == Ok::<(FontDirectoryModel, int), Error>((directory, end)),
        has_required_tags(directory.table_directory),
        parse_tables(bytes, decode_order(directory.table_directory), end) == Ok::<
            (Map<Tag, FontTableModel>, int),
            Error,
        >((tables, last)),
    ensures
        parse_font(bytes, 0) == Ok::<(FontModel, int), Error>(
            (FontModel { font_directory: directory, tables }, last),
        ),
{
}

/// Encoding and decoding a font gives the font back: a font that is laid out
/// as encoding lays it out can be encoded, and decoding its bytes gives a
/// font with the same directory and the same tables.
#[verifier::rlimit(40)]
pub proof fn lemma_font_round_trip(font: FontModel)
    requires
        font.is_canonical(),
    ensures
        font.wire() matches Ok(bytes) && parse_font(bytes, 0) matches Ok((decoded, _)) && decoded
            == font,
{
    reveal(FontModel::order);
    let order = font.order();
    let start = font.font_directory.wire().len() as int;
    lemma_font_wire_ok(font);
    let bytes = font.font_directory.wire() + tables_wire(font.tables, order)->Ok_0;
    lemma_font_directory_round_trip(font, bytes);
    lemma_tables_round_trip(font, bytes, order.len() as int);
    assert(order.take(order.len() as int) =~= order);
    lemma_tables_of_all(font);
    let last = parse_tables(bytes, order, start)->Ok_0.1;
    lemma_parse_font_parts(bytes, font.font_directory, start, font.tables, last);
}

/// Tables that were decoded agree, each with its entry and with the other
/// tables, where no two entries have the same tag.
pub proof fn lemma_parse_tables_agree(data: Seq<u8>, order: Seq<TableDirEntry>, start: int)
    requires
        forall|i: int, j: int|
            0 <= i < j < order.len() ==> (#[trigger] order[i]).tag != (#[trigger] order[j]).tag,
    ensures
        parse_tables(data, order, start) matches Ok((tables, _)) ==> forall|k: int|
            0 <= k < order.len() ==> tables.contains_key((#[trigger] order[k]).tag) && table_agrees(
                tables[order[k].tag],
                order[k],
                tables,
            ),
    decreases order.len(),
{
    if order.len() > 0 {
        if let Ok((tables, _)) = parse_tables(data, order, start) {
            let rest = order.drop_last();
            let last = order.last();
            let before = parse_tables(data, rest, start)->Ok_0.0;
            assert forall|i: int, j: int| 0 <= i < j < rest.len() implies (#[trigger] rest[i]).tag
                != (#[trigger] rest[j]).tag by {
                assert(rest[i] == order[i] && rest[j] == order[j]);
            }
            lemma_parse_tables_agree(data, rest, start);
            lemma_parse_tables_tags(data, rest, start);
            lemma_parse_table_agrees(data, last, before);
            assert(!before.contains_key(last.tag)) by {
                if has_tag(rest, last.tag) {
                    let i = choose|i: int| 0 <= i < rest.len() && (#[trigger] rest[i]).tag == last.tag;
                    assert(order[i].tag != order[order.len() - 1].tag);
                }
            }
            assert(extends(tables, before));
            assert forall|k: int| 0 <= k < order.len() implies tables.contains_key(
                (#[trigger] order[k]).tag,
            ) && table_agrees(tables[order[k].tag], order[k], tables) by {
                if k < rest.len() {
                    assert(order[k] == rest[k]);
                    assert(before.contains_key(rest[k].tag));
                    lemma_agrees_extends(before[rest[k].tag], rest[k], before, tables);
                } else {
                    lemma_agrees_extends(tables[last.tag], last, before, tables);
                }
            }
        }
    }
}

impl FontModel {
    /// What holds of table number `k` in a font whose directory gives the
    /// layout that encoding produces: the entry gives the offset at which the
    /// bytes of the table start, and a `cmap` table has its subtables back to
    /// back.
    pub open spec fn table_laid_out(self, k: int) -> bool {
        let entry = self.order()[k];
        &&& entry.offset == self.table_start(k)
        &&& self.tables[entry.tag] matches FontTableModel::Cmap(cmap) ==> cmap.is_packed()
    }

    /// Whether the directory of the font gives the layout that encoding
    /// produces.
    pub open spec fn is_laid_out(self) -> bool {
        forall|k: int| 0 <= k < self.order().len() ==> #[trigger] self.table_laid_out(k)
    }
}

/// A font that was decoded is well formed: it has all required tables, a
/// table for each tag of its directory and no other, and each table agrees
/// with its entry and with the tables it depends on.
#[verifier::rlimit(40)]
pub proof fn lemma_decoded_font_agrees(data: Seq<u8>, at: int)
    ensures
        parse_font(data, at) matches Ok((font, _)) ==> {
            &&& font.wf()
            &&& has_required_tags(font.font_directory.table_directory)
            &&& forall|k: int|
                0 <= k < font.order().len() ==> table_agrees(
                    font.tables[(#[trigger] font.order()[k]).tag],
                    font.order()[k],
                    font.tables,
                )
        },
{
    reveal(FontModel::order);
    if let Ok((font, _)) = parse_font(data, at) {
        let entries = font.font_directory.table_directory;
        let end = parse_directory(data, at)->Ok_0.1;
        lemma_decode_order_sorted(entries);
        lemma_decode_order_tags(entries);
        lemma_parse_tables_tags(data, font.order(), end);
        lemma_parse_tables_agree(data, font.order(), end);
    }
}

/// Decoding, encoding and decoding again gives the same font: where a font
/// was decoded and its directory gives the layout that encoding produces,
/// the font can be encoded, and decoding its bytes gives a font with the same
/// directory and the same tables.
pub proof fn lemma_decode_encode_decode(data: Seq<u8>, at: int)
    requires
        parse_font(data, at) matches Ok((font, _)) && font.is_laid_out(),
    ensures
        parse_font(data, at)->Ok_0.0.wire() matches Ok(bytes) && parse_font(bytes, 0) matches Ok(
            (decoded, _),
        ) && decoded == parse_font(data, at)->Ok_0.0,
{
    reveal(FontModel::order);
    let font = parse_font(data, at)->Ok_0.0;
    lemma_decoded_font_agrees(data, at);
    assert forall|k: int| 0 <= k < font.order().len() implies #[trigger] font.table_in_place(
        k,
    ) by {
        assert(font.table_laid_out(k));
        assert(table_agrees(font.tables[font.order()[k].tag], font.order()[k], font.tables));
    }
    lemma_font_round_trip(font);
}

/// Where tables were decoded, no two under the same tag, and each `cmap`
/// table among them has its subtables back to back, `data` holds the wire
/// form of each table at the offset of its entry.
#[verifier::rlimit(40)]
proof fn lemma_tables_held(data: Seq<u8>, order: Seq<TableDirEntry>, start: int)
    requires
        forall|i: int, j: int|
            0 <= i < j < order.len() ==> (#[trigger] order[i]).tag != (#[trigger] order[j]).tag,
        parse_tables(data, order, start) is Ok,
        forall|k: int|
            0 <= k < order.len() ==> (parse_tables(data, order, start)->Ok_0.0[(
            #[trigger] order[k]).tag] matches FontTableModel::Cmap(cmap) ==> cmap.is_packed()),
    ensures
        forall|k: int|
            0 <= k < order.len() ==> holds(
                data,
                (#[trigger] order[k]).offset as int,
                parse_tables(data, order, start)->Ok_0.0[order[k].tag].wire(),
            ),
    decreases order.len(),
{
    if order.len() > 0 {
        let tables = parse_tables(data, order, start)->Ok_0.0;
        let rest = order.drop_last();
        let last = order.last();
        let before = parse_tables(data, rest, start)->Ok_0.0;
        lemma_parse_tables_tags(data, rest, start);
        assert(!before.contains_key(last.tag)) by {
            if has_tag(rest, last.tag) {
                let i = choose|i: int| 0 <= i < rest.len() && (#[trigger] rest[i]).tag == last.tag;
                assert(order[i].tag != order[order.len() - 1].tag);
            }
        }
        assert forall|k: int| 0 <= k < rest.len() implies (#[trigger] rest[k]).tag != last.tag
            && before.contains_key(rest[k].tag) && before[rest[k].tag] == tables[order[k].tag] by {
            assert(rest[k] == order[k]);
            assert(has_tag(rest, rest[k].tag));
        }
        assert forall|i: int, j: int| 0 <= i < j < rest.len() implies (#[trigger] rest[i]).tag
            != (#[trigger] rest[j]).tag by {
            assert(rest[i] == order[i] && rest[j] == order[j]);
        }
        assert forall|k: int| 0 <= k < rest.len() implies (before[(#[trigger] rest[k]).tag]
            matches FontTableModel::Cmap(cmap) ==> cmap.is_packed()) by {
            assert(rest[k] == order[k]);
        }
        lemma_tables_held(data, rest, start);
        assert(tables[order[order.len() - 1].tag] == parse_table(data, last, before)->Ok_0.0);
        lemma_table_exact(data, last, before);
        assert forall|k: int| 0 <= k < order.len() implies holds(
            data,
            (#[trigger] order[k]).offset as int,
            tables[order[k].tag].wire(),
        ) by {
            if k < rest.len() {
                assert(order[k] == rest[k]);
            }
        }
    }
}

impl FontModel {
    /// Whether `data` has zero bytes as the padding behind table number `k`.
    pub open spec fn padding_is_zero(self, data: Seq<u8>, k: int) -> bool {
        let entry = self.order()[k];
        holds(
            data,
            entry.offset + self.tables[entry.tag].wire().len(),
            zeros(padding_for(entry.offset + entry.length)),
        )
    }

    /// Whether `data` holds table number `k` where encoding puts it, with
    /// zero bytes as its padding.
    pub open spec fn table_held(self, data: Seq<u8>, k: int) -> bool {
        let entry = self.order()[k];
        &&& entry.offset == self.table_start(k)
        &&& holds(data, entry.offset as int, self.tables[entry.tag].wire())
        &&& self.padding_is_zero(data, k)
    }
}

/// Bytes that hold the directory and each table where encoding puts it
/// start with the directory and the first `n` tables.
#[verifier::rlimit(40)]
proof fn lemma_font_prefix_held(data: Seq<u8>, font: FontModel, n: int)
    requires
        tables_wire(font.tables, font.order()) is Ok,
        holds(data, 0, font.font_directory.wire()),
        forall|k: int| 0 <= k < font.order().len() ==> #[trigger] font.table_held(data, k),
        0 <= n <= font.order().len(),
    ensures
        tables_wire(font.tables, font.order().take(n)) is Ok,
        holds(
            data,
            0,
            font.font_directory.wire() + tables_wire(font.tables, font.order().take(n))->Ok_0,
        ),
    decreases n,
{
    let order = font.order();
    let head = font.font_directory.wire();
    if n == 0 {
        assert(head + tables_wire(font.tables, order.take(0))->Ok_0 =~= head);
    } else {
        let k = n - 1;
        lemma_font_prefix_held(data, font, k);
        lemma_tables_wire_holds(font.tables, order, k);
        if n < order.len() {
            lemma_tables_wire_holds(font.tables, order, n);
        } else {
            assert(order.take(n) =~= order);
        }
        let entry = order[k];
        let before = tables_wire(font.tables, order.take(k))->Ok_0;
        let table = font.tables[entry.tag].wire();
        let padding = zeros(padding_for(entry.offset + entry.length));
        assert(order.take(n).drop_last() =~= order.take(k));
        assert(order.take(n).last() == entry);
        assert(font.table_held(data, k));
        lemma_holds_join(data, 0, head + before, table);
        lemma_holds_join(data, 0, head + before + table, padding);
        assert(head + before + table + padding =~= head + (before + table + padding));
    }
}

/// Encoding a font that was decoded gives back the bytes it was decoded
/// from, where the bytes are the directory and the tables in the layout that
/// encoding produces, padded with zero bytes, and nothing more.
#[verifier::rlimit(40)]
pub proof fn lemma_decode_encode_exact(data: Seq<u8>)
    requires
        parse_font(data, 0) matches Ok((font, _)) && font.is_laid_out() && (font.wire() matches Ok(
            bytes,
        ) && bytes.len() == data.len()),
        forall|k: int|
            0 <= k < parse_font(data, 0)->Ok_0.0.order().len() ==> #[trigger] parse_font(
                data,
                0,
            )->Ok_0.0.padding_is_zero(data, k),
    ensures
        parse_font(data, 0)->Ok_0.0.wire() == Ok::<Seq<u8>, Error>(data),
{
    reveal(FontModel::order);
    let font = parse_font(data, 0)->Ok_0.0;
    let order = font.order();
    let bytes = font.wire()->Ok_0;
    let start = parse_directory(data, 0)->Ok_0.1;
    lemma_directory_exact(data, 0);
    lemma_decode_order_sorted(font.font_directory.table_directory);
    assert forall|i: int| 0 <= i < order.len() implies (font.tables[(#[trigger] order[i]).tag]
        matches FontTableModel::Cmap(cmap) ==> cmap.is_packed()) by {
        assert(font.table_laid_out(i));
    }
    lemma_tables_held(data, order, start);
    assert forall|k: int| 0 <= k < order.len() implies #[trigger] font.table_held(data, k) by {
        assert(font.table_laid_out(k));
        assert(font.padding_is_zero(data, k));
        assert(holds(data, order[k].offset as int, font.tables[order[k].tag].wire()));
    }
    lemma_font_prefix_held(data, font, order.len() as int);
    assert(order.take(order.len() as int) =~= order);
    assert(data.subrange(0, data.len() as int) =~= data);
    assert(bytes =~= data);
}

} // verus!
