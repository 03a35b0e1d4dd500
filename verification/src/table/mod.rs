//! The tables of a font and their codecs.

pub mod cmap;
pub mod glyf;
pub mod glyph;
pub mod head;
pub mod hhea;
pub mod hmtx;
pub mod loca;
pub mod maxp;
pub mod tags;

pub use cmap::{Cmap, CmapModel};
pub use head::Head;
pub use hhea::Hhea;
pub use hmtx::{Hmtx, HmtxModel};
pub use loca::{Loca, LocaModel};
pub use maxp::Maxp;

use crate::error::{end_of_stream, Error};
use crate::table::cmap::parse_cmap;
use crate::table::hmtx::parse_hmtx_with;
use crate::table::loca::parse_loca_with;
use crate::table::tags::Tag;
use crate::ttf::font_dir::TableDirEntry;
use crate::utils::codec::{has_value, value_at, Encode};
use crate::utils::reader::{
    fits, holds, lemma_value_exact, lemma_value_held, window, Stream, TryFromStream,
};
use crate::utils::types::{lemma_bytes_wire, Sequence};
use std::collections::BTreeMap;
use vstd::prelude::*;

verus! {

/// A decoded table: one of the kinds the codec knows, or the bytes of a
/// table of any other kind, kept as they are.
#[derive(Debug, Clone, PartialEq, Eq)]
pub enum FontTable {
    Head(Head),
    Hhea(Hhea),
    Maxp(Maxp),
    Hmtx(Hmtx),
    Cmap(Cmap),
    Loca(Loca),
    Other(Sequence<u8>),
}

/// The mathematical value of a [`FontTable`].
pub enum FontTableModel {
    Head(Head),
    Hhea(Hhea),
    Maxp(Maxp),
    Hmtx(HmtxModel),
    Cmap(CmapModel),
    Loca(LocaModel),
    Other(Seq<u8>),
}

impl View for FontTable {
    type V = FontTableModel;

    open spec fn view(&self) -> FontTableModel {
        match self {
            FontTable::Head(table) => FontTableModel::Head(*table),
            FontTable::Hhea(table) => FontTableModel::Hhea(*table),
            FontTable::Maxp(table) => FontTableModel::Maxp(*table),
            FontTable::Hmtx(table) => FontTableModel::Hmtx(table@),
            FontTable::Cmap(table) => FontTableModel::Cmap(table@),
            FontTable::Loca(table) => FontTableModel::Loca(table@),
            FontTable::Other(bytes) => FontTableModel::Other(bytes@),
        }
    }
}

impl FontTableModel {
    /// The bytes of the table.
    pub open spec fn wire(self) -> Seq<u8> {
        match self {
            FontTableModel::Head(table) => table.wire(),
            FontTableModel::Hhea(table) => table.wire(),
            FontTableModel::Maxp(table) => table.wire(),
            FontTableModel::Hmtx(table) => table.wire(),
            FontTableModel::Cmap(table) => table.wire(),
            FontTableModel::Loca(table) => table.wire(),
            FontTableModel::Other(bytes) => bytes,
        }
    }
}

impl Encode for FontTable {
    open spec fn wire(&self) -> Seq<u8> {
        self@.wire()
    }

    fn encode(&self, out: &mut Vec<u8>) {
        match self {
            FontTable::Head(table) => table.encode(out),
            FontTable::Hhea(table) => table.encode(out),
            FontTable::Maxp(table) => table.encode(out),
            FontTable::Hmtx(table) => table.encode(out),
            FontTable::Cmap(table) => table.encode(out),
            FontTable::Loca(table) => table.encode(out),
            FontTable::Other(bytes) => {
                proof {
                    lemma_bytes_wire(bytes@);
                }
                bytes.encode(out)
            },
        }
    }
}

/// The models of the tables in `tables`, under the same tags.
pub open spec fn table_models(tables: Map<Tag, FontTable>) -> Map<Tag, FontTableModel> {
    tables.map_values(|t: FontTable| t@)
}

/// The `head` table among `tables`: it must be there, and be a `head` table.
pub open spec fn head_of(tables: Map<Tag, FontTableModel>) -> Result<Head, Error> {
    if !tables.contains_key(tags::HEAD) {
        Err(Error::MissingDependency(tags::HEAD))
    } else {
        match tables[tags::HEAD] {
            FontTableModel::Head(table) => Ok(table),
            _ => Err(Error::ExpectedTable("head")),
        }
    }
}

/// The `hhea` table among `tables`: it must be there, and be an `hhea` table.
pub open spec fn hhea_of(tables: Map<Tag, FontTableModel>) -> Result<Hhea, Error> {
    if !tables.contains_key(tags::HHEA) {
        Err(Error::MissingDependency(tags::HHEA))
    } else {
        match tables[tags::HHEA] {
            FontTableModel::Hhea(table) => Ok(table),
            _ => Err(Error::ExpectedTable("hhea")),
        }
    }
}

/// The `maxp` table among `tables`: it must be there, and be a `maxp` table.
pub open spec fn maxp_of(tables: Map<Tag, FontTableModel>) -> Result<Maxp, Error> {
    if !tables.contains_key(tags::MAXP) {
        Err(Error::MissingDependency(tags::MAXP))
    } else {
        match tables[tags::MAXP] {
            FontTableModel::Maxp(table) => Ok(table),
            _ => Err(Error::ExpectedTable("maxp")),
        }
    }
}

/// The `hmtx` table among `tables`: it must be there, and be an `hmtx` table.
pub open spec fn hmtx_of(tables: Map<Tag, FontTableModel>) -> Result<HmtxModel, Error> {
    if !tables.contains_key(tags::HMTX) {
        Err(Error::MissingDependency(tags::HMTX))
    } else {
        match tables[tags::HMTX] {
            FontTableModel::Hmtx(table) => Ok(table),
            _ => Err(Error::ExpectedTable("hmtx")),
        }
    }
}

/// The `cmap` table among `tables`: it must be there, and be a `cmap` table.
pub open spec fn cmap_of(tables: Map<Tag, FontTableModel>) -> Result<CmapModel, Error> {
    if !tables.contains_key(tags::CMAP) {
        Err(Error::MissingDependency(tags::CMAP))
    } else {
        match tables[tags::CMAP] {
            FontTableModel::Cmap(table) => Ok(table),
            _ => Err(Error::ExpectedTable("cmap")),
        }
    }
}

/// The `loca` table among `tables`: it must be there, and be a `loca` table.
pub open spec fn loca_of(tables: Map<Tag, FontTableModel>) -> Result<LocaModel, Error> {
    if !tables.contains_key(tags::LOCA) {
        Err(Error::MissingDependency(tags::LOCA))
    } else {
        match tables[tags::LOCA] {
            FontTableModel::Loca(table) => Ok(table),
            _ => Err(Error::ExpectedTable("loca")),
        }
    }
}

/// Typed access to the tables that other tables depend on.
///
/// A table that is not there yet is a missing dependency; a table of another
/// kind under the tag is an unexpected table.
pub trait GetFontTable {
    /// The models of the tables, by tag.
    spec fn models(&self) -> Map<Tag, FontTableModel>;

    fn head(&self) -> (r: Result<&Head, Error>)
        ensures
            match r {
                Ok(table) => head_of(self.models()) == Ok::<Head, Error>(*table),
                Err(e) => head_of(self.models()) == Err::<Head, Error>(e),
            },
    ;

    fn hhea(&self) -> (r: Result<&Hhea, Error>)
        ensures
            match r {
                Ok(table) => hhea_of(self.models()) == Ok::<Hhea, Error>(*table),
                Err(e) => hhea_of(self.models()) == Err::<Hhea, Error>(e),
            },
    ;

    fn maxp(&self) -> (r: Result<&Maxp, Error>)
        ensures
            match r {
                Ok(table) => maxp_of(self.models()) == Ok::<Maxp, Error>(*table),
                Err(e) => maxp_of(self.models()) == Err::<Maxp, Error>(e),
            },
    ;

    fn hmtx(&self) -> (r: Result<&Hmtx, Error>)
        ensures
            match r {
                Ok(table) => hmtx_of(self.models()) == Ok::<HmtxModel, Error>(table@),
                Err(e) => hmtx_of(self.models()) == Err::<HmtxModel, Error>(e),
            },
    ;

    fn cmap(&self) -> (r: Result<&Cmap, Error>)
        ensures
            match r {
                Ok(table) => cmap_of(self.models()) == Ok::<CmapModel, Error>(table@),
                Err(e) => cmap_of(self.models()) == Err::<CmapModel, Error>(e),
            },
    ;

    fn loca(&self) -> (r: Result<&Loca, Error>)
        ensures
            match r {
                Ok(table) => loca_of(self.models()) == Ok::<LocaModel, Error>(table@),
                Err(e) => loca_of(self.models()) == Err::<LocaModel, Error>(e),
            },
    ;
}

impl GetFontTable for BTreeMap<Tag, FontTable> {
    open spec fn models(&self) -> Map<Tag, FontTableModel> {
        table_models(self@)
    }

    fn head(&self) -> (r: Result<&Head, Error>) {
        match self.get(&tags::HEAD) {
            None => Err(Error::MissingDependency(tags::HEAD)),
            Some(FontTable::Head(table)) => Ok(table),
            Some(_) => Err(Error::ExpectedTable("head")),
        }
    }

    fn hhea(&self) -> (r: Result<&Hhea, Error>) {
        match self.get(&tags::HHEA) {
            None => Err(Error::MissingDependency(tags::HHEA)),
            Some(FontTable::Hhea(table)) => Ok(table),
            Some(_) => Err(Error::ExpectedTable("hhea")),
        }
    }

    fn maxp(&self) -> (r: Result<&Maxp, Error>) {
        match self.get(&tags::MAXP) {
            None => Err(Error::MissingDependency(tags::MAXP)),
            Some(FontTable::Maxp(table)) => Ok(table),
            Some(_) => Err(Error::ExpectedTable("maxp")),
        }
    }

    fn hmtx(&self) -> (r: Result<&Hmtx, Error>) {
        match self.get(&tags::HMTX) {
            None => Err(Error::MissingDependency(tags::HMTX)),
            Some(FontTable::Hmtx(table)) => Ok(table),
            Some(_) => Err(Error::ExpectedTable("hmtx")),
        }
    }

    fn cmap(&self) -> (r: Result<&Cmap, Error>) {
        match self.get(&tags::CMAP) {
            None => Err(Error::MissingDependency(tags::CMAP)),
            Some(FontTable::Cmap(table)) => Ok(table),
            Some(_) => Err(Error::ExpectedTable("cmap")),
        }
    }

    fn loca(&self) -> (r: Result<&Loca, Error>) {
        match self.get(&tags::LOCA) {
            None => Err(Error::MissingDependency(tags::LOCA)),
            Some(FontTable::Loca(table)) => Ok(table),
            Some(_) => Err(Error::ExpectedTable("loca")),
        }
    }
}

/// What decoding the table of the entry `entry` gives, and where it ends:
/// the table is looked for at the offset of the entry and decoded as its tag
/// says, with what it depends on taken from `tables`. A table with any other
/// tag is the bytes of its length, as they are.
pub open spec fn parse_table(data: Seq<u8>, entry: TableDirEntry, tables: Map<Tag, FontTableModel>) -> Result<
    (FontTableModel, int),
    Error,
> {
    let at = entry.offset as int;
    if entry.tag == tags::HEAD {
        if !has_value::<Head>(data, at) {
            Err(end_of_stream())
        } else {
            Ok((FontTableModel::Head(value_at::<Head>(data, at)), at + 56))
        }
    } else if entry.tag == tags::HHEA {
        if !has_value::<Hhea>(data, at) {
            Err(end_of_stream())
        } else {
            Ok((FontTableModel::Hhea(value_at::<Hhea>(data, at)), at + 36))
        }
    } else if entry.tag == tags::MAXP {
        if !has_value::<Maxp>(data, at) {
            Err(end_of_stream())
        } else {
            Ok((FontTableModel::Maxp(value_at::<Maxp>(data, at)), at + 32))
        }
    } else if entry.tag == tags::CMAP {
        match parse_cmap(data, at) {
            Err(e) => Err(e),
            Ok((table, end)) => Ok((FontTableModel::Cmap(table), end)),
        }
    } else if entry.tag == tags::LOCA {
        match parse_loca_with(tables, data, at) {
            Err(e) => Err(e),
            Ok((table, end)) => Ok((FontTableModel::Loca(table), end)),
        }
    } else if entry.tag == tags::HMTX {
        match parse_hmtx_with(tables, data, at) {
            Err(e) => Err(e),
            Ok((table, end)) => Ok((FontTableModel::Hmtx(table), end)),
        }
    } else if !fits(data, at, entry.length as int) {
        Err(end_of_stream())
    } else {
        Ok((FontTableModel::Other(window(data, at, entry.length as int)), at + entry.length))
    }
}

/// Whether `table` is of the kind that the tag of `entry` names and agrees
/// with the tables among `tables` that it depends on: raw bytes of the length
/// of the entry for an unknown tag; for `loca`, the format that `head` names
/// and an offset more than `maxp` counts glyphs; for `hmtx`, the counts of
/// `hhea` and `maxp`.
pub open spec fn table_agrees(
    table: FontTableModel,
    entry: TableDirEntry,
    tables: Map<Tag, FontTableModel>,
) -> bool {
    if entry.tag == tags::HEAD {
        table is Head
    } else if entry.tag == tags::HHEA {
        table is Hhea
    } else if entry.tag == tags::MAXP {
        table is Maxp
    } else if entry.tag == tags::CMAP {
        table matches FontTableModel::Cmap(cmap) && cmap.wf()
    } else if entry.tag == tags::LOCA {
        &&& table matches FontTableModel::Loca(loca)
        &&& head_of(tables) matches Ok(head)
        &&& maxp_of(tables) matches Ok(maxp)
        &&& loca.wf()
        &&& loca.format == crate::table::loca::format_of(head.index_to_loc_format)
        &&& loca.offsets.len() == maxp.num_glyphs + 1
    } else if entry.tag == tags::HMTX {
        &&& table matches FontTableModel::Hmtx(hmtx)
        &&& maxp_of(tables) matches Ok(maxp)
        &&& hhea_of(tables) matches Ok(hhea)
        &&& hhea.num_of_long_hor_metrics <= maxp.num_glyphs
        &&& hmtx.h_metrics.len() == hhea.num_of_long_hor_metrics
        &&& hmtx.left_side_bearing.len() == maxp.num_glyphs - hhea.num_of_long_hor_metrics
    } else {
        table matches FontTableModel::Other(bytes) && bytes.len() == entry.length
    }
}

/// Whether `table` is what the bytes of the entry `entry` are decoded to: a
/// table that agrees with its entry and with the tables it depends on and,
/// where it is a `cmap` table, has its subtables back to back.
pub open spec fn table_fits_entry(
    table: FontTableModel,
    entry: TableDirEntry,
    tables: Map<Tag, FontTableModel>,
) -> bool {
    &&& table_agrees(table, entry, tables)
    &&& table matches FontTableModel::Cmap(cmap) ==> cmap.is_packed()
}

/// A table that was decoded agrees with its entry and with the tables it
/// was decoded with.
pub proof fn lemma_parse_table_agrees(
    data: Seq<u8>,
    entry: TableDirEntry,
    tables: Map<Tag, FontTableModel>,
)
    ensures
        parse_table(data, entry, tables) matches Ok((table, _)) ==> table_agrees(
            table,
            entry,
            tables,
        ),
{
    let at = entry.offset as int;
    if entry.tag == tags::CMAP {
        crate::table::cmap::lemma_parse_cmap_wf(data, at);
    } else if entry.tag == tags::LOCA {
        if let Ok(head) = head_of(tables) {
            if let Ok(maxp) = maxp_of(tables) {
                crate::table::loca::lemma_parse_loca_wf(
                    data,
                    at,
                    crate::table::loca::format_of(head.index_to_loc_format),
                    maxp.num_glyphs,
                );
            }
        }
    }
}

/// Whether `later` has every table of `earlier`, unchanged.
pub open spec fn extends(later: Map<Tag, FontTableModel>, earlier: Map<Tag, FontTableModel>) -> bool {
    forall|tag: Tag| #[trigger]
        earlier.contains_key(tag) ==> later.contains_key(tag) && later[tag] == earlier[tag]
}

/// A table that agrees with some tables agrees with fewer of them, as long
/// as those it depends on are among them.
pub proof fn lemma_agrees_restricts(
    table: FontTableModel,
    entry: TableDirEntry,
    earlier: Map<Tag, FontTableModel>,
    later: Map<Tag, FontTableModel>,
)
    requires
        table_agrees(table, entry, later),
        extends(later, earlier),
        entry.tag == tags::LOCA ==> earlier.contains_key(tags::HEAD) && earlier.contains_key(
            tags::MAXP,
        ),
        entry.tag == tags::HMTX ==> earlier.contains_key(tags::MAXP) && earlier.contains_key(
            tags::HHEA,
        ),
    ensures
        table_agrees(table, entry, earlier),
{
}

/// A table that agrees with some tables agrees with any more tables.
pub proof fn lemma_agrees_extends(
    table: FontTableModel,
    entry: TableDirEntry,
    earlier: Map<Tag, FontTableModel>,
    later: Map<Tag, FontTableModel>,
)
    requires
        table_agrees(table, entry, earlier),
        extends(later, earlier),
    ensures
        table_agrees(table, entry, later),
{
    if entry.tag == tags::LOCA {
        assert(earlier.contains_key(tags::HEAD) && earlier.contains_key(tags::MAXP));
    } else if entry.tag == tags::HMTX {
        assert(earlier.contains_key(tags::MAXP) && earlier.contains_key(tags::HHEA));
    }
}

/// Decoding the bytes of a table at the offset of its entry gives the table
/// back.
pub proof fn lemma_table_round_trip(
    data: Seq<u8>,
    entry: TableDirEntry,
    table: FontTableModel,
    tables: Map<Tag, FontTableModel>,
)
    requires
        table_fits_entry(table, entry, tables),
        holds(data, entry.offset as int, table.wire()),
    ensures
        parse_table(data, entry, tables) == Ok::<(FontTableModel, int), Error>(
            (table, entry.offset + table.wire().len()),
        ),
{
    let at = entry.offset as int;
    match table {
        FontTableModel::Head(inner) => {
            lemma_value_held::<Head>(data, at, inner);
        },
        FontTableModel::Hhea(inner) => {
            lemma_value_held::<Hhea>(data, at, inner);
        },
        FontTableModel::Maxp(inner) => {
            lemma_value_held::<Maxp>(data, at, inner);
        },
        FontTableModel::Cmap(inner) => {
            crate::table::cmap::lemma_cmap_round_trip(data, at, inner);
        },
        FontTableModel::Loca(inner) => {
            crate::table::loca::lemma_loca_round_trip(
                data,
                at,
                inner,
                maxp_of(tables)->Ok_0.num_glyphs,
            );
        },
        FontTableModel::Hmtx(inner) => {
            crate::table::hmtx::lemma_hmtx_round_trip(
                data,
                at,
                inner,
                maxp_of(tables)->Ok_0.num_glyphs,
                hhea_of(tables)->Ok_0.num_of_long_hor_metrics,
            );
        },
        FontTableModel::Other(bytes) => {
            assert(window(data, at, entry.length as int) =~= bytes);
        },
    }
}

/// What was decoded is what the bytes hold: where the table of an entry
/// was decoded, `data` holds the wire form of the table at the offset of the
/// entry, and the table ends where the wire form ends. For a `cmap` table
/// this holds where its subtables lie back to back behind the records.
pub proof fn lemma_table_exact(data: Seq<u8>, entry: TableDirEntry, tables: Map<Tag, FontTableModel>)
    requires
        parse_table(data, entry, tables) matches Ok((table, _)) && (table
            matches FontTableModel::Cmap(cmap) ==> cmap.is_packed()),
    ensures
        holds(data, entry.offset as int, parse_table(data, entry, tables)->Ok_0.0.wire()),
        parse_table(data, entry, tables)->Ok_0.1 == entry.offset + parse_table(
            data,
            entry,
            tables,
        )->Ok_0.0.wire().len(),
{
    let at = entry.offset as int;
    if entry.tag == tags::HEAD {
        lemma_value_exact::<Head>(data, at);
    } else if entry.tag == tags::HHEA {
        lemma_value_exact::<Hhea>(data, at);
    } else if entry.tag == tags::MAXP {
        lemma_value_exact::<Maxp>(data, at);
    } else if entry.tag == tags::CMAP {
        crate::table::cmap::lemma_cmap_exact(data, at);
    } else if entry.tag == tags::LOCA {
        crate::table::loca::lemma_loca_exact(
            data,
            at,
            crate::table::loca::format_of(head_of(tables)->Ok_0.index_to_loc_format),
            maxp_of(tables)->Ok_0.num_glyphs,
        );
    } else if entry.tag == tags::HMTX {
        crate::table::hmtx::lemma_hmtx_exact(
            data,
            at,
            maxp_of(tables)->Ok_0.num_glyphs,
            hhea_of(tables)->Ok_0.num_of_long_hor_metrics,
        );
    } else {
        let bytes = window(data, at, entry.length as int);
        if bytes.len() > 0 {
            assert(data.subrange(at, at + bytes.len()) =~= bytes);
        }
    }
}

impl FontTable {
    /// Decodes the table of the entry `entry`: moves to its offset, whatever
    /// the cursor was, and decodes what the tag names.
    pub fn try_from_params(
        entry: &TableDirEntry,
        tables: &BTreeMap<Tag, FontTable>,
        stream: &mut Stream<'_>,
    ) -> (r: Result<Self, Error>)
        ensures
            final(stream).bytes() == old(stream).bytes(),
            match r {
                Ok(v) => parse_table(old(stream).bytes(), *entry, table_models(tables@)) == Ok::<
                    (FontTableModel, int),
                    Error,
                >((v@, final(stream).cursor())),
                Err(e) => parse_table(old(stream).bytes(), *entry, table_models(tables@)) == Err::<
                    (FontTableModel, int),
                    Error,
                >(e),
            },
    {
        stream.seek(entry.offset as u64);
        let tag: Tag = entry.tag;
        if tag == tags::HEAD {
            Ok(FontTable::Head(Head::try_from_stream(stream)?))
        } else if tag == tags::HHEA {
            Ok(FontTable::Hhea(Hhea::try_from_stream(stream)?))
        } else if tag == tags::MAXP {
            Ok(FontTable::Maxp(Maxp::try_from_stream(stream)?))
        } else if tag == tags::CMAP {
            Ok(FontTable::Cmap(Cmap::try_from_stream(stream)?))
        } else if tag == tags::LOCA {
            Ok(FontTable::Loca(Loca::try_from_params(tables, stream)?))
        } else if tag == tags::HMTX {
            Ok(FontTable::Hmtx(Hmtx::try_from_params(tables, stream)?))
        } else {
            Ok(FontTable::Other(stream.read_bytes(entry.length as usize)?))
        }
    }
}

} // verus!
