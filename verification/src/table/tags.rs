//! Table tags and the order in which tables are handled.

use std::cmp::Ordering;
use vstd::prelude::*;

verus! {

/// The four bytes that name a table, read as a big-endian number.
pub type Tag = u32;

/// `cmap`
pub const CMAP: u32 = 0x636d_6170;

/// `glyf`
pub const GLYF: u32 = 0x676c_7966;

/// `head`
pub const HEAD: u32 = 0x6865_6164;

/// `hhea`
pub const HHEA: u32 = 0x6868_6561;

/// `hmtx`
pub const HMTX: u32 = 0x686d_7478;

/// `loca`
pub const LOCA: u32 = 0x6c6f_6361;

/// `maxp`
pub const MAXP: u32 = 0x6d61_7870;

/// `name`
pub const NAME: u32 = 0x6e61_6d65;

/// `post`
pub const POST: u32 = 0x706f_7374;

/// The tables that every font must have.
pub const REQUIRED_TAGS: [Tag; 9] = [CMAP, GLYF, HEAD, HHEA, HMTX, LOCA, MAXP, NAME, POST];

/// The rank of a table in the order of decoding: a table is decoded after
/// every table it depends on. Tables without a known tag come last.
pub open spec fn priority(tag: Tag) -> u8 {
    if tag == HEAD {
        1
    } else if tag == MAXP {
        2
    } else if tag == LOCA {
        3
    } else if tag == GLYF {
        4
    } else if tag == HHEA {
        5
    } else if tag == HMTX {
        6
    } else if tag == CMAP {
        7
    } else if tag == NAME {
        8
    } else if tag == POST {
        9
    } else {
        255
    }
}

pub fn tag_priority(tag: Tag) -> (p: u8)
    ensures
        p == priority(tag),
{
    if tag == HEAD {
        1
    } else if tag == MAXP {
        2
    } else if tag == LOCA {
        3
    } else if tag == GLYF {
        4
    } else if tag == HHEA {
        5
    } else if tag == HMTX {
        6
    } else if tag == CMAP {
        7
    } else if tag == NAME {
        8
    } else if tag == POST {
        9
    } else {
        255
    }
}

/// Orders two tags by their priority.
pub fn compare_tags(a: Tag, b: Tag) -> (r: Ordering)
    ensures
        r == Ordering::Less <==> priority(a) < priority(b),
        r == Ordering::Equal <==> priority(a) == priority(b),
        r == Ordering::Greater <==> priority(a) > priority(b),
{
    let a_priority: u8 = tag_priority(a);
    let b_priority: u8 = tag_priority(b);
    if a_priority < b_priority {
        Ordering::Less
    } else if a_priority == b_priority {
        Ordering::Equal
    } else {
        Ordering::Greater
    }
}

} // verus!
