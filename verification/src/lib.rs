//! A codec for the SFNT/TrueType font container: it decodes a byte stream
//! into typed tables and encodes the tables back into bytes.
//!
//! Every decoder is specified by a function on `Seq<u8>`, every encoder by the
//! byte sequence it appends, and the two are related by round-trip laws.

pub mod error;
pub mod sfnt;
pub mod table;
pub mod ttf;
pub mod utils;
