//! Building blocks shared by all table codecs.

pub mod bitflag;
pub mod codec;
pub mod reader;
pub mod types;
