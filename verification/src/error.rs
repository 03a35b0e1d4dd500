//! The failures that decoding and encoding can report.

use vstd::prelude::*;

verus! {

/// Failure to decode a value from the byte stream.
#[derive(Debug, Clone, Copy, PartialEq, Eq)]
pub enum DecodeError {
    /// The stream holds fewer bytes than the value needs.
    UnexpectedEof,
    /// A stored count or length contradicts the data it describes.
    InvalidLength,
}

/// Failure to encode a value.
#[derive(Debug, Clone, Copy, PartialEq, Eq)]
pub enum EncodeError {
    /// The directory lists this tag, but the font holds no table for it.
    MissingTable(u32),
}

/// Everything that can go wrong while decoding or encoding a font.
#[derive(Debug, Clone, Copy, PartialEq, Eq)]
pub enum Error {
    /// A value could not be encoded.
    EncodeError(EncodeError),
    /// A value could not be decoded at the current stream position.
    DecodeError(DecodeError),
    /// The directory lacks one of the tables every font must have.
    MissingRequiredTable,
    /// The table stored under a tag is of another kind than the tag names.
    ExpectedTable(&'static str),
    /// A character-map subtable has a format other than 4, 6 or 12.
    UnsupportedCmapSubtable(u16),
    /// A table was asked for before the table it depends on was decoded.
    MissingDependency(u32),
}

/// The error of a read that ran past the end of the stream.
pub open spec fn end_of_stream() -> Error {
    Error::DecodeError(DecodeError::UnexpectedEof)
}

impl Error {
    /// The description of each kind of failure.
    pub open spec fn description(self) -> &'static str {
        match self {
            Error::EncodeError(_) => "a value could not be encoded",
            Error::DecodeError(_) => "a value could not be decoded",
            Error::MissingRequiredTable => "Required tables are missing",
            Error::ExpectedTable(_) => "a table of another kind was expected",
            Error::UnsupportedCmapSubtable(_) => "unsupported cmap subtable format",
            Error::MissingDependency(_) => "a table was decoded before its dependency",
        }
    }

    /// A short description of the failure.
    pub fn message(&self) -> (s: &'static str)
        ensures
            s == self.description(),
    {
        match self {
            Error::EncodeError(_) => "a value could not be encoded",
            Error::DecodeError(_) => "a value could not be decoded",
            Error::MissingRequiredTable => "Required tables are missing",
            Error::ExpectedTable(_) => "a table of another kind was expected",
            Error::UnsupportedCmapSubtable(_) => "unsupported cmap subtable format",
            Error::MissingDependency(_) => "a table was decoded before its dependency",
        }
    }
}

} // verus!
