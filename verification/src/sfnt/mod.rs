//! Scalar types of the SFNT container.

pub mod types;
