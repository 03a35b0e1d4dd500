[package]
name = "sfnt_codec"
version = "0.1.0"
edition = "2021"
publish = false

[dependencies]
thiserror = "2"

[dev-dependencies]
bincode = "2"
