//! Byte-level building blocks of a file converter, with their contracts.

mod bits;
mod chars;
mod message;
pub mod markdown;
pub mod pages;
pub mod png;
pub mod protobuf;
pub mod scan;
pub mod snappy;
pub mod text;
pub mod toml;
