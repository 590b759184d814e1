//! Conversion of ELF files.

pub mod accepted;
pub mod consistency;
pub mod conversion;
pub mod converter;
pub mod discovery;
pub mod distinct;
pub mod image;
pub mod object_file;
pub mod options;
pub mod placement;
pub mod search;
pub mod stream;
pub mod symbols;
