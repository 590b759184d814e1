//! Reading and writing of GSYM symbolication files.
//!
//! GSYM is a compact, address-indexed container for function names, source
//! lines, inline call trees and call sites. The crate holds the binary format,
//! the reader, the writer and the rules that turn ELF and DWARF data into GSYM
//! functions.

pub mod acceptance;
pub mod builder;
pub mod bytes;
pub mod convert;
pub mod endian;
pub mod equality;
pub mod error;
pub mod format;
pub mod hash_index;
pub mod model;
pub mod normalize;
pub mod reader;
pub mod sort;
pub mod text;
pub mod transcoding;
pub mod transform;
pub mod validation;
pub mod version;
pub mod writer;

pub use crate::builder::{BuilderOptions, GsymBuilder};
pub use crate::endian::Endian;
pub use crate::error::{CompanionMismatch, ElfInputKind, Error};
pub use crate::model::{
    AddressRange, CallSite, CallSiteFlags, FileEntry, FileIndex, Function, InlineNode, LineEntry,
    Lookup, LookupFrame,
};
pub use crate::reader::{
    FrameLookupOptions, FunctionRef, Functions, Gsym, Header, LookupOptions, LookupScratch,
    VerifyReport,
};
pub use crate::transform::{DecodedGsym, GsymSegment, TranscodeOptions};
pub use crate::version::GsymVersion;
pub use crate::writer::finalize::FunctionSetPolicy;
pub use crate::writer::options::WriterOptions;
