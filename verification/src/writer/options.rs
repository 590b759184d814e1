//! Settings of the writer.
use vstd::prelude::*;
use crate::endian::Endian;
use crate::model::copy_bytes;
use crate::version::GsymVersion;

verus! {

/// Settings controlling deterministic GSYM encoding.
///
/// A `None` base address selects the lowest function address. `build_id` is
/// opaque and is stored as given; version 1 rejects more than 20 bytes.
#[derive(Debug, PartialEq, Eq)]
pub struct WriterOptions {
    /// Output format version.
    pub version: GsymVersion,
    /// Output byte order.
    pub endian: Endian,
    /// Explicit image base, or `None` to use the first function address.
    pub base_address: Option<u64>,
    /// Opaque build identifier copied into the output header.
    pub build_id: Vec<u8>,
}

/// What the settings of the writer say.
pub struct WriterView {
    /// Output format version.
    pub version: GsymVersion,
    /// Output byte order.
    pub endian: Endian,
    /// Explicit image base.
    pub base_address: Option<u64>,
    /// Build identifier.
    pub build_id: Seq<u8>,
}

impl View for WriterOptions {
    type V = WriterView;

    open spec fn view(&self) -> WriterView {
        WriterView {
            version: self.version,
            endian: self.endian,
            base_address: self.base_address,
            build_id: self.build_id@,
        }
    }
}

/// The settings that are used where none are given.
pub open spec fn default_writer() -> WriterView {
    WriterView {
        version: GsymVersion::V1,
        endian: Endian::Little,
        base_address: None,
        build_id: Seq::empty(),
    }
}

impl Default for WriterOptions {
    fn default() -> (options: Self)
        ensures
            options@ == default_writer(),
    {
        WriterOptions {
            version: GsymVersion::V1,
            endian: Endian::Little,
            base_address: None,
            build_id: Vec::new(),
        }
    }
}

impl Clone for WriterOptions {
    fn clone(&self) -> (copy: Self)
        ensures
            copy@ == self@,
    {
        WriterOptions {
            version: self.version,
            endian: self.endian,
            base_address: self.base_address,
            build_id: copy_bytes(self.build_id.as_slice()),
        }
    }
}

} // verus!
