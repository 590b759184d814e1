//! GSYM encoding versions.
use vstd::prelude::*;

verus! {

/// GSYM encoding version.
///
/// `V1` is the default. `V2` raises the 4 GiB size limit and the 20-byte
/// build-ID limit of `V1`. Writing never upgrades a file on its own: a model
/// that exceeds a v1 limit fails with `Error::V1LimitExceeded`.
#[derive(Clone, Copy, Debug, PartialEq, Eq, Structural)]
pub enum GsymVersion {
    /// Widely deployed format.
    V1,
    /// Format without the size limits of version 1.
    V2,
}

impl Default for GsymVersion {
    fn default() -> (version: Self)
        ensures
            version == GsymVersion::V1,
    {
        GsymVersion::V1
    }
}

impl GsymVersion {
    /// The version number stored in a GSYM header.
    pub open spec fn spec_number(self) -> u16 {
        match self {
            GsymVersion::V1 => 1,
            GsymVersion::V2 => 2,
        }
    }

    /// Returns the version number stored in a GSYM header.
    pub fn number(self) -> (number: u16)
        ensures
            number == self.spec_number(),
    {
        match self {
            GsymVersion::V1 => 1,
            GsymVersion::V2 => 2,
        }
    }
}

} // verus!
