//! Conversion of ELF and DWARF data into GSYM functions.

pub mod diagnostic;
pub mod dwarf;
pub mod elf;
pub mod stats;

pub use crate::convert::diagnostic::ConversionWarning;
pub use crate::convert::elf::converter::{ConversionReport, ElfConverter};
pub use crate::convert::elf::options::{
    ConversionOptions, DiscoveryEvent, DiscoveryPolicy, DwarfImportOptions, ElfInputs,
};
pub use crate::convert::stats::ConversionStats;
