//! Import of DWARF debugging information.

pub mod calls;
pub mod collect;
pub mod collected;
pub mod counts;
pub mod debug_info;
pub mod details;
pub mod dies;
pub mod import;
pub mod imported;
pub mod instructions;
pub mod laws;
pub mod lines;
pub mod model;
pub mod naming;
pub mod nesting;
pub mod program;
pub mod ranges;
pub mod reading;
pub mod records;
pub mod references;
pub mod sections;
pub mod source;
pub mod split;
pub mod targets;
pub mod units;
