//! Reading of GSYM files.

pub mod answers;
pub mod gsym;
pub mod layout;
pub mod lookup;
pub mod owned;
pub mod scan;
pub mod scratch;
pub mod search;
pub mod table;
pub mod verify;

pub use crate::reader::gsym::{FunctionRef, Functions, Gsym, Header, Storage};
pub use crate::reader::lookup::{FrameLookupOptions, LookupOptions};
pub use crate::reader::scratch::LookupScratch;
pub use crate::reader::verify::VerifyReport;
