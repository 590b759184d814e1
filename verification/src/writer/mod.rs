//! Writing of GSYM files.

pub mod content;
pub mod encode;
pub mod finalize;
pub mod fit;
pub mod image;
pub mod insertion;
pub mod mangled;
pub mod named;
pub mod options;
pub mod ordering;
pub mod read_back;
pub mod resolve;
pub mod richest;
pub mod round_trip;
pub mod semantic;
pub mod settled;
pub mod sound;
pub mod strings;
pub mod tables;
