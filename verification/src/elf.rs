//! ELF parsing for NRO and NSO generation.

pub mod segments;

pub use segments::{ElfSegments, ParseError, SectionInfo};
