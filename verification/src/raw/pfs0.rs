//! PFS0 (partition filesystem) header and file entry.

use vstd::prelude::*;

use crate::bytes::{read_u32, read_u64, u32_of, u64_of};

verus! {

/// Size of the PFS0 header.
pub const PFS0_HEADER_SIZE: usize = 0x10;

/// Size of a PFS0 file entry.
pub const PFS0_FILE_ENTRY_SIZE: usize = 0x18;

/// The PFS0 header: magic, number of files, size of the string table.
#[derive(Debug, Clone, Copy, PartialEq, Eq, Structural)]
pub struct Pfs0Header {
    /// Magic number ("PFS0")
    pub magic: u32,
    /// Number of file entries
    pub file_count: u32,
    /// Size of the string table in bytes
    pub string_table_size: u32,
    /// Reserved
    pub reserved: u32,
}

/// A PFS0 file entry: where the file's data lies in the data region, and
/// where its name starts in the string table.
#[derive(Debug, Clone, Copy, PartialEq, Eq, Structural)]
pub struct Pfs0FileEntry {
    /// Offset of the data from the start of the data region
    pub offset: u64,
    /// Size of the data
    pub size: u64,
    /// Offset of the name in the string table
    pub string_table_offset: u32,
    /// Reserved
    pub reserved: u32,
}

/// The PFS0 header decoded from the first 0x10 bytes.
pub open spec fn pfs0_header_at(b: Seq<u8>) -> Pfs0Header {
    Pfs0Header {
        magic: u32_of(b, 0),
        file_count: u32_of(b, 4),
        string_table_size: u32_of(b, 8),
        reserved: u32_of(b, 12),
    }
}

/// The PFS0 file entry decoded at `at`.
pub open spec fn pfs0_file_entry_at(b: Seq<u8>, at: int) -> Pfs0FileEntry {
    Pfs0FileEntry {
        offset: u64_of(b, at),
        size: u64_of(b, at + 8),
        string_table_offset: u32_of(b, at + 16),
        reserved: u32_of(b, at + 20),
    }
}

/// Decodes the PFS0 header.
pub fn read_pfs0_header(b: &[u8]) -> (r: Pfs0Header)
    requires
        b.len() >= PFS0_HEADER_SIZE,
    ensures
        r == pfs0_header_at(b@),
{
    Pfs0Header {
        magic: read_u32(b, 0),
        file_count: read_u32(b, 4),
        string_table_size: read_u32(b, 8),
        reserved: read_u32(b, 12),
    }
}

/// Decodes the PFS0 file entry at `at`.
pub fn read_pfs0_file_entry(b: &[u8], at: usize) -> (r: Pfs0FileEntry)
    requires
        at + PFS0_FILE_ENTRY_SIZE <= b.len(),
    ensures
        r == pfs0_file_entry_at(b@, at as int),
{
    Pfs0FileEntry {
        offset: read_u64(b, at),
        size: read_u64(b, at + 8),
        string_table_offset: read_u32(b, at + 16),
        reserved: read_u32(b, at + 20),
    }
}

} // verus!
