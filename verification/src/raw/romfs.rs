//! RomFS header and metadata table entries.

use vstd::prelude::*;

use crate::bytes::{read_u32, read_u64, u32_of, u64_of};

verus! {

/// Size of the RomFS header.
pub const ROMFS_HEADER_SIZE: usize = 0x50;

/// Size of a directory entry before its name.
pub const ROMFS_DIR_ENTRY_SIZE: usize = 0x18;

/// Size of a file entry before its name.
pub const ROMFS_FILE_ENTRY_SIZE: usize = 0x20;

/// The RomFS header (0x50 bytes): offsets and sizes of the hash tables,
/// metadata tables and file data.
#[derive(Debug, Clone, Copy, PartialEq, Eq, Structural)]
pub struct RomFsHeader {
    /// Size of this header (always 0x50)
    pub header_size: u64,
    /// Offset of the directory hash table
    pub dir_hash_table_offset: u64,
    /// Size of the directory hash table
    pub dir_hash_table_size: u64,
    /// Offset of the directory metadata table
    pub dir_meta_table_offset: u64,
    /// Size of the directory metadata table
    pub dir_meta_table_size: u64,
    /// Offset of the file hash table
    pub file_hash_table_offset: u64,
    /// Size of the file hash table
    pub file_hash_table_size: u64,
    /// Offset of the file metadata table
    pub file_meta_table_offset: u64,
    /// Size of the file metadata table
    pub file_meta_table_size: u64,
    /// Offset of the file data region
    pub file_data_offset: u64,
}

/// A directory entry (0x18 bytes, then the name).
#[derive(Debug, Clone, Copy, PartialEq, Eq, Structural)]
pub struct RomFsDirEntry {
    /// Offset of the parent directory
    pub parent_offset: u32,
    /// Offset of the next sibling directory (`u32::MAX` if none)
    pub sibling_offset: u32,
    /// Offset of the first child directory (`u32::MAX` if none)
    pub child_offset: u32,
    /// Offset of the first file (`u32::MAX` if none)
    pub file_offset: u32,
    /// Offset of the next entry in the hash bucket (`u32::MAX` if none)
    pub hash_sibling_offset: u32,
    /// Length of the name in bytes
    pub name_len: u32,
}

/// A file entry (0x20 bytes, then the name).
#[derive(Debug, Clone, Copy, PartialEq, Eq, Structural)]
pub struct RomFsFileEntry {
    /// Offset of the parent directory
    pub parent_offset: u32,
    /// Offset of the next sibling file (`u32::MAX` if none)
    pub sibling_offset: u32,
    /// Offset of the data in the file data region
    pub data_offset: u64,
    /// Size of the data in bytes
    pub data_size: u64,
    /// Offset of the next entry in the hash bucket (`u32::MAX` if none)
    pub hash_sibling_offset: u32,
    /// Length of the name in bytes
    pub name_len: u32,
}

/// The header decoded from the first 0x50 bytes.
#[verifier::opaque]
pub open spec fn romfs_header_at(b: Seq<u8>) -> RomFsHeader {
    RomFsHeader {
        header_size: u64_of(b, 0),
        dir_hash_table_offset: u64_of(b, 0x08),
        dir_hash_table_size: u64_of(b, 0x10),
        dir_meta_table_offset: u64_of(b, 0x18),
        dir_meta_table_size: u64_of(b, 0x20),
        file_hash_table_offset: u64_of(b, 0x28),
        file_hash_table_size: u64_of(b, 0x30),
        file_meta_table_offset: u64_of(b, 0x38),
        file_meta_table_size: u64_of(b, 0x40),
        file_data_offset: u64_of(b, 0x48),
    }
}

/// The directory entry decoded at `at`.
#[verifier::opaque]
pub open spec fn dir_entry_at(b: Seq<u8>, at: int) -> RomFsDirEntry {
    RomFsDirEntry {
        parent_offset: u32_of(b, at),
        sibling_offset: u32_of(b, at + 4),
        child_offset: u32_of(b, at + 8),
        file_offset: u32_of(b, at + 12),
        hash_sibling_offset: u32_of(b, at + 16),
        name_len: u32_of(b, at + 20),
    }
}

/// The file entry decoded at `at`.
#[verifier::opaque]
pub open spec fn file_entry_at(b: Seq<u8>, at: int) -> RomFsFileEntry {
    RomFsFileEntry {
        parent_offset: u32_of(b, at),
        sibling_offset: u32_of(b, at + 4),
        data_offset: u64_of(b, at + 8),
        data_size: u64_of(b, at + 16),
        hash_sibling_offset: u32_of(b, at + 24),
        name_len: u32_of(b, at + 28),
    }
}

/// Decodes the header.
pub fn read_romfs_header(b: &[u8]) -> (r: RomFsHeader)
    requires
        b@.len() >= ROMFS_HEADER_SIZE,
    ensures
        r == romfs_header_at(b@),
{
    reveal(romfs_header_at);
    RomFsHeader {
        header_size: read_u64(b, 0),
        dir_hash_table_offset: read_u64(b, 0x08),
        dir_hash_table_size: read_u64(b, 0x10),
        dir_meta_table_offset: read_u64(b, 0x18),
        dir_meta_table_size: read_u64(b, 0x20),
        file_hash_table_offset: read_u64(b, 0x28),
        file_hash_table_size: read_u64(b, 0x30),
        file_meta_table_offset: read_u64(b, 0x38),
        file_meta_table_size: read_u64(b, 0x40),
        file_data_offset: read_u64(b, 0x48),
    }
}

/// Decodes the directory entry at `at`.
pub fn read_dir_entry(b: &[u8], at: usize) -> (r: RomFsDirEntry)
    requires
        at + ROMFS_DIR_ENTRY_SIZE <= b.len(),
    ensures
        r == dir_entry_at(b@, at as int),
{
    reveal(dir_entry_at);
    RomFsDirEntry {
        parent_offset: read_u32(b, at),
        sibling_offset: read_u32(b, at + 4),
        child_offset: read_u32(b, at + 8),
        file_offset: read_u32(b, at + 12),
        hash_sibling_offset: read_u32(b, at + 16),
        name_len: read_u32(b, at + 20),
    }
}

/// Decodes the file entry at `at`.
pub fn read_file_entry(b: &[u8], at: usize) -> (r: RomFsFileEntry)
    requires
        at + ROMFS_FILE_ENTRY_SIZE <= b.len(),
    ensures
        r == file_entry_at(b@, at as int),
{
    reveal(file_entry_at);
    RomFsFileEntry {
        parent_offset: read_u32(b, at),
        sibling_offset: read_u32(b, at + 4),
        data_offset: read_u64(b, at + 8),
        data_size: read_u64(b, at + 16),
        hash_sibling_offset: read_u32(b, at + 24),
        name_len: read_u32(b, at + 28),
    }
}


/// The decoded header, word by word.
pub proof fn lemma_romfs_header_at_words(b: Seq<u8>)
    ensures
        romfs_header_at(b) == (RomFsHeader {
            header_size: u64_of(b, 0),
            dir_hash_table_offset: u64_of(b, 0x08),
            dir_hash_table_size: u64_of(b, 0x10),
            dir_meta_table_offset: u64_of(b, 0x18),
            dir_meta_table_size: u64_of(b, 0x20),
            file_hash_table_offset: u64_of(b, 0x28),
            file_hash_table_size: u64_of(b, 0x30),
            file_meta_table_offset: u64_of(b, 0x38),
            file_meta_table_size: u64_of(b, 0x40),
            file_data_offset: u64_of(b, 0x48),
        }),
{
    reveal(romfs_header_at);
}

} // verus!
