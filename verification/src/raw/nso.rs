//! NSO header.

use vstd::prelude::*;

use crate::bytes::{read_array, read_u32, u32_of};

verus! {

/// Size of the NSO header.
pub const NSO_HEADER_LEN: usize = 0x100;

/// A segment header: where the segment lies in the file and in memory, and
/// its decompressed size.
#[derive(Debug, Clone, Copy, PartialEq, Eq, Structural)]
pub struct NsoSegmentHeader {
    /// Offset of the segment data in the file
    pub file_offset: u32,
    /// Offset of the segment in memory
    pub memory_offset: u32,
    /// Size of the segment after decompression
    pub size: u32,
}

/// The NSO header (0x100 bytes).
#[derive(Debug, Clone, Copy, PartialEq, Eq)]
pub struct NsoHeader {
    /// Magic number ("NSO0")
    pub magic: u32,
    /// Format version
    pub version: u32,
    /// Flags (compression and hash checks)
    pub flags: u32,
    /// Text segment header
    pub text: NsoSegmentHeader,
    /// Offset of the module name
    pub module_name_offset: u32,
    /// Rodata segment header
    pub rodata: NsoSegmentHeader,
    /// Length of the module name
    pub module_name_size: u32,
    /// Data segment header
    pub data: NsoSegmentHeader,
    /// BSS size in bytes
    pub bss_size: u32,
    /// Module ID (build ID)
    pub module_id: [u8; 32],
    /// Size of the text segment in the file
    pub text_file_size: u32,
    /// Size of the rodata segment in the file
    pub rodata_file_size: u32,
    /// Size of the data segment in the file
    pub data_file_size: u32,
    /// Offset of the embedded data (from rodata)
    pub embedded_offset: u32,
    /// Size of the embedded data
    pub embedded_size: u32,
    /// Offset of .dynstr (from rodata)
    pub dynstr_offset: u32,
    /// Size of .dynstr
    pub dynstr_size: u32,
    /// Offset of .dynsym (from rodata)
    pub dynsym_offset: u32,
    /// Size of .dynsym
    pub dynsym_size: u32,
    /// SHA-256 of the decompressed text segment
    pub text_hash: [u8; 32],
    /// SHA-256 of the decompressed rodata segment
    pub rodata_hash: [u8; 32],
    /// SHA-256 of the decompressed data segment
    pub data_hash: [u8; 32],
}

/// The 32-byte array holding `s`.
pub open spec fn array32_of(s: Seq<u8>) -> [u8; 32] {
    choose|a: [u8; 32]| a@ == s
}

/// The segment header decoded at `at`.
pub open spec fn segment_header_at(b: Seq<u8>, at: int) -> NsoSegmentHeader {
    NsoSegmentHeader {
        file_offset: u32_of(b, at),
        memory_offset: u32_of(b, at + 4),
        size: u32_of(b, at + 8),
    }
}

/// The NSO header decoded from the first 0x100 bytes.
#[verifier::opaque]
pub open spec fn nso_header_at(b: Seq<u8>) -> NsoHeader {
    NsoHeader {
        magic: u32_of(b, 0),
        version: u32_of(b, 4),
        flags: u32_of(b, 0xC),
        text: segment_header_at(b, 0x10),
        module_name_offset: u32_of(b, 0x1C),
        rodata: segment_header_at(b, 0x20),
        module_name_size: u32_of(b, 0x2C),
        data: segment_header_at(b, 0x30),
        bss_size: u32_of(b, 0x3C),
        module_id: array32_of(b.subrange(0x40, 0x60)),
        text_file_size: u32_of(b, 0x60),
        rodata_file_size: u32_of(b, 0x64),
        data_file_size: u32_of(b, 0x68),
        embedded_offset: u32_of(b, 0x88),
        embedded_size: u32_of(b, 0x8C),
        dynstr_offset: u32_of(b, 0x90),
        dynstr_size: u32_of(b, 0x94),
        dynsym_offset: u32_of(b, 0x98),
        dynsym_size: u32_of(b, 0x9C),
        text_hash: array32_of(b.subrange(0xA0, 0xC0)),
        rodata_hash: array32_of(b.subrange(0xC0, 0xE0)),
        data_hash: array32_of(b.subrange(0xE0, 0x100)),
    }
}

/// The words of the decoded header, each read at its offset.
pub proof fn lemma_nso_header_at_words(b: Seq<u8>)
    ensures
        nso_header_at(b).magic == u32_of(b, 0),
        nso_header_at(b).flags == u32_of(b, 0xC),
        nso_header_at(b).text == segment_header_at(b, 0x10),
        nso_header_at(b).rodata == segment_header_at(b, 0x20),
        nso_header_at(b).data == segment_header_at(b, 0x30),
        nso_header_at(b).bss_size == u32_of(b, 0x3C),
        nso_header_at(b).text_file_size == u32_of(b, 0x60),
        nso_header_at(b).rodata_file_size == u32_of(b, 0x64),
        nso_header_at(b).data_file_size == u32_of(b, 0x68),
{
    reveal(nso_header_at);
}

/// Decodes the segment header at `at`.
fn read_segment_header(b: &[u8], at: usize) -> (r: NsoSegmentHeader)
    requires
        at + 12 <= b.len(),
    ensures
        r == segment_header_at(b@, at as int),
{
    NsoSegmentHeader {
        file_offset: read_u32(b, at),
        memory_offset: read_u32(b, at + 4),
        size: read_u32(b, at + 8),
    }
}

/// A 32-byte array read at `at`, equal to the one the header decoding names.
fn read_array32(b: &[u8], at: usize) -> (r: [u8; 32])
    requires
        at + 32 <= b.len(),
    ensures
        r == array32_of(b@.subrange(at as int, at + 32)),
{
    let a: [u8; 32] = read_array(b, at);
    proof {
        let c = array32_of(b@.subrange(at as int, at + 32));
        assert(c@ == a@);
        assert(c =~= a);
    }
    a
}

/// Decodes the NSO header.
pub fn read_nso_header(b: &[u8]) -> (r: NsoHeader)
    requires
        b.len() >= NSO_HEADER_LEN,
    ensures
        r == nso_header_at(b@),
{
    reveal(nso_header_at);
    NsoHeader {
        magic: read_u32(b, 0),
        version: read_u32(b, 4),
        flags: read_u32(b, 0xC),
        text: read_segment_header(b, 0x10),
        module_name_offset: read_u32(b, 0x1C),
        rodata: read_segment_header(b, 0x20),
        module_name_size: read_u32(b, 0x2C),
        data: read_segment_header(b, 0x30),
        bss_size: read_u32(b, 0x3C),
        module_id: read_array32(b, 0x40),
        text_file_size: read_u32(b, 0x60),
        rodata_file_size: read_u32(b, 0x64),
        data_file_size: read_u32(b, 0x68),
        embedded_offset: read_u32(b, 0x88),
        embedded_size: read_u32(b, 0x8C),
        dynstr_offset: read_u32(b, 0x90),
        dynstr_size: read_u32(b, 0x94),
        dynsym_offset: read_u32(b, 0x98),
        dynsym_size: read_u32(b, 0x9C),
        text_hash: read_array32(b, 0xA0),
        rodata_hash: read_array32(b, 0xC0),
        data_hash: read_array32(b, 0xE0),
    }
}

} // verus!
