//! NRO start, header and asset header.

use vstd::prelude::*;

use crate::bytes::{read_array, read_u32, read_u64, u32_of, u64_of};

verus! {

/// A segment of the NRO header: its file offset and size.
#[derive(Debug, Clone, Copy, PartialEq, Eq, Structural)]
pub struct NroSegment {
    /// File offset of the segment
    pub file_off: u32,
    /// Size of the segment
    pub size: u32,
}

/// The first 0x10 bytes of an NRO: an entry branch and the MOD0 offset.
#[derive(Debug, Clone, Copy)]
pub struct NroStart {
    /// The entry branch
    pub unused: u32,
    /// Offset of the MOD0 header
    pub mod_offset: u32,
    /// Padding
    pub padding: [u8; 8],
}

/// The 0x70-byte NRO header at offset 0x10.
#[derive(Debug, Clone, Copy)]
pub struct NroHeader {
    /// Magic number ("NRO0")
    pub magic: u32,
    /// Format version
    pub version: u32,
    /// Size of the NRO (end of the data segment)
    pub size: u32,
    /// Flags
    pub flags: u32,
    /// The text, rodata and data segments
    pub segments: [NroSegment; 3],
    /// Size of the BSS
    pub bss_size: u32,
    /// Reserved
    pub reserved: u32,
    /// The build ID
    pub build_id: [u8; 0x20],
    /// Reserved
    pub reserved2: [u8; 0x20],
}

/// A section of the asset header: offset from the asset header and size.
#[derive(Debug, Clone, Copy, PartialEq, Eq, Structural)]
pub struct NroAssetSection {
    /// Offset from the start of the asset header
    pub offset: u64,
    /// Size in bytes
    pub size: u64,
}

/// The asset header that follows the NRO image: icon, NACP and RomFS.
#[derive(Debug, Clone, Copy, PartialEq, Eq, Structural)]
pub struct NroAssetHeader {
    /// Magic number ("ASET")
    pub magic: u32,
    /// Format version
    pub version: u32,
    /// The icon
    pub icon: NroAssetSection,
    /// The NACP
    pub nacp: NroAssetSection,
    /// The RomFS
    pub romfs: NroAssetSection,
}

/// The NRO segment decoded at `at`.
pub open spec fn nro_segment_at(b: Seq<u8>, at: int) -> NroSegment {
    NroSegment { file_off: u32_of(b, at), size: u32_of(b, at + 4) }
}

/// The asset section decoded at `at`.
pub open spec fn nro_asset_section_at(b: Seq<u8>, at: int) -> NroAssetSection {
    NroAssetSection { offset: u64_of(b, at), size: u64_of(b, at + 8) }
}

/// The asset header decoded at `at`.
pub open spec fn nro_asset_header_at(b: Seq<u8>, at: int) -> NroAssetHeader {
    NroAssetHeader {
        magic: u32_of(b, at),
        version: u32_of(b, at + 4),
        icon: nro_asset_section_at(b, at + 8),
        nacp: nro_asset_section_at(b, at + 0x18),
        romfs: nro_asset_section_at(b, at + 0x28),
    }
}

fn read_nro_segment(b: &[u8], at: usize) -> (r: NroSegment)
    requires
        at + 8 <= b.len(),
    ensures
        r == nro_segment_at(b@, at as int),
{
    NroSegment { file_off: read_u32(b, at), size: read_u32(b, at + 4) }
}

fn read_nro_asset_section(b: &[u8], at: usize) -> (r: NroAssetSection)
    requires
        at + 0x10 <= b.len(),
    ensures
        r == nro_asset_section_at(b@, at as int),
{
    NroAssetSection { offset: read_u64(b, at), size: read_u64(b, at + 8) }
}

/// Decodes the NRO start from the first 0x10 bytes.
pub fn read_nro_start(b: &[u8]) -> (r: NroStart)
    requires
        b.len() >= 0x10,
    ensures
        r.unused == u32_of(b@, 0),
        r.mod_offset == u32_of(b@, 4),
        r.padding@ == b@.subrange(8, 0x10),
{
    NroStart { unused: read_u32(b, 0), mod_offset: read_u32(b, 4), padding: read_array(b, 8) }
}

/// Decodes the NRO header at offset 0x10.
pub fn read_nro_header(b: &[u8]) -> (r: NroHeader)
    requires
        b.len() >= 0x80,
    ensures
        r.magic == u32_of(b@, 0x10),
        r.version == u32_of(b@, 0x14),
        r.size == u32_of(b@, 0x18),
        r.flags == u32_of(b@, 0x1C),
        r.segments@ == seq![nro_segment_at(b@, 0x20), nro_segment_at(b@, 0x28), nro_segment_at(b@, 0x30)],
        r.bss_size == u32_of(b@, 0x38),
        r.reserved == u32_of(b@, 0x3C),
        r.build_id@ == b@.subrange(0x40, 0x60),
        r.reserved2@ == b@.subrange(0x60, 0x80),
{
    let segments = [read_nro_segment(b, 0x20), read_nro_segment(b, 0x28), read_nro_segment(b, 0x30)];
    assert(segments@ =~= seq![nro_segment_at(b@, 0x20), nro_segment_at(b@, 0x28), nro_segment_at(b@, 0x30)]);
    NroHeader {
        magic: read_u32(b, 0x10),
        version: read_u32(b, 0x14),
        size: read_u32(b, 0x18),
        flags: read_u32(b, 0x1C),
        segments,
        bss_size: read_u32(b, 0x38),
        reserved: read_u32(b, 0x3C),
        build_id: read_array(b, 0x40),
        reserved2: read_array(b, 0x60),
    }
}

/// Decodes the asset header at `at`.
pub fn read_nro_asset_header(b: &[u8], at: usize) -> (r: NroAssetHeader)
    requires
        at + 0x38 <= b.len(),
    ensures
        r == nro_asset_header_at(b@, at as int),
{
    NroAssetHeader {
        magic: read_u32(b, at),
        version: read_u32(b, at + 4),
        icon: read_nro_asset_section(b, at + 8),
        nacp: read_nro_asset_section(b, at + 0x18),
        romfs: read_nro_asset_section(b, at + 0x28),
    }
}

} // verus!
