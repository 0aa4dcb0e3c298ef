//! MOD0 header.

use vstd::prelude::*;

use crate::bytes::{read_u32, u32_of};

verus! {

/// MOD0 magic number: "MOD0" in ASCII.
pub const MOD0_MAGIC: u32 = 0x30444f4d;

/// Size of the MOD0 header.
pub const MOD0_HEADER_SIZE: usize = 0x1C;

/// The MOD0 header embedded in NRO and NSO executables: offsets, relative
/// to the header, of the dynamic section, the BSS, the exception handling
/// frame header and the module object.
#[derive(Debug, Clone, Copy, PartialEq, Eq, Structural)]
pub struct Mod0Header {
    /// Magic number ("MOD0")
    pub magic: u32,
    /// Offset of .dynamic
    pub dynamic_offset: i32,
    /// Offset of the BSS start
    pub bss_start_offset: i32,
    /// Offset of the BSS end
    pub bss_end_offset: i32,
    /// Offset of the .eh_frame_hdr start
    pub eh_frame_hdr_start: i32,
    /// Offset of the .eh_frame_hdr end
    pub eh_frame_hdr_end: i32,
    /// Offset of the module object
    pub module_object_offset: i32,
}

/// The MOD0 header decoded from the first 0x1C bytes.
pub open spec fn mod0_header_at(b: Seq<u8>) -> Mod0Header {
    Mod0Header {
        magic: u32_of(b, 0),
        dynamic_offset: u32_of(b, 4) as i32,
        bss_start_offset: u32_of(b, 8) as i32,
        bss_end_offset: u32_of(b, 12) as i32,
        eh_frame_hdr_start: u32_of(b, 16) as i32,
        eh_frame_hdr_end: u32_of(b, 20) as i32,
        module_object_offset: u32_of(b, 24) as i32,
    }
}

/// Decodes the MOD0 header.
pub fn read_mod0_header(b: &[u8]) -> (r: Mod0Header)
    requires
        b.len() >= MOD0_HEADER_SIZE,
    ensures
        r == mod0_header_at(b@),
{
    Mod0Header {
        magic: read_u32(b, 0),
        dynamic_offset: read_u32(b, 4) as i32,
        bss_start_offset: read_u32(b, 8) as i32,
        bss_end_offset: read_u32(b, 12) as i32,
        eh_frame_hdr_start: read_u32(b, 16) as i32,
        eh_frame_hdr_end: read_u32(b, 20) as i32,
        module_object_offset: read_u32(b, 24) as i32,
    }
}

} // verus!
