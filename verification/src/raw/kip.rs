//! KIP1 header.

use vstd::prelude::*;

use crate::bytes::{read_array, read_u32, read_u64, u32_of, u64_of};

verus! {

/// A KIP1 segment descriptor (text, rodata, data, bss and two unused).
#[derive(Debug, Clone, Copy, PartialEq, Eq, Structural)]
pub struct Kip1Segment {
    /// Destination address in memory
    pub dst_addr: u32,
    /// Decompressed size in bytes
    pub decomp_size: u32,
    /// Compressed size in bytes
    pub comp_size: u32,
    /// Segment attributes (the main thread stack size for rodata)
    pub attributes: u32,
}

/// The 0x100-byte KIP1 header.
#[derive(Debug, Clone, Copy)]
pub struct Kip1Header {
    /// Magic number ("KIP1")
    pub magic: u32,
    /// Process name (12 bytes, zero-terminated)
    pub name: [u8; 12],
    /// Title ID
    pub title_id: u64,
    /// Process category
    pub process_category: u32,
    /// Main thread priority
    pub main_thread_priority: u8,
    /// Default CPU core
    pub default_cpu_id: u8,
    /// Reserved
    pub reserved: u8,
    /// Flags
    pub flags: u8,
    /// The segment descriptors
    pub segments: [Kip1Segment; 6],
    /// Kernel capability descriptors
    pub capabilities: [u8; 0x80],
}

/// The KIP1 segment descriptor decoded at `at`.
pub open spec fn kip1_segment_at(b: Seq<u8>, at: int) -> Kip1Segment {
    Kip1Segment {
        dst_addr: u32_of(b, at),
        decomp_size: u32_of(b, at + 4),
        comp_size: u32_of(b, at + 8),
        attributes: u32_of(b, at + 12),
    }
}

/// Decodes the KIP1 segment descriptor at `at`.
pub fn read_kip1_segment(b: &[u8], at: usize) -> (r: Kip1Segment)
    requires
        at + 0x10 <= b.len(),
    ensures
        r == kip1_segment_at(b@, at as int),
{
    Kip1Segment {
        dst_addr: read_u32(b, at),
        decomp_size: read_u32(b, at + 4),
        comp_size: read_u32(b, at + 8),
        attributes: read_u32(b, at + 12),
    }
}

/// Decodes the KIP1 header from the first 0x100 bytes.
pub fn read_kip1_header(b: &[u8]) -> (r: Kip1Header)
    requires
        b.len() >= 0x100,
    ensures
        r.magic == u32_of(b@, 0),
        r.name@ == b@.subrange(4, 16),
        r.title_id == u64_of(b@, 16),
        r.process_category == u32_of(b@, 24),
        r.main_thread_priority == b@[28],
        r.default_cpu_id == b@[29],
        r.reserved == b@[30],
        r.flags == b@[31],
        r.segments@ == Seq::new(6, |i: int| kip1_segment_at(b@, 0x20 + 0x10 * i)),
        r.capabilities@ == b@.subrange(0x80, 0x100),
{
    let segments = [
        read_kip1_segment(b, 0x20),
        read_kip1_segment(b, 0x30),
        read_kip1_segment(b, 0x40),
        read_kip1_segment(b, 0x50),
        read_kip1_segment(b, 0x60),
        read_kip1_segment(b, 0x70),
    ];
    assert(segments@ =~= Seq::new(6, |i: int| kip1_segment_at(b@, 0x20 + 0x10 * i)));
    Kip1Header {
        magic: read_u32(b, 0),
        name: read_array(b, 4),
        title_id: read_u64(b, 16),
        process_category: read_u32(b, 24),
        main_thread_priority: b[28],
        default_cpu_id: b[29],
        reserved: b[30],
        flags: b[31],
        segments,
        capabilities: read_array(b, 0x80),
    }
}

} // verus!
