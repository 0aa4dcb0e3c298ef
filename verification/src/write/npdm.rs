//! NPDM (Nintendo Program Description Metadata) builder.
//!
//! An NPDM file consists of three sections:
//! - META header: basic program information (name, version, thread config)
//! - ACID: access control info descriptor (signed permissions; empty for
//!   homebrew)
//! - ACI0: access control info (runtime permissions: filesystem, services,
//!   kernel capabilities)

use vstd::prelude::*;

use crate::bytes::{
    align_up_16, le32, le64, lemma_u64_appended, lemma_word_appended, lemma_words_kept,
    lemma_words_shifted, push4, push_all, push_prefix, push_u32, push_u64, push_zeros, round_up,
    u32_of, u64_of, zeros,
};
use crate::raw::npdm::{
    aci0_header_at, acid_header_at, lemma_aci0_header_at_words, lemma_acid_header_at_words,
    lemma_npdm_header_at_words, npdm_header_at,
};
use crate::read::npdm::{aci0_section, npdm_aci0, npdm_acid, npdm_error, npdm_meta};
use crate::write::kip::{le32_all, len32};

verus! {

/// META magic number: "META" in ASCII.
pub const META_MAGIC: u32 = 0x4154454d;

/// ACID magic number: "ACID" in ASCII.
pub const ACID_MAGIC: u32 = 0x44494341;

/// ACI0 magic number: "ACI0" in ASCII.
pub const ACI0_MAGIC: u32 = 0x30494341;

/// Size of the META header.
pub const META_HEADER_SIZE: u32 = 0x80;

/// Size of the ACID header.
pub const ACID_HEADER_SIZE: u32 = 0x240;

/// Size of the ACI0 header.
pub const ACI0_HEADER_SIZE: u32 = 0x40;

/// Memory region descriptor of a MapRegion kernel capability.
#[derive(Debug, Clone, PartialEq, Eq)]
pub struct MapRegionDescriptor {
    /// Region type (6-bit value)
    pub region_type: u8,
    /// Read-only flag
    pub is_ro: bool,
}

/// Kernel capability descriptor.
///
/// Each capability type encodes kernel permissions in a bit-field format whose
/// trailing run of 1-bits identifies the type.
#[derive(Debug, Clone, PartialEq)]
pub enum KernelCapability {
    /// Thread priority range and CPU affinity range (trailer `0b111`).
    KernelFlags {
        /// Highest allowed thread priority (0-63, higher = lower priority)
        highest_thread_priority: u8,
        /// Lowest allowed thread priority (0-63)
        lowest_thread_priority: u8,
        /// Highest allowed CPU core ID
        highest_cpu_id: u8,
        /// Lowest allowed CPU core ID
        lowest_cpu_id: u8,
    },
    /// Allowed system calls, as `(name, number)` pairs; a name given twice
    /// counts once, with its last number (trailer `0b1111`, one descriptor
    /// per group of 24 syscall numbers).
    Syscalls(Vec<(String, u64)>),
    /// Memory region mapping with permissions (trailer `0b11_1111`, two
    /// descriptors).
    MemoryMap {
        /// Physical address to map
        address: u64,
        /// Size of the mapping in bytes
        size: u64,
        /// Read-only flag
        is_ro: bool,
        /// I/O flag (device memory vs normal memory)
        is_io: bool,
    },
    /// Single page mapping (trailer `0b111_1111`).
    MapPage(u64),
    /// Up to three region mappings (trailer `0b11_1111_1111`).
    MapRegion(Vec<MapRegionDescriptor>),
    /// Two allowed IRQ numbers (trailer `0b111_1111_1111`).
    IrqPair([u16; 2]),
    /// Application type (trailer `0b1_1111_1111_1111`).
    ApplicationType(u16),
    /// Minimum kernel version (trailer `0b11_1111_1111_1111`).
    MinKernelVersion(u64),
    /// Handle table size (trailer `0b111_1111_1111_1111`).
    HandleTableSize(u16),
    /// Debug flags (trailer `0b1111_1111_1111_1111`); at most one should be set.
    DebugFlags {
        /// Allow debugging this process (bit 17)
        allow_debug: bool,
        /// Force production debugging mode (bit 18)
        force_debug_prod: bool,
        /// Force debugging this process (bit 19)
        force_debug: bool,
    },
}

/// 1 for a set flag, 0 otherwise.
pub open spec fn bit(b: bool) -> int {
    if b {
        1
    } else {
        0
    }
}

/// Whether no later pair of `s` has the name of pair `i`: of pairs sharing a
/// name the last one stands, as in a map from names to numbers.
pub open spec fn syscall_kept(s: Seq<(String, u64)>, i: int) -> bool {
    forall|j: int| i < j < s.len() ==> (#[trigger] s[j]).0@ != s[i].0@
}

/// The numbers of the pairs of `s` from `i` on that stand, in order.
pub open spec fn syscall_ids_from(s: Seq<(String, u64)>, i: int) -> Seq<u64>
    decreases s.len() - i,
{
    if i < 0 || i >= s.len() {
        Seq::empty()
    } else {
        (if syscall_kept(s, i) {
            seq![s[i].1]
        } else {
            Seq::empty()
        }) + syscall_ids_from(s, i + 1)
    }
}

/// The syscall numbers of a list of `(name, number)` pairs, each name
/// counted once with its last number.
pub open spec fn syscall_ids(syscalls: Seq<(String, u64)>) -> Seq<u64> {
    syscall_ids_from(syscalls, 0)
}

/// Whether two strings are equal.
fn same_string(a: &String, b: &String) -> (r: bool)
    ensures
        r == (a@ == b@),
{
    let r = crate::bytes::bytes_eq(a.as_str().as_bytes(), b.as_str().as_bytes());
    proof {
        vstd::utf8::encode_utf8_decode_utf8(a@);
        vstd::utf8::encode_utf8_decode_utf8(b@);
    }
    r
}

/// The numbers of the pairs that stand: [`syscall_ids`].
fn kept_syscall_ids(s: &Vec<(String, u64)>) -> (r: Vec<u64>)
    ensures
        r@ == syscall_ids(s@),
{
    let n = s.len();
    let mut out: Vec<u64> = Vec::new();
    let mut i: usize = 0;
    while i < n
        invariant
            n == s@.len(),
            i <= n,
            syscall_ids(s@) == out@ + syscall_ids_from(s@, i as int),
        decreases n - i,
    {
        let mut kept = true;
        let mut j: usize = i + 1;
        while j < n
            invariant
                n == s@.len(),
                i < n,
                i + 1 <= j <= n,
                kept == (forall|k: int| i < k < j ==> (#[trigger] s@[k]).0@ != s@[i as int].0@),
            decreases n - j,
        {
            if same_string(&s[j].0, &s[i].0) {
                kept = false;
            }
            j = j + 1;
        }
        assert(kept == syscall_kept(s@, i as int));
        let ghost before = out@;
        if kept {
            out.push(s[i].1);
        }
        assert(syscall_ids_from(s@, i as int) == (if syscall_kept(s@, i as int) {
            seq![s@[i as int].1]
        } else {
            Seq::empty()
        }) + syscall_ids_from(s@, i + 1));
        assert(syscall_ids(s@) =~= out@ + syscall_ids_from(s@, i + 1));
        i = i + 1;
    }
    assert(syscall_ids_from(s@, n as int) =~= Seq::<u64>::empty());
    assert(out@ + Seq::<u64>::empty() =~= out@);
    out
}

/// The syscall mask descriptor of group `idx`: its index in bits 29-31, the
/// bit `id % 24 + 5` set for every number `id` in the group, trailer `0b1111`.
pub open spec fn syscall_mask(ids: Seq<u64>, idx: int) -> u32
    decreases ids.len(),
{
    if ids.len() == 0 {
        (0xF + idx * 0x2000_0000) as u32
    } else {
        let m = syscall_mask(ids.drop_last(), idx);
        let id = ids.last();
        if id / 24 == idx {
            m | (1u32 << ((id % 24) + 5) as u32)
        } else {
            m
        }
    }
}

/// Whether some number falls in group `idx`.
pub open spec fn syscall_group_used(ids: Seq<u64>, idx: int) -> bool {
    exists|i: int| #![trigger ids[i]] 0 <= i < ids.len() && ids[i] / 24 == idx
}

/// The mask descriptors of the used groups from `idx` up to 7, in order.
pub open spec fn syscall_masks_from(ids: Seq<u64>, idx: int) -> Seq<u32>
    decreases 8 - idx,
{
    if idx >= 8 || idx < 0 {
        Seq::empty()
    } else {
        (if syscall_group_used(ids, idx) {
            seq![syscall_mask(ids, idx)]
        } else {
            Seq::empty()
        }) + syscall_masks_from(ids, idx + 1)
    }
}

/// A region descriptor: its type in the low six bits and the read-only flag
/// in bit 6.
pub open spec fn region_desc(r: MapRegionDescriptor) -> u32 {
    ((r.region_type % 64) + 64 * bit(r.is_ro)) as u32
}

/// The MapRegion descriptor over the first `k` regions: region `i` in bits
/// `11 + 7i ..`, trailer `0b11_1111_1111`.
pub open spec fn map_region_bits(rs: Seq<MapRegionDescriptor>, k: int) -> u32
    decreases k,
{
    if k <= 0 {
        0x3FF
    } else {
        map_region_bits(rs, k - 1) | (region_desc(rs[k - 1]) << (11 + 7 * (k - 1)) as u32)
    }
}

/// The descriptors a kernel capability encodes to.
pub open spec fn encode_spec(cap: KernelCapability) -> Seq<u32> {
    match cap {
        KernelCapability::KernelFlags {
            highest_thread_priority,
            lowest_thread_priority,
            highest_cpu_id,
            lowest_cpu_id,
        } => seq![
            (0b111 + 0x10 * (lowest_thread_priority % 64) + 0x400 * (highest_thread_priority % 64)
                + 0x1_0000 * lowest_cpu_id + 0x100_0000 * highest_cpu_id) as u32,
        ],
        KernelCapability::Syscalls(syscalls) => syscall_masks_from(syscall_ids(syscalls@), 0),
        KernelCapability::MemoryMap { address, size, is_ro, is_io } => seq![
            (0x3F + 0x80 * (address % 0x100_0000) + 0x8000_0000 * bit(is_ro)) as u32,
            (0x3F + 0x80 * (size % 0x10_0000) + 0x800_0000 * ((address / 0x100_0000) % 16)
                + 0x8000_0000 * bit(!is_io)) as u32,
        ],
        KernelCapability::MapPage(page) => seq![(0x7F + 0x100 * (page % 0x100_0000)) as u32],
        KernelCapability::MapRegion(regions) => seq![
            map_region_bits(regions@, if regions@.len() < 3 { regions@.len() as int } else { 3 }),
        ],
        KernelCapability::IrqPair(irq) => seq![
            (0x7FF + 0x1000 * (irq@[0] % 0x400) + 0x40_0000 * (irq@[1] % 0x400)) as u32,
        ],
        KernelCapability::ApplicationType(t) => seq![(0x1FFF + 0x4000 * (t % 8)) as u32],
        KernelCapability::MinKernelVersion(v) => seq![
            (0x3FFF + 0x8000 * (v % 0x2_0000)) as u32,
        ],
        KernelCapability::HandleTableSize(n) => seq![(0x7FFF + 0x1_0000 * (n % 0x400)) as u32],
        KernelCapability::DebugFlags { allow_debug, force_debug_prod, force_debug } => seq![
            (0xFFFF + 0x2_0000 * bit(allow_debug) + 0x4_0000 * bit(force_debug_prod) + 0x8_0000
                * bit(force_debug)) as u32,
        ],
    }
}

/// The trailer of a kernel capability's descriptors: the number of low one
/// bits, followed by a zero bit, that mark the kind.
pub open spec fn capability_trailer(cap: KernelCapability) -> nat {
    match cap {
        KernelCapability::KernelFlags { .. } => 3,
        KernelCapability::Syscalls(_) => 4,
        KernelCapability::MemoryMap { .. } => 6,
        KernelCapability::MapPage(_) => 7,
        KernelCapability::MapRegion(_) => 10,
        KernelCapability::IrqPair(_) => 11,
        KernelCapability::ApplicationType(_) => 13,
        KernelCapability::MinKernelVersion(_) => 14,
        KernelCapability::HandleTableSize(_) => 15,
        KernelCapability::DebugFlags { .. } => 16,
    }
}

/// Two to the power of one more than the trailer of `cap`: the low bits a
/// descriptor's trailer and the zero bit above it occupy.
pub open spec fn trailer_modulus(cap: KernelCapability) -> int {
    match cap {
        KernelCapability::KernelFlags { .. } => 0x10,
        KernelCapability::Syscalls(_) => 0x20,
        KernelCapability::MemoryMap { .. } => 0x80,
        KernelCapability::MapPage(_) => 0x100,
        KernelCapability::MapRegion(_) => 0x800,
        KernelCapability::IrqPair(_) => 0x1000,
        KernelCapability::ApplicationType(_) => 0x4000,
        KernelCapability::MinKernelVersion(_) => 0x8000,
        KernelCapability::HandleTableSize(_) => 0x1_0000,
        KernelCapability::DebugFlags { .. } => 0x2_0000,
    }
}

/// Setting a bit at 5 or above keeps the low five bits of a word.
proof fn lemma_or_high_bit_keeps_low5(m: u32, k: u32)
    requires
        5 <= k < 32,
    ensures
        (m | (1u32 << k)) % 32 == m % 32,
{
    assert((m | (1u32 << k)) % 32 == m % 32) by (bit_vector)
        requires
            5 <= k < 32,
    ;
}

/// Or-ing in a value shifted by 11 or more keeps the low eleven bits.
proof fn lemma_or_shifted_keeps_low11(m: u32, d: u32, k: u32)
    requires
        11 <= k < 32,
    ensures
        (m | (d << k)) % 2048 == m % 2048,
{
    assert((m | (d << k)) % 2048 == m % 2048) by (bit_vector)
        requires
            11 <= k < 32,
    ;
}

/// Every syscall mask of a group below 8 ends in the `0b1111` trailer.
proof fn lemma_syscall_mask_trailer(ids: Seq<u64>, idx: int)
    requires
        0 <= idx < 8,
    ensures
        syscall_mask(ids, idx) % 32 == 15,
    decreases ids.len(),
{
    if ids.len() == 0 {
        assert((0xF + idx * 0x2000_0000) % 32 == 15) by (nonlinear_arith)
            requires
                0 <= idx < 8,
        ;
    } else {
        lemma_syscall_mask_trailer(ids.drop_last(), idx);
        let id = ids.last();
        if id / 24 == idx {
            lemma_or_high_bit_keeps_low5(syscall_mask(ids.drop_last(), idx), ((id % 24) + 5) as u32);
        }
    }
}

/// Every MapRegion descriptor ends in the `0b11_1111_1111` trailer.
proof fn lemma_map_region_trailer(rs: Seq<MapRegionDescriptor>, k: int)
    requires
        k <= 3,
    ensures
        map_region_bits(rs, k) % 2048 == 0x3FF,
    decreases k,
{
    if k > 0 {
        lemma_map_region_trailer(rs, k - 1);
        lemma_or_shifted_keeps_low11(map_region_bits(rs, k - 1), region_desc(rs[k - 1]), (11 + 7 * (k - 1)) as u32);
    }
}

/// The syscall descriptors are at most one per group of 24 numbers, each
/// ending in the trailer.
proof fn lemma_syscall_masks_trailer(ids: Seq<u64>, idx: int)
    requires
        0 <= idx,
    ensures
        syscall_masks_from(ids, idx).len() <= 8 - idx || idx >= 8,
        forall|i: int| 0 <= i < syscall_masks_from(ids, idx).len() ==> #[trigger] syscall_masks_from(ids, idx)[i] % 32 == 15,
    decreases 8 - idx,
{
    if idx < 8 {
        lemma_syscall_masks_trailer(ids, idx + 1);
        lemma_syscall_mask_trailer(ids, idx);
        let head = if syscall_group_used(ids, idx) {
            seq![syscall_mask(ids, idx)]
        } else {
            Seq::<u32>::empty()
        };
        let tail = syscall_masks_from(ids, idx + 1);
        assert forall|i: int| 0 <= i < (head + tail).len() implies #[trigger] (head + tail)[i] % 32 == 15 by {
            if i >= head.len() {
                assert((head + tail)[i] == tail[i - head.len()]);
            }
        }
    }
}

/// Every descriptor a kernel capability encodes to carries the trailer of
/// its kind: as many low one bits as [`capability_trailer`] gives, then a
/// zero bit (its value modulo [`trailer_modulus`] is half that modulus less
/// one). A capability encodes to one descriptor, two for a memory map,
/// and for syscalls one per group of 24 numbers in use, at most eight.
pub proof fn lemma_encode_trailer(cap: KernelCapability)
    ensures
        forall|i: int|
            0 <= i < encode_spec(cap).len() ==> #[trigger] encode_spec(cap)[i] as int % trailer_modulus(cap)
                == trailer_modulus(cap) / 2 - 1,
        cap is Syscalls ==> encode_spec(cap).len() <= 8,
        cap is MemoryMap ==> encode_spec(cap).len() == 2,
        !(cap is Syscalls) && !(cap is MemoryMap) ==> encode_spec(cap).len() == 1,
{
    match cap {
        KernelCapability::KernelFlags { highest_thread_priority, lowest_thread_priority, highest_cpu_id, lowest_cpu_id } => {
            let a = lowest_thread_priority % 64;
            let b = highest_thread_priority % 64;
            assert((7 + 0x10 * a + 0x400 * b + 0x1_0000 * lowest_cpu_id + 0x100_0000 * highest_cpu_id) % 16 == 7) by (nonlinear_arith);
        },
        KernelCapability::Syscalls(syscalls) => {
            lemma_syscall_masks_trailer(syscall_ids(syscalls@), 0);
        },
        KernelCapability::MemoryMap { address, size, is_ro, is_io } => {
            assert((0x3F + 0x80 * (address % 0x100_0000) + 0x8000_0000 * bit(is_ro)) % 128 == 63) by (nonlinear_arith);
            assert((0x3F + 0x80 * (size % 0x10_0000) + 0x800_0000 * ((address / 0x100_0000) % 16)
                + 0x8000_0000 * bit(!is_io)) % 128 == 63) by (nonlinear_arith);
        },
        KernelCapability::MapPage(page) => {
            assert((0x7F + 0x100 * (page % 0x100_0000)) % 256 == 127) by (nonlinear_arith);
        },
        KernelCapability::MapRegion(regions) => {
            lemma_map_region_trailer(regions@, if regions@.len() < 3 { regions@.len() as int } else { 3 });
        },
        KernelCapability::IrqPair(irq) => {
            assert((0x7FF + 0x1000 * (irq@[0] % 0x400) + 0x40_0000 * (irq@[1] % 0x400)) % 4096 == 2047) by (nonlinear_arith);
        },
        KernelCapability::ApplicationType(t) => {
            assert((0x1FFF + 0x4000 * (t % 8)) % 0x4000 == 0x1FFF) by (nonlinear_arith);
        },
        KernelCapability::MinKernelVersion(v) => {
            assert((0x3FFF + 0x8000 * (v % 0x2_0000)) % 0x8000 == 0x3FFF) by (nonlinear_arith);
        },
        KernelCapability::HandleTableSize(n) => {
            assert((0x7FFF + 0x1_0000 * (n % 0x400)) % 0x1_0000 == 0x7FFF) by (nonlinear_arith);
        },
        KernelCapability::DebugFlags { allow_debug, force_debug_prod, force_debug } => {
            assert((0xFFFF + 0x2_0000 * bit(allow_debug) + 0x4_0000 * bit(force_debug_prod) + 0x8_0000 * bit(force_debug))
                % 0x2_0000 == 0xFFFF) by (nonlinear_arith);
        },
    }
}

/// Whether the number `n` is among `ids`.
pub open spec fn syscall_in(ids: Seq<u64>, n: int) -> bool {
    exists|i: int| 0 <= i < ids.len() && ids[i] == n
}

/// The first mask of a group, before any number is or-ed in.
proof fn lemma_mask_base_bits(g: u32, k: u32)
    requires
        g < 8,
        k < 24,
    ensures
        (((0xF + g * 0x2000_0000) as u32 >> (5 + k) as u32) & 1) == 0,
        ((0xF + g * 0x2000_0000) as u32) >> 29u32 == g,
{
    assert((((0xF + g * 0x2000_0000) as u32 >> (5 + k) as u32) & 1) == 0) by (bit_vector)
        requires
            g < 8,
            k < 24,
    ;
    assert(((0xF + g * 0x2000_0000) as u32) >> 29u32 == g) by (bit_vector)
        requires
            g < 8,
    ;
}

/// Or-ing in bit `j + 5` sets that bit, keeps the others and the group.
proof fn lemma_mask_or_bits(m: u32, j: u32, k: u32)
    requires
        j < 24,
        k < 24,
    ensures
        ((((m | (1u32 << (j + 5) as u32)) >> (5 + k) as u32) & 1) == 1) == ((((m >> (5 + k) as u32)
            & 1) == 1) || j == k),
        (m | (1u32 << (j + 5) as u32)) >> 29u32 == m >> 29u32,
{
    assert(((((m | (1u32 << (j + 5) as u32)) >> (5 + k) as u32) & 1) == 1) == ((((m >> (5 + k) as u32)
        & 1) == 1) || j == k)) by (bit_vector)
        requires
            j < 24,
            k < 24,
    ;
    assert((m | (1u32 << (j + 5) as u32)) >> 29u32 == m >> 29u32) by (bit_vector)
        requires
            j < 24,
    ;
}

/// The mask of group `g` holds `g` in its top three bits and bit `k + 5`
/// exactly when `24 g + k` is among the numbers.
#[verifier::spinoff_prover]
proof fn lemma_syscall_mask_bits(ids: Seq<u64>, g: int)
    requires
        0 <= g < 8,
    ensures
        syscall_mask(ids, g) >> 29u32 == g,
        forall|k: u32|
            k < 24 ==> (((#[trigger] (syscall_mask(ids, g) >> (5 + k) as u32)) & 1) == 1) == syscall_in(
                ids,
                24 * g + k,
            ),
    decreases ids.len(),
{
    if ids.len() == 0 {
        assert forall|k: u32| k < 24 implies (((#[trigger] (syscall_mask(ids, g) >> (5 + k) as u32)) & 1)
            == 1) == syscall_in(ids, 24 * g + k) by {
            lemma_mask_base_bits(g as u32, k);
        }
        lemma_mask_base_bits(g as u32, 0);
    } else {
        let rest = ids.drop_last();
        let id = ids.last();
        lemma_syscall_mask_bits(rest, g);
        let m = syscall_mask(rest, g);
        let j = (id % 24) as u32;
        if id / 24 == g {
            lemma_mask_or_bits(m, j, 0);
        }
        assert forall|k: u32| k < 24 implies (((#[trigger] (syscall_mask(ids, g) >> (5 + k) as u32)) & 1)
            == 1) == syscall_in(ids, 24 * g + k) by {
            if id / 24 == g {
                lemma_mask_or_bits(m, j, k);
            }
            if syscall_in(rest, 24 * g + k) {
                let i = choose|i: int| 0 <= i < rest.len() && rest[i] == 24 * g + k;
                assert(ids[i] == rest[i]);
            }
            if syscall_in(ids, 24 * g + k) {
                let i = choose|i: int| 0 <= i < ids.len() && ids[i] == 24 * g + k;
                if i < rest.len() {
                    assert(rest[i] == ids[i]);
                }
            }
            assert(ids[ids.len() - 1] == id);
        }
    }
}

/// The masks from group `idx` on: each that of a used group at or above
/// `idx`, in strictly rising group order, every used group given.
#[verifier::spinoff_prover]
proof fn lemma_syscall_masks_order(ids: Seq<u64>, idx: int)
    requires
        0 <= idx <= 8,
    ensures
        forall|j: int|
            0 <= j < syscall_masks_from(ids, idx).len() ==> {
                let w = #[trigger] syscall_masks_from(ids, idx)[j];
                &&& idx <= (w >> 29u32) < 8
                &&& syscall_group_used(ids, (w >> 29u32) as int)
                &&& w == syscall_mask(ids, (w >> 29u32) as int)
            },
        forall|j1: int, j2: int|
            0 <= j1 < j2 < syscall_masks_from(ids, idx).len() ==> (#[trigger] syscall_masks_from(ids, idx)[j1])
                >> 29u32 < (#[trigger] syscall_masks_from(ids, idx)[j2]) >> 29u32,
        forall|g: int|
            idx <= g < 8 && #[trigger] syscall_group_used(ids, g) ==> exists|j: int|
                0 <= j < syscall_masks_from(ids, idx).len() && syscall_masks_from(ids, idx)[j] >> 29u32 == g,
    decreases 8 - idx,
{
    if idx < 8 {
        lemma_syscall_masks_order(ids, idx + 1);
        lemma_syscall_mask_bits(ids, idx);
        let head = if syscall_group_used(ids, idx) {
            seq![syscall_mask(ids, idx)]
        } else {
            Seq::<u32>::empty()
        };
        let tail = syscall_masks_from(ids, idx + 1);
        let w = syscall_masks_from(ids, idx);
        assert(w == head + tail);
        assert forall|j: int| 0 <= j < w.len() implies {
            let x = #[trigger] w[j];
            &&& idx <= (x >> 29u32) < 8
            &&& syscall_group_used(ids, (x >> 29u32) as int)
            &&& x == syscall_mask(ids, (x >> 29u32) as int)
        } by {
            if j >= head.len() {
                assert(w[j] == tail[j - head.len()]);
            }
        }
        assert forall|j1: int, j2: int| 0 <= j1 < j2 < w.len() implies (#[trigger] w[j1]) >> 29u32 < (
        #[trigger] w[j2]) >> 29u32 by {
            assert(w[j2] == tail[j2 - head.len()]);
            if j1 >= head.len() {
                assert(w[j1] == tail[j1 - head.len()]);
            }
        }
        assert forall|g: int| idx <= g < 8 && #[trigger] syscall_group_used(ids, g) implies exists|j: int|
            0 <= j < w.len() && w[j] >> 29u32 == g by {
            if g == idx {
                assert(w[0] >> 29u32 == g);
            } else {
                let j = choose|j: int| 0 <= j < tail.len() && tail[j] >> 29u32 == g;
                assert(w[j + head.len()] == tail[j]);
            }
        }
    }
}

/// The syscall descriptors of a capability: one per group of 24 numbers
/// that holds a number below 192, in rising group order; the descriptor of
/// group `g` has `g` in its top three bits, the trailer `0b01111` in its
/// low five, and bit `5 + k` set exactly when `24 g + k` is one of the
/// numbers that stand. Numbers of 192 and above give no descriptor.
pub proof fn lemma_syscall_descriptors(syscalls: Vec<(String, u64)>)
    ensures
        forall|j: int|
            0 <= j < encode_spec(KernelCapability::Syscalls(syscalls)).len() ==> {
                let w = #[trigger] encode_spec(KernelCapability::Syscalls(syscalls))[j];
                &&& w % 32 == 15
                &&& (w >> 29u32) < 8
                &&& syscall_group_used(syscall_ids(syscalls@), (w >> 29u32) as int)
                &&& forall|k: u32|
                    k < 24 ==> (((#[trigger] (w >> (5 + k) as u32)) & 1) == 1) == syscall_in(
                        syscall_ids(syscalls@),
                        24 * (w >> 29u32) + k,
                    )
            },
        forall|j1: int, j2: int|
            0 <= j1 < j2 < encode_spec(KernelCapability::Syscalls(syscalls)).len() ==> (#[trigger] encode_spec(KernelCapability::Syscalls(syscalls))[j1]) >> 29u32 < (
            #[trigger] encode_spec(KernelCapability::Syscalls(syscalls))[j2]) >> 29u32,
        forall|g: int|
            0 <= g < 8 && #[trigger] syscall_group_used(syscall_ids(syscalls@), g) ==> exists|j: int|
                0 <= j < encode_spec(KernelCapability::Syscalls(syscalls)).len() && encode_spec(KernelCapability::Syscalls(syscalls))[j] >> 29u32 == g,
{
    let ids = syscall_ids(syscalls@);
    let w = encode_spec(KernelCapability::Syscalls(syscalls));
    assert(w == syscall_masks_from(ids, 0));
    lemma_syscall_masks_order(ids, 0);
    lemma_syscall_masks_trailer(ids, 0);
    assert forall|j: int| 0 <= j < w.len() implies {
        let x = #[trigger] w[j];
        &&& x % 32 == 15
        &&& (x >> 29u32) < 8
        &&& syscall_group_used(ids, (x >> 29u32) as int)
        &&& forall|k: u32|
            k < 24 ==> (((#[trigger] (x >> (5 + k) as u32)) & 1) == 1) == syscall_in(ids, 24 * (x >> 29u32) + k)
    } by {
        let g = (w[j] >> 29u32) as int;
        lemma_syscall_mask_bits(ids, g);
    }
}

/// Or-ing in a value shifted above the bits in use adds it.
proof fn lemma_or_shift_adds(prev: u32, d: u32, k: u32)
    by (bit_vector)
    requires
        d < 128,
        k == 11 || k == 18 || k == 25,
        k == 11 ==> prev < 0x800,
        k == 18 ==> prev < 0x4_0000,
        k == 25 ==> prev < 0x200_0000,
    ensures
        k == 11 ==> (prev | (d << k)) == prev + d * 0x800,
        k == 18 ==> (prev | (d << k)) == prev + d * 0x4_0000,
        k == 25 ==> (prev | (d << k)) == prev + d * 0x200_0000,
{
}

/// The region descriptor word as a sum: the trailer, then each of the first
/// three regions' seven bits at `11 + 7i`.
proof fn lemma_map_region_fields(rs: Seq<MapRegionDescriptor>)
    ensures
        ({
            let k = if rs.len() < 3 { rs.len() as int } else { 3 };
            let d0 = if rs.len() > 0 { rs[0].region_type % 0x40 + 0x40 * bit(rs[0].is_ro) } else { 0 };
            let d1 = if rs.len() > 1 { rs[1].region_type % 0x40 + 0x40 * bit(rs[1].is_ro) } else { 0 };
            let d2 = if rs.len() > 2 { rs[2].region_type % 0x40 + 0x40 * bit(rs[2].is_ro) } else { 0 };
            let w = map_region_bits(rs, k) as int;
            &&& w % 0x800 == 0x3FF
            &&& (w / 0x800) % 0x80 == d0
            &&& (w / 0x4_0000) % 0x80 == d1
            &&& w / 0x200_0000 == d2
        }),
{
    let k = if rs.len() < 3 { rs.len() as int } else { 3 };
    let d0 = if rs.len() > 0 { rs[0].region_type % 0x40 + 0x40 * bit(rs[0].is_ro) } else { 0 };
    let d1 = if rs.len() > 1 { rs[1].region_type % 0x40 + 0x40 * bit(rs[1].is_ro) } else { 0 };
    let d2 = if rs.len() > 2 { rs[2].region_type % 0x40 + 0x40 * bit(rs[2].is_ro) } else { 0 };
    let w0 = map_region_bits(rs, 0);
    assert(w0 == 0x3FF);
    let w1v: int = 0x3FF + d0 * 0x800;
    let w2v: int = w1v + d1 * 0x4_0000;
    let w3v: int = w2v + d2 * 0x200_0000;
    if k >= 1 {
        assert(region_desc(rs[0]) == d0);
        lemma_or_shift_adds(w0, region_desc(rs[0]), 11);
        assert(map_region_bits(rs, 1) == w1v);
    }
    if k >= 2 {
        assert(region_desc(rs[1]) == d1);
        lemma_or_shift_adds(map_region_bits(rs, 1), region_desc(rs[1]), 18);
        assert(map_region_bits(rs, 2) == w2v);
    }
    if k >= 3 {
        assert(region_desc(rs[2]) == d2);
        lemma_or_shift_adds(map_region_bits(rs, 2), region_desc(rs[2]), 25);
        assert(map_region_bits(rs, 3) == w3v);
    }
    assert(map_region_bits(rs, k) as int == w3v);
    assert(0 <= d0 < 0x80 && 0 <= d1 < 0x80 && 0 <= d2 < 0x80);
    assert(w3v % 0x800 == 0x3FF && (w3v / 0x800) % 0x80 == d0 && (w3v / 0x4_0000) % 0x80 == d1 && w3v
        / 0x200_0000 == d2) by (nonlinear_arith)
        requires
            0 <= d0 < 0x80,
            0 <= d1 < 0x80,
            0 <= d2 < 0x80,
            w3v == 0x3FF + d0 * 0x800 + d1 * 0x4_0000 + d2 * 0x200_0000,
    ;
}

/// Where each field of a capability lands in its descriptors, read back by
/// shifting right (dividing by a power of two) and masking (taking the
/// remainder):
/// - kernel flags: `0b0111` in bits 0-3, the lowest and highest thread
///   priorities (low six bits) in bits 4-9 and 10-15, the lowest and highest
///   CPU IDs in bits 16-23 and 24-31;
/// - memory map: `0b011_1111` in bits 0-6 of both words; the first holds the
///   address's low 24 bits in bits 7-30 and the read-only flag in bit 31,
///   the second the size's low 20 bits in bits 7-26, address bits 24-27 in
///   bits 27-30 and the inverse of the I/O flag in bit 31;
/// - page: `0b0111_1111` in bits 0-7, the page's low 24 bits above;
/// - regions: `0b011_1111_1111` in bits 0-10, region `i` (of the first
///   three) in bits `11 + 7i` up: its type's low six bits, its read-only
///   flag in the seventh; a missing region is zero;
/// - IRQ pair: `0b0111_1111_1111` in bits 0-11, the two IRQs' low ten bits
///   in bits 12-21 and 22-31;
/// - application type: `0b01_1111_1111_1111` in bits 0-13, the type's low
///   three bits above;
/// - kernel version: `0b011_1111_1111_1111` in bits 0-14, its low 17 bits
///   above;
/// - handle table size: `0b0111_1111_1111_1111` in bits 0-15, its low ten
///   bits above;
/// - debug flags: `0xFFFF` in bits 0-16, allow-debug in bit 17,
///   force-debug-prod in bit 18, force-debug in bit 19, nothing above.
#[verifier::spinoff_prover]
#[verifier::rlimit(40)]
pub proof fn lemma_encode_fields(cap: KernelCapability)
    ensures
        match cap {
            KernelCapability::KernelFlags {
                highest_thread_priority: hp,
                lowest_thread_priority: lp,
                highest_cpu_id: hc,
                lowest_cpu_id: lc,
            } => {
                let w = encode_spec(cap)[0] as int;
                &&& encode_spec(cap).len() == 1
                &&& w % 0x10 == 7
                &&& (w / 0x10) % 0x40 == lp % 0x40
                &&& (w / 0x400) % 0x40 == hp % 0x40
                &&& (w / 0x1_0000) % 0x100 == lc
                &&& w / 0x100_0000 == hc
            },
            KernelCapability::Syscalls(_) => true,
            KernelCapability::MemoryMap { address, size, is_ro, is_io } => {
                let w0 = encode_spec(cap)[0] as int;
                let w1 = encode_spec(cap)[1] as int;
                &&& encode_spec(cap).len() == 2
                &&& w0 % 0x80 == 0x3F
                &&& (w0 / 0x80) % 0x100_0000 == address % 0x100_0000
                &&& w0 / 0x8000_0000 == bit(is_ro)
                &&& w1 % 0x80 == 0x3F
                &&& (w1 / 0x80) % 0x10_0000 == size % 0x10_0000
                &&& (w1 / 0x800_0000) % 0x10 == (address / 0x100_0000) % 0x10
                &&& w1 / 0x8000_0000 == bit(!is_io)
            },
            KernelCapability::MapPage(page) => {
                let w = encode_spec(cap)[0] as int;
                &&& encode_spec(cap).len() == 1
                &&& w % 0x100 == 0x7F
                &&& w / 0x100 == page % 0x100_0000
            },
            KernelCapability::MapRegion(rs) => {
                let w = encode_spec(cap)[0] as int;
                &&& encode_spec(cap).len() == 1
                &&& w % 0x800 == 0x3FF
                &&& (w / 0x800) % 0x80 == (if rs@.len() > 0 {
                    rs@[0].region_type % 0x40 + 0x40 * bit(rs@[0].is_ro)
                } else {
                    0
                })
                &&& (w / 0x4_0000) % 0x80 == (if rs@.len() > 1 {
                    rs@[1].region_type % 0x40 + 0x40 * bit(rs@[1].is_ro)
                } else {
                    0
                })
                &&& w / 0x200_0000 == (if rs@.len() > 2 {
                    rs@[2].region_type % 0x40 + 0x40 * bit(rs@[2].is_ro)
                } else {
                    0
                })
            },
            KernelCapability::IrqPair(irq) => {
                let w = encode_spec(cap)[0] as int;
                &&& encode_spec(cap).len() == 1
                &&& w % 0x1000 == 0x7FF
                &&& (w / 0x1000) % 0x400 == irq@[0] % 0x400
                &&& w / 0x40_0000 == irq@[1] % 0x400
            },
            KernelCapability::ApplicationType(t) => {
                let w = encode_spec(cap)[0] as int;
                &&& encode_spec(cap).len() == 1
                &&& w % 0x4000 == 0x1FFF
                &&& w / 0x4000 == t % 8
            },
            KernelCapability::MinKernelVersion(v) => {
                let w = encode_spec(cap)[0] as int;
                &&& encode_spec(cap).len() == 1
                &&& w % 0x8000 == 0x3FFF
                &&& w / 0x8000 == v % 0x2_0000
            },
            KernelCapability::HandleTableSize(n) => {
                let w = encode_spec(cap)[0] as int;
                &&& encode_spec(cap).len() == 1
                &&& w % 0x1_0000 == 0x7FFF
                &&& w / 0x1_0000 == n % 0x400
            },
            KernelCapability::DebugFlags { allow_debug, force_debug_prod, force_debug } => {
                let w = encode_spec(cap)[0] as int;
                &&& encode_spec(cap).len() == 1
                &&& w % 0x2_0000 == 0xFFFF
                &&& (w / 0x2_0000) % 2 == bit(allow_debug)
                &&& (w / 0x4_0000) % 2 == bit(force_debug_prod)
                &&& w / 0x8_0000 == bit(force_debug)
            },
        },
{
    match cap {
        KernelCapability::KernelFlags {
            highest_thread_priority: hp,
            lowest_thread_priority: lp,
            highest_cpu_id: hc,
            lowest_cpu_id: lc,
        } => {
            let a = lp % 64;
            let b = hp % 64;
            let v: int = 7 + 0x10 * a + 0x400 * b + 0x1_0000 * lc + 0x100_0000 * hc;
            assert(0 <= v < 0x1_0000_0000);
            assert(encode_spec(cap)[0] as int == v);
            assert(v % 0x10 == 7 && (v / 0x10) % 0x40 == a && (v / 0x400) % 0x40 == b && (v / 0x1_0000)
                % 0x100 == lc && v / 0x100_0000 == hc) by (nonlinear_arith)
                requires
                    0 <= a < 64,
                    0 <= b < 64,
                    0 <= lc < 256,
                    0 <= hc < 256,
                    v == 7 + 0x10 * a + 0x400 * b + 0x1_0000 * lc + 0x100_0000 * hc,
            ;
        },
        KernelCapability::Syscalls(_) => {},
        KernelCapability::MemoryMap { address, size, is_ro, is_io } => {
            let a = address % 0x100_0000;
            let r = bit(is_ro);
            let sz = size % 0x10_0000;
            let hi = (address / 0x100_0000) % 16;
            let io = bit(!is_io);
            let v0: int = 0x3F + 0x80 * a + 0x8000_0000 * r;
            let v1: int = 0x3F + 0x80 * sz + 0x800_0000 * hi + 0x8000_0000 * io;
            assert(0 <= v0 < 0x1_0000_0000 && 0 <= v1 < 0x1_0000_0000);
            assert(encode_spec(cap)[0] as int == v0);
            assert(encode_spec(cap)[1] as int == v1);
            assert(v0 % 0x80 == 0x3F && (v0 / 0x80) % 0x100_0000 == a && v0 / 0x8000_0000 == r)
                by (nonlinear_arith)
                requires
                    0 <= a < 0x100_0000,
                    0 <= r <= 1,
                    v0 == 0x3F + 0x80 * a + 0x8000_0000 * r,
            ;
            assert(v1 % 0x80 == 0x3F && (v1 / 0x80) % 0x10_0000 == sz && (v1 / 0x800_0000) % 0x10 == hi
                && v1 / 0x8000_0000 == io) by (nonlinear_arith)
                requires
                    0 <= sz < 0x10_0000,
                    0 <= hi < 16,
                    0 <= io <= 1,
                    v1 == 0x3F + 0x80 * sz + 0x800_0000 * hi + 0x8000_0000 * io,
            ;
        },
        KernelCapability::MapPage(page) => {
            let a = page % 0x100_0000;
            let v: int = 0x7F + 0x100 * a;
            assert(encode_spec(cap)[0] as int == v);
            assert(v % 0x100 == 0x7F && v / 0x100 == a) by (nonlinear_arith)
                requires
                    0 <= a < 0x100_0000,
                    v == 0x7F + 0x100 * a,
            ;
        },
        KernelCapability::MapRegion(rs) => {
            lemma_map_region_fields(rs@);
        },
        KernelCapability::IrqPair(irq) => {
            let a = irq@[0] % 0x400;
            let b = irq@[1] % 0x400;
            let v: int = 0x7FF + 0x1000 * a + 0x40_0000 * b;
            assert(encode_spec(cap)[0] as int == v);
            assert(v % 0x1000 == 0x7FF && (v / 0x1000) % 0x400 == a && v / 0x40_0000 == b) by (nonlinear_arith)
                requires
                    0 <= a < 0x400,
                    0 <= b < 0x400,
                    v == 0x7FF + 0x1000 * a + 0x40_0000 * b,
            ;
        },
        KernelCapability::ApplicationType(t) => {
            let a = t % 8;
            let v: int = 0x1FFF + 0x4000 * a;
            assert(encode_spec(cap)[0] as int == v);
            assert(v % 0x4000 == 0x1FFF && v / 0x4000 == a) by (nonlinear_arith)
                requires
                    0 <= a < 8,
                    v == 0x1FFF + 0x4000 * a,
            ;
        },
        KernelCapability::MinKernelVersion(k) => {
            let a = k % 0x2_0000;
            let v: int = 0x3FFF + 0x8000 * a;
            assert(encode_spec(cap)[0] as int == v);
            assert(v % 0x8000 == 0x3FFF && v / 0x8000 == a) by (nonlinear_arith)
                requires
                    0 <= a < 0x2_0000,
                    v == 0x3FFF + 0x8000 * a,
            ;
        },
        KernelCapability::HandleTableSize(n) => {
            let a = n % 0x400;
            let v: int = 0x7FFF + 0x1_0000 * a;
            assert(encode_spec(cap)[0] as int == v);
            assert(v % 0x1_0000 == 0x7FFF && v / 0x1_0000 == a) by (nonlinear_arith)
                requires
                    0 <= a < 0x400,
                    v == 0x7FFF + 0x1_0000 * a,
            ;
        },
        KernelCapability::DebugFlags { allow_debug, force_debug_prod, force_debug } => {
            let a = bit(allow_debug);
            let p = bit(force_debug_prod);
            let f = bit(force_debug);
            let v: int = 0xFFFF + 0x2_0000 * a + 0x4_0000 * p + 0x8_0000 * f;
            assert(encode_spec(cap)[0] as int == v);
            assert(v % 0x2_0000 == 0xFFFF && (v / 0x2_0000) % 2 == a && (v / 0x4_0000) % 2 == p && v / 0x8_0000
                == f) by (nonlinear_arith)
                requires
                    0 <= a <= 1,
                    0 <= p <= 1,
                    0 <= f <= 1,
                    v == 0xFFFF + 0x2_0000 * a + 0x4_0000 * p + 0x8_0000 * f,
            ;
        },
    }
}

proof fn lemma_syscall_mask_step(ids: Seq<u64>, i: int, idx: int)
    requires
        0 <= i < ids.len(),
    ensures
        syscall_mask(ids.take(i + 1), idx) == (if ids[i] / 24 == idx {
            syscall_mask(ids.take(i), idx) | (1u32 << ((ids[i] % 24) + 5) as u32)
        } else {
            syscall_mask(ids.take(i), idx)
        }),
{
    assert(ids.take(i + 1).drop_last() =~= ids.take(i));
}

/// Adding the `i`-th number to the prefix before it sets its bit in its
/// group's mask and marks that group used; other groups are unchanged.
proof fn lemma_syscall_step(ids: Seq<u64>, i: int)
    requires
        0 <= i < ids.len(),
    ensures
        forall|q: int|
            0 <= q < 8 ==> #[trigger] syscall_mask(ids.take(i + 1), q) == (if ids[i] / 24 == q {
                syscall_mask(ids.take(i), q) | (1u32 << ((ids[i] % 24) + 5) as u32)
            } else {
                syscall_mask(ids.take(i), q)
            }),
        forall|q: int|
            0 <= q < 8 ==> #[trigger] syscall_group_used(ids.take(i + 1), q) == (
            syscall_group_used(ids.take(i), q) || ids[i] / 24 == q),
{
    assert forall|q: int| 0 <= q < 8 implies #[trigger] syscall_mask(ids.take(i + 1), q) == (if ids[i]
        / 24 == q {
        syscall_mask(ids.take(i), q) | (1u32 << ((ids[i] % 24) + 5) as u32)
    } else {
        syscall_mask(ids.take(i), q)
    }) by {
        lemma_syscall_mask_step(ids, i, q);
    }
    assert forall|q: int| 0 <= q < 8 implies #[trigger] syscall_group_used(ids.take(i + 1), q) == (
    syscall_group_used(ids.take(i), q) || ids[i] / 24 == q) by {
        let s1 = ids.take(i + 1);
        let s0 = ids.take(i);
        if syscall_group_used(s1, q) {
            let w = choose|j: int| #![trigger s1[j]] 0 <= j < s1.len() && s1[j] / 24 == q;
            if w < i {
                assert(s0[w] / 24 == q);
            }
        }
        if syscall_group_used(s0, q) {
            let w = choose|j: int| #![trigger s0[j]] 0 <= j < s0.len() && s0[j] / 24 == q;
            assert(s1[w] / 24 == q);
        }
        if ids[i] / 24 == q {
            assert(s1[i] / 24 == q);
        }
    }
}

impl KernelCapability {
    /// Encode this capability into its `u32` descriptors (one for most types,
    /// two for Map, one per used group of 24 numbers for Syscalls).
    #[verifier::spinoff_prover]
    pub fn encode(&self) -> (r: Vec<u32>)
        ensures
            r@ == encode_spec(*self),
    {
        match self {
            KernelCapability::KernelFlags {
                highest_thread_priority,
                lowest_thread_priority,
                highest_cpu_id,
                lowest_cpu_id,
            } => {
                let a = *lowest_thread_priority as u32;
                let b = *highest_thread_priority as u32;
                let c = *lowest_cpu_id as u32;
                let d = *highest_cpu_id as u32;
                let mut val = 0b111u32;
                val = val | ((a & 0x3F) << 4);
                val = val | ((b & 0x3F) << 10);
                val = val | ((c & 0xFF) << 16);
                val = val | ((d & 0xFF) << 24);
                assert(val == 0b111 + 0x10 * (a % 64) + 0x400 * (b % 64) + 0x1_0000 * c + 0x100_0000
                    * d) by (bit_vector)
                    requires
                        a < 256 && b < 256 && c < 256 && d < 256,
                        val == (((0b111u32 | ((a & 0x3F) << 4)) | ((b & 0x3F) << 10)) | ((c & 0xFF)
                            << 16)) | ((d & 0xFF) << 24),
                ;
                let mut r: Vec<u32> = Vec::new();
                r.push(val);
                assert(r@ =~= encode_spec(*self));
                r
            },
            KernelCapability::Syscalls(pairs) => {
                let syscalls = kept_syscall_ids(pairs);
                let ghost ids = syscall_ids(pairs@);
                let mut masks: Vec<u32> = Vec::new();
                let mut used: Vec<bool> = Vec::new();
                let mut idx: u32 = 0;
                while idx < 8
                    invariant
                        idx <= 8,
                        masks@.len() == idx,
                        used@.len() == idx,
                        forall|q: int|
                            0 <= q < idx ==> #[trigger] masks@[q] == syscall_mask(ids.take(0), q)
                                && !used@[q],
                    decreases 8 - idx,
                {
                    let m = 0b1111u32 | ((idx & 0x7) << 29);
                    assert(m == 0xF + idx * 0x2000_0000) by (bit_vector)
                        requires
                            idx < 8,
                            m == 0b1111u32 | ((idx & 0x7) << 29),
                    ;
                    masks.push(m);
                    used.push(false);
                    idx = idx + 1;
                }
                proof {
                    assert forall|q: int| 0 <= q < 8 implies !syscall_group_used(ids.take(0), q) by {
                        assert(ids.take(0).len() == 0);
                    }
                }
                let mut i: usize = 0;
                while i < syscalls.len()
                    invariant
                        i <= syscalls@.len(),
                        ids == syscalls@,
                        masks@.len() == 8,
                        used@.len() == 8,
                        forall|q: int|
                            0 <= q < 8 ==> #[trigger] masks@[q] == syscall_mask(ids.take(i as int), q)
                                && (used@[q] <==> syscall_group_used(ids.take(i as int), q)),
                    decreases syscalls.len() - i,
                {
                    let syscall_id = syscalls[i];
                    let mask_idx = syscall_id / 24;
                    let bit_offset = (syscall_id % 24) + 5;
                    proof {
                        lemma_syscall_step(ids, i as int);
                    }
                    if mask_idx < 8 && bit_offset < 32 {
                        let q = mask_idx as usize;
                        let m = masks[q] | (1u32 << (bit_offset as u32));
                        masks.set(q, m);
                        used.set(q, true);
                    }
                    i = i + 1;
                }
                assert(ids.take(syscalls@.len() as int) =~= ids);
                // Keep the masks of the used groups, in index order.
                let mut r: Vec<u32> = Vec::new();
                let mut q: usize = 0;
                while q < 8
                    invariant
                        q <= 8,
                        masks@.len() == 8,
                        used@.len() == 8,
                        forall|k: int|
                            0 <= k < 8 ==> #[trigger] masks@[k] == syscall_mask(ids, k) && (
                            used@[k] <==> syscall_group_used(ids, k)),
                        syscall_masks_from(ids, 0) == r@ + syscall_masks_from(ids, q as int),
                    decreases 8 - q,
                {
                    let ghost qo = q as int;
                    assert(masks@[qo] == syscall_mask(ids, qo));
                    assert(used@[qo] <==> syscall_group_used(ids, qo));
                    assert(syscall_masks_from(ids, qo) == (if syscall_group_used(ids, qo) {
                        seq![syscall_mask(ids, qo)]
                    } else {
                        Seq::empty()
                    }) + syscall_masks_from(ids, qo + 1));
                    if used[q] {
                        r.push(masks[q]);
                    }
                    q = q + 1;
                    assert(syscall_masks_from(ids, 0) =~= r@ + syscall_masks_from(ids, q as int));
                }
                r
            },
            KernelCapability::MemoryMap { address, size, is_ro, is_io } => {
                let addr_lo = (*address & 0x00FF_FFFF) as u32;
                let ro: u32 = if *is_ro {
                    1
                } else {
                    0
                };
                let desc1 = addr_lo | (ro << 24);
                let val1 = (desc1 << 7) | 0b11_1111u32;
                let size_lo = (*size & 0x000F_FFFF) as u32;
                let addr_hi = ((*address >> 24) & 0xF) as u32;
                // The I/O flag is stored inverted.
                let io_inv: u32 = if *is_io {
                    0
                } else {
                    1
                };
                let desc2 = size_lo | (addr_hi << 20) | (io_inv << 24);
                let val2 = (desc2 << 7) | 0b11_1111u32;
                let ghost a = *address;
                let ghost s = *size;
                assert(addr_lo == a % 0x100_0000 && size_lo == s % 0x10_0000 && addr_hi == (a
                    / 0x100_0000) % 16) by (bit_vector)
                    requires
                        addr_lo == (a & 0x00FF_FFFF) as u32,
                        size_lo == (s & 0x000F_FFFF) as u32,
                        addr_hi == ((a >> 24) & 0xF) as u32,
                ;
                assert(val1 == 0x3F + 0x80 * addr_lo + 0x8000_0000 * ro && val2 == 0x3F + 0x80
                    * size_lo + 0x800_0000 * addr_hi + 0x8000_0000 * io_inv) by (bit_vector)
                    requires
                        addr_lo < 0x100_0000 && ro <= 1 && size_lo < 0x10_0000 && addr_hi < 16
                            && io_inv <= 1,
                        val1 == ((addr_lo | (ro << 24)) << 7) | 0b11_1111u32,
                        val2 == ((size_lo | (addr_hi << 20) | (io_inv << 24)) << 7) | 0b11_1111u32,
                ;
                let mut r: Vec<u32> = Vec::new();
                r.push(val1);
                r.push(val2);
                assert(r@ =~= encode_spec(*self));
                r
            },
            KernelCapability::MapPage(page) => {
                let lo = (*page & 0x00FF_FFFF) as u32;
                let val = 0b111_1111u32 | (lo << 8);
                let ghost p = *page;
                assert(lo == p % 0x100_0000) by (bit_vector)
                    requires
                        lo == (p & 0x00FF_FFFF) as u32,
                ;
                assert(val == 0x7F + 0x100 * lo) by (bit_vector)
                    requires
                        lo < 0x100_0000,
                        val == 0b111_1111u32 | (lo << 8),
                ;
                let mut r: Vec<u32> = Vec::new();
                r.push(val);
                assert(r@ =~= encode_spec(*self));
                r
            },
            KernelCapability::MapRegion(regions) => {
                let n = if regions.len() < 3 {
                    regions.len()
                } else {
                    3
                };
                let mut val = 0b11_1111_1111u32;
                let mut i: usize = 0;
                while i < n
                    invariant
                        i <= n <= 3,
                        n <= regions@.len(),
                        val == map_region_bits(regions@, i as int),
                    decreases n - i,
                {
                    let region = &regions[i];
                    let t = region.region_type as u32;
                    let ro: u32 = if region.is_ro {
                        1
                    } else {
                        0
                    };
                    let region_desc = (t & 0x3F) | (ro << 6);
                    assert(region_desc == (t % 64) + 64 * ro) by (bit_vector)
                        requires
                            t < 256 && ro <= 1,
                            region_desc == (t & 0x3F) | (ro << 6),
                    ;
                    val = val | (region_desc << (11 + 7 * i as u32));
                    i = i + 1;
                }
                let mut r: Vec<u32> = Vec::new();
                r.push(val);
                assert(r@ =~= encode_spec(*self));
                r
            },
            KernelCapability::IrqPair(irq_pair) => {
                let a = irq_pair[0] as u32;
                let b = irq_pair[1] as u32;
                let val = 0b111_1111_1111u32 | ((a & 0x3FF) << 12) | ((b & 0x3FF) << 22);
                assert(val == 0x7FF + 0x1000 * (a % 0x400) + 0x40_0000 * (b % 0x400)) by (bit_vector)
                    requires
                        a < 0x1_0000 && b < 0x1_0000,
                        val == 0b111_1111_1111u32 | ((a & 0x3FF) << 12) | ((b & 0x3FF) << 22),
                ;
                let mut r: Vec<u32> = Vec::new();
                r.push(val);
                assert(r@ =~= encode_spec(*self));
                r
            },
            KernelCapability::ApplicationType(app_type) => {
                let t = *app_type as u32;
                let val = 0b1_1111_1111_1111u32 | ((t & 0x7) << 14);
                assert(val == 0x1FFF + 0x4000 * (t % 8)) by (bit_vector)
                    requires
                        t < 0x1_0000,
                        val == 0b1_1111_1111_1111u32 | ((t & 0x7) << 14),
                ;
                let mut r: Vec<u32> = Vec::new();
                r.push(val);
                assert(r@ =~= encode_spec(*self));
                r
            },
            KernelCapability::MinKernelVersion(min_kernel) => {
                let lo = (*min_kernel & 0x0001_FFFF) as u32;
                let val = 0b11_1111_1111_1111u32 | (lo << 15);
                let ghost k = *min_kernel;
                assert(lo == k % 0x2_0000) by (bit_vector)
                    requires
                        lo == (k & 0x0001_FFFF) as u32,
                ;
                assert(val == 0x3FFF + 0x8000 * lo) by (bit_vector)
                    requires
                        lo < 0x2_0000,
                        val == 0b11_1111_1111_1111u32 | (lo << 15),
                ;
                let mut r: Vec<u32> = Vec::new();
                r.push(val);
                assert(r@ =~= encode_spec(*self));
                r
            },
            KernelCapability::HandleTableSize(handle_table_size) => {
                let t = *handle_table_size as u32;
                let val = 0b111_1111_1111_1111u32 | ((t & 0x3FF) << 16);
                assert(val == 0x7FFF + 0x1_0000 * (t % 0x400)) by (bit_vector)
                    requires
                        t < 0x1_0000,
                        val == 0b111_1111_1111_1111u32 | ((t & 0x3FF) << 16),
                ;
                let mut r: Vec<u32> = Vec::new();
                r.push(val);
                assert(r@ =~= encode_spec(*self));
                r
            },
            KernelCapability::DebugFlags { allow_debug, force_debug_prod, force_debug } => {
                let a: u32 = if *allow_debug {
                    1
                } else {
                    0
                };
                let p: u32 = if *force_debug_prod {
                    1
                } else {
                    0
                };
                let f: u32 = if *force_debug {
                    1
                } else {
                    0
                };
                let val = 0b1111_1111_1111_1111u32 | (a << 17) | (p << 18) | (f << 19);
                assert(val == 0xFFFF + 0x2_0000 * a + 0x4_0000 * p + 0x8_0000 * f) by (bit_vector)
                    requires
                        a <= 1 && p <= 1 && f <= 1,
                        val == 0b1111_1111_1111_1111u32 | (a << 17) | (p << 18) | (f << 19),
                ;
                let mut r: Vec<u32> = Vec::new();
                r.push(val);
                assert(r@ =~= encode_spec(*self));
                r
            },
        }
    }
}


/// Save data owner ID entry with accessibility flags.
#[derive(Debug, Clone, PartialEq, Eq)]
pub struct SaveDataOwnerId {
    /// Accessibility flags for this save data owner
    pub accessibility: u8,
    /// Save data owner ID
    pub id: u64,
}

/// Filesystem access control: which content and save data the program may
/// access.
#[derive(Debug, Clone, PartialEq, Eq)]
pub struct FilesystemAccess {
    /// Filesystem permission bitmask
    pub permissions: u64,
    /// Content owner IDs (ACI0 section)
    pub content_owner_ids: Vec<u64>,
    /// Save data owner IDs (ACI0 section)
    pub save_data_owner_ids: Vec<SaveDataOwnerId>,
    /// Content owner ID range minimum (ACID section)
    pub content_owner_id_min: u64,
    /// Content owner ID range maximum (ACID section)
    pub content_owner_id_max: u64,
    /// Save data owner ID range minimum (ACID section)
    pub save_data_owner_id_min: u64,
    /// Save data owner ID range maximum (ACID section)
    pub save_data_owner_id_max: u64,
}

/// Whether `fs` holds the defaults: every permission, no owner IDs, and the
/// full owner ID ranges.
pub open spec fn fs_access_is_default(fs: FilesystemAccess) -> bool {
    &&& fs.permissions == u64::MAX
    &&& fs.content_owner_ids@.len() == 0
    &&& fs.save_data_owner_ids@.len() == 0
    &&& fs.content_owner_id_min == 0
    &&& fs.content_owner_id_max == u64::MAX
    &&& fs.save_data_owner_id_min == 0
    &&& fs.save_data_owner_id_max == u64::MAX
}

impl Default for FilesystemAccess {
    /// All permissions and the full owner ranges, as homebrew uses.
    fn default() -> (r: Self)
        ensures
            fs_access_is_default(r),
    {
        FilesystemAccess {
            permissions: 0xFFFF_FFFF_FFFF_FFFF,
            content_owner_ids: Vec::new(),
            save_data_owner_ids: Vec::new(),
            content_owner_id_min: 0,
            content_owner_id_max: 0xFFFF_FFFF_FFFF_FFFF,
            save_data_owner_id_min: 0,
            save_data_owner_id_max: 0xFFFF_FFFF_FFFF_FFFF,
        }
    }
}

/// Service access control list.
///
/// Each entry is `(service_name, is_host)`: the service name (at most 8
/// bytes are kept) and whether this program hosts the service rather than
/// accessing it as a client.
#[derive(Debug, Clone, PartialEq, Eq)]
pub struct ServiceAccess {
    /// Allowed service names with their is-host flag
    pub services: Vec<(String, bool)>,
}

impl Default for ServiceAccess {
    /// No services.
    fn default() -> (r: Self)
        ensures
            r.services@.len() == 0,
    {
        ServiceAccess { services: Vec::new() }
    }
}

/// ACI0 (access control info) section data: the runtime permissions.
#[derive(Debug, Clone, PartialEq)]
pub struct AciData {
    /// Program ID (title ID)
    pub program_id: u64,
    /// Filesystem access permissions
    pub filesystem_access: FilesystemAccess,
    /// Service access control list
    pub service_access: ServiceAccess,
    /// Kernel capabilities
    pub kernel_capabilities: Vec<KernelCapability>,
}

impl Default for AciData {
    /// Program ID 0, default filesystem access, no services, no kernel
    /// capabilities.
    fn default() -> (r: Self)
        ensures
            r.program_id == 0,
            fs_access_is_default(r.filesystem_access),
            r.service_access.services@.len() == 0,
            r.kernel_capabilities@.len() == 0,
    {
        AciData {
            program_id: 0,
            filesystem_access: FilesystemAccess::default(),
            service_access: ServiceAccess::default(),
            kernel_capabilities: Vec::new(),
        }
    }
}

/// ACID (access control info descriptor) section data: the signed
/// permissions that bound the ACI0 section. Homebrew leaves it empty.
#[derive(Debug, Clone, PartialEq)]
pub struct AcidData {
    /// Program ID range minimum
    pub program_id_min: u64,
    /// Program ID range maximum
    pub program_id_max: u64,
    /// Filesystem access permissions (a superset of ACI0's)
    pub filesystem_access: FilesystemAccess,
    /// Service access control list (a superset of ACI0's)
    pub service_access: ServiceAccess,
    /// Kernel capabilities (a superset of ACI0's)
    pub kernel_capabilities: Vec<KernelCapability>,
    /// ACID flags (production/unqualified approval, etc.)
    pub flags: u32,
}

impl Default for AcidData {
    /// The full program ID range, default filesystem access, nothing else.
    fn default() -> (r: Self)
        ensures
            r.program_id_min == 0,
            r.program_id_max == u64::MAX,
            fs_access_is_default(r.filesystem_access),
            r.service_access.services@.len() == 0,
            r.kernel_capabilities@.len() == 0,
            r.flags == 0,
    {
        AcidData {
            program_id_min: 0,
            program_id_max: 0xFFFF_FFFF_FFFF_FFFF,
            filesystem_access: FilesystemAccess::default(),
            service_access: ServiceAccess::default(),
            kernel_capabilities: Vec::new(),
            flags: 0,
        }
    }
}

/// NPDM core metadata, stored in the META header.
#[derive(Debug, Clone, PartialEq, Eq)]
pub struct NpdmMetadata {
    /// Program name (UTF-8; at most 15 bytes are kept, null-terminated)
    pub name: String,
    /// Program ID; the ACI0 program ID when no ACI0 data is given
    pub title_id: u64,
    /// Program version
    pub version: u32,
    /// Main thread priority (0-63, higher = lower priority)
    pub main_thread_priority: u8,
    /// Default CPU core for the main thread
    pub default_cpu_id: u8,
    /// Main thread stack size in bytes
    pub main_thread_stack_size: u32,
    /// MMU flags
    pub flags: u8,
}

/// Little-endian bytes of each value, concatenated.
pub open spec fn le64_all(vs: Seq<u64>) -> Seq<u8>
    decreases vs.len(),
{
    if vs.len() == 0 {
        Seq::empty()
    } else {
        le64_all(vs.drop_last()) + le64(vs.last())
    }
}

/// The size of the content owner ID block of `n` IDs.
pub open spec fn coi_block_len(n: int) -> int {
    if n == 0 {
        0
    } else {
        4 + 8 * n
    }
}

/// The size of the save data owner ID block of `n` entries: count,
/// accessibility bytes padded to a multiple of 4, then the IDs.
pub open spec fn sdoi_block_len(n: int) -> int {
    if n == 0 {
        0
    } else {
        4 + round_up(n, 4) + 8 * n
    }
}

/// The content owner ID block: the count, then the IDs.
pub open spec fn coi_block(coi: Seq<u64>) -> Seq<u8> {
    if coi.len() == 0 {
        Seq::empty()
    } else {
        le32(len32(coi.len() as int)) + le64_all(coi)
    }
}

/// The save data owner ID block: the count, the accessibility bytes padded
/// with zeros to a multiple of 4, then the IDs.
pub open spec fn sdoi_block(sdoi: Seq<SaveDataOwnerId>) -> Seq<u8> {
    if sdoi.len() == 0 {
        Seq::empty()
    } else {
        le32(len32(sdoi.len() as int)) + sdoi.map_values(|e: SaveDataOwnerId| e.accessibility)
            + zeros((round_up(sdoi.len() as int, 4) - sdoi.len()) as nat) + le64_all(
            sdoi.map_values(|e: SaveDataOwnerId| e.id),
        )
    }
}

/// The ACI0 filesystem access header (FAH): version 1, permissions, the
/// offsets and sizes of the two owner ID blocks, then the blocks.
pub open spec fn fah_bytes(permissions: u64, coi: Seq<u64>, sdoi: Seq<SaveDataOwnerId>) -> Seq<u8> {
    let cs = len32(coi_block_len(coi.len() as int));
    let ss = len32(sdoi_block_len(sdoi.len() as int));
    le32(1) + le64(permissions) + le32(0x1C) + le32(cs) + le32(len32(0x1C + cs)) + le32(ss)
        + coi_block(coi) + sdoi_block(sdoi)
}

/// The FAH of a filesystem access value.
pub open spec fn fah_spec(fs: FilesystemAccess) -> Seq<u8> {
    fah_bytes(fs.permissions, fs.content_owner_ids@, fs.save_data_owner_ids@)
}

/// Whether the FAH of `fs` fits the 32-bit fields that describe it.
pub open spec fn fah_fits(fs: FilesystemAccess) -> bool {
    0x1C + coi_block_len(fs.content_owner_ids@.len() as int) + sdoi_block_len(
        fs.save_data_owner_ids@.len() as int,
    ) <= u32::MAX
}

/// The ACID filesystem access control (FAC): version 1, zero counts,
/// permissions, then the two owner ID ranges.
pub open spec fn fac_bytes(permissions: u64, coi_min: u64, coi_max: u64, sdoi_min: u64, sdoi_max: u64) -> Seq<u8> {
    seq![1u8, 0u8, 0u8, 0u8] + le64(permissions) + le64(coi_min) + le64(coi_max) + le64(sdoi_min)
        + le64(sdoi_max)
}

/// The FAC of a filesystem access value.
pub open spec fn fac_spec(fs: FilesystemAccess) -> Seq<u8> {
    fac_bytes(
        fs.permissions,
        fs.content_owner_id_min,
        fs.content_owner_id_max,
        fs.save_data_owner_id_min,
        fs.save_data_owner_id_max,
    )
}

/// One service access control entry: a control byte (length - 1, bit 7 set
/// for a host) and the first at most 8 bytes of the name; nothing for an
/// empty name.
pub open spec fn sac_entry(name: Seq<char>, is_host: bool) -> Seq<u8> {
    let b = vstd::utf8::encode_utf8(name);
    let len = if b.len() < 8 {
        b.len() as int
    } else {
        8
    };
    if len == 0 {
        Seq::empty()
    } else {
        seq![((len - 1) + 0x80 * bit(is_host)) as u8] + b.take(len)
    }
}

/// The service access control (SAC) data of a service list.
pub open spec fn sac_bytes(services: Seq<(String, bool)>) -> Seq<u8>
    decreases services.len(),
{
    if services.len() == 0 {
        Seq::empty()
    } else {
        sac_bytes(services.drop_last()) + sac_entry(services.last().0@, services.last().1)
    }
}

/// A service's SAC entry: nothing for an empty name; otherwise a control
/// byte holding the stored length less one in its low seven bits and the
/// host flag in bit 7, then the name's UTF-8 bytes, all of them when there
/// are at most eight, else the first eight.
pub proof fn lemma_sac_entry_layout(name: Seq<char>, is_host: bool)
    ensures
        ({
            let b = vstd::utf8::encode_utf8(name);
            let e = sac_entry(name, is_host);
            let h: int = if is_host { 0x80 } else { 0 };
            &&& b.len() == 0 ==> e.len() == 0
            &&& 1 <= b.len() <= 8 ==> e.len() == b.len() + 1 && e[0] as int == b.len() - 1 + h && e.skip(1) == b
            &&& b.len() > 8 ==> e.len() == 9 && e[0] as int == 7 + h && e.skip(1) == b.take(8)
            &&& b.len() > 0 ==> e[0] as int % 0x80 + 1 == (if b.len() < 8 { b.len() as int } else { 8 })
                && e[0] as int / 0x80 == (if is_host { 1int } else { 0 })
        }),
{
    let b = vstd::utf8::encode_utf8(name);
    let e = sac_entry(name, is_host);
    if b.len() > 0 {
        let len: int = if b.len() < 8 { b.len() as int } else { 8 };
        assert(e.skip(1) =~= b.take(len));
        if b.len() <= 8 {
            assert(b.take(len) =~= b);
        }
    }
}

/// The SAC data lists the services' entries in the order given: that of a
/// list followed by more services is the list's data followed by theirs,
/// and that of one service is its entry.
pub proof fn lemma_sac_bytes_in_order(a: Seq<(String, bool)>, b: Seq<(String, bool)>)
    ensures
        sac_bytes(a + b) == sac_bytes(a) + sac_bytes(b),
        a.len() == 1 ==> sac_bytes(a) == sac_entry(a[0].0@, a[0].1),
    decreases b.len(),
{
    if b.len() == 0 {
        assert(a + b =~= a);
        assert(sac_bytes(a) + Seq::<u8>::empty() =~= sac_bytes(a));
    } else {
        lemma_sac_bytes_in_order(a, b.drop_last());
        assert((a + b).drop_last() =~= a + b.drop_last());
        assert((a + b).last() == b.last());
        assert(sac_bytes(a) + sac_bytes(b.drop_last()) + sac_entry(b.last().0@, b.last().1) =~= sac_bytes(a)
            + (sac_bytes(b.drop_last()) + sac_entry(b.last().0@, b.last().1)));
    }
    if a.len() == 1 {
        assert(a.drop_last() =~= Seq::<(String, bool)>::empty());
        assert(sac_bytes(a.drop_last()) == Seq::<u8>::empty());
        assert(a.last() == a[0]);
        assert(Seq::<u8>::empty() + sac_entry(a[0].0@, a[0].1) =~= sac_entry(a[0].0@, a[0].1));
    }
}

/// The kernel capability (KC) data: every capability's descriptors, in
/// order, as little-endian words.
pub open spec fn kc_bytes(caps: Seq<KernelCapability>) -> Seq<u8>
    decreases caps.len(),
{
    if caps.len() == 0 {
        Seq::empty()
    } else {
        kc_bytes(caps.drop_last()) + le32_all(encode_spec(caps.last()))
    }
}

/// Appends the content owner ID block.
fn push_coi_block(data: &mut Vec<u8>, ids: &Vec<u64>)
    requires
        ids@.len() <= u32::MAX,
    ensures
        final(data)@ == old(data)@ + coi_block(ids@),
{
    let n = ids.len();
    if n != 0 {
        let ghost head = data@;
        push_u32(data, n as u32);
        let mut i: usize = 0;
        while i < n
            invariant
                i <= n == ids@.len() <= u32::MAX,
                data@ == head + le32(n as u32) + le64_all(ids@.take(i as int)),
            decreases n - i,
        {
            push_u64(data, ids[i]);
            i = i + 1;
            assert(ids@.take(i as int).drop_last() =~= ids@.take(i - 1));
            assert(data@ =~= head + le32(n as u32) + le64_all(ids@.take(i as int)));
        }
        assert(ids@.take(n as int) =~= ids@);
    }
}

/// Appends the save data owner ID block.
fn push_sdoi_block(data: &mut Vec<u8>, entries: &Vec<SaveDataOwnerId>)
    requires
        sdoi_block_len(entries@.len() as int) <= u32::MAX,
    ensures
        final(data)@ == old(data)@ + sdoi_block(entries@),
{
    let ghost sdoi = entries@;
    let ns = entries.len();
    if ns != 0 {
        let ghost head = data@;
        let ghost acc = sdoi.map_values(|e: SaveDataOwnerId| e.accessibility);
        let ghost ids = sdoi.map_values(|e: SaveDataOwnerId| e.id);
        push_u32(data, ns as u32);
        let ghost mid = data@;
        let mut i: usize = 0;
        while i < ns
            invariant
                i <= ns == sdoi.len(),
                sdoi == entries@,
                acc == sdoi.map_values(|e: SaveDataOwnerId| e.accessibility),
                data@ == mid + acc.take(i as int),
            decreases ns - i,
        {
            data.push(entries[i].accessibility);
            i = i + 1;
            assert(data@ =~= mid + acc.take(i as int));
        }
        assert(acc.take(ns as int) =~= acc);
        let padded: usize = if ns % 4 == 0 {
            ns
        } else {
            ns - ns % 4 + 4
        };
        push_zeros(data, padded - ns);
        let ghost mid2 = data@;
        let mut j: usize = 0;
        while j < ns
            invariant
                j <= ns == sdoi.len(),
                sdoi == entries@,
                ids == sdoi.map_values(|e: SaveDataOwnerId| e.id),
                data@ == mid2 + le64_all(ids.take(j as int)),
            decreases ns - j,
        {
            push_u64(data, entries[j].id);
            j = j + 1;
            assert(ids.take(j as int).drop_last() =~= ids.take(j - 1));
            assert(data@ =~= mid2 + le64_all(ids.take(j as int)));
        }
        assert(ids.take(ns as int) =~= ids);
        assert(data@ =~= head + sdoi_block(sdoi));
    }
}

/// The 32-bit sizes of the two owner ID blocks.
fn owner_block_sizes(nc: usize, ns: usize) -> (r: (u32, u32))
    requires
        0x1C + coi_block_len(nc as int) + sdoi_block_len(ns as int) <= u32::MAX,
    ensures
        r.0 == coi_block_len(nc as int),
        r.1 == sdoi_block_len(ns as int),
        r.0 == len32(coi_block_len(nc as int)),
        r.1 == len32(sdoi_block_len(ns as int)),
{
    let coi_size: u32 = if nc == 0 {
        0
    } else {
        assert(4 + nc * 8 <= u32::MAX);
        (4 + nc * 8) as u32
    };
    let sdoi_size: u32 = if ns == 0 {
        0
    } else {
        let padded: usize = if ns % 4 == 0 {
            ns
        } else {
            ns - ns % 4 + 4
        };
        assert(padded == round_up(ns as int, 4));
        assert(4 + padded + ns * 8 <= u32::MAX);
        (4 + padded + ns * 8) as u32
    };
    (coi_size, sdoi_size)
}

/// Build the ACI0 filesystem access header.
#[verifier::spinoff_prover]
#[verifier::rlimit(30)]
fn build_filesystem_access_header(fs_access: &FilesystemAccess) -> (r: Vec<u8>)
    requires
        fah_fits(*fs_access),
    ensures
        r@ == fah_spec(*fs_access),
{
    let (coi_size, sdoi_size) = owner_block_sizes(
        fs_access.content_owner_ids.len(),
        fs_access.save_data_owner_ids.len(),
    );
    let coi_offset: u32 = 0x1C;
    let mut data: Vec<u8> = Vec::new();
    push_u32(&mut data, 1);
    push_u64(&mut data, fs_access.permissions);
    push_u32(&mut data, coi_offset);
    push_u32(&mut data, coi_size);
    push_u32(&mut data, coi_offset + coi_size);
    push_u32(&mut data, sdoi_size);
    let ghost head = data@;
    assert(head == le32(1) + le64(fs_access.permissions) + le32(0x1C) + le32(
        len32(coi_block_len(fs_access.content_owner_ids@.len() as int)),
    ) + le32(len32(0x1C + coi_size)) + le32(
        len32(sdoi_block_len(fs_access.save_data_owner_ids@.len() as int)),
    ));
    push_coi_block(&mut data, &fs_access.content_owner_ids);
    push_sdoi_block(&mut data, &fs_access.save_data_owner_ids);
    assert(data@ == head + coi_block(fs_access.content_owner_ids@) + sdoi_block(
        fs_access.save_data_owner_ids@,
    ));
    assert(data@ == fah_spec(*fs_access));
    data
}

/// Build the ACID filesystem access control.
fn build_filesystem_access_control(fs_access: &FilesystemAccess) -> (r: Vec<u8>)
    ensures
        r@ == fac_spec(*fs_access),
{
    let mut data: Vec<u8> = Vec::new();
    push4(&mut data, 1, 0, 0, 0);
    push_u64(&mut data, fs_access.permissions);
    push_u64(&mut data, fs_access.content_owner_id_min);
    push_u64(&mut data, fs_access.content_owner_id_max);
    push_u64(&mut data, fs_access.save_data_owner_id_min);
    push_u64(&mut data, fs_access.save_data_owner_id_max);
    assert(data@ =~= fac_spec(*fs_access));
    data
}

/// Build the service access control data.
fn build_service_access_control(sac: &ServiceAccess) -> (r: Vec<u8>)
    ensures
        r@ == sac_bytes(sac.services@),
{
    let ghost services = sac.services@;
    let mut data: Vec<u8> = Vec::new();
    let mut i: usize = 0;
    while i < sac.services.len()
        invariant
            i <= services.len(),
            services == sac.services@,
            data@ == sac_bytes(services.take(i as int)),
        decreases services.len() - i,
    {
        let entry = &sac.services[i];
        let name_bytes = entry.0.as_str().as_bytes();
        let len = if name_bytes.len() < 8 {
            name_bytes.len()
        } else {
            8
        };
        let ghost before = data@;
        if len != 0 {
            let base = (len - 1) as u8;
            let control: u8 = if entry.1 {
                base | 0x80
            } else {
                base
            };
            assert(control == base + 0x80 * bit(entry.1)) by {
                if entry.1 {
                    assert(base | 0x80 == base + 0x80) by (bit_vector)
                        requires
                            base < 8,
                    ;
                }
            }
            data.push(control);
            push_prefix(&mut data, name_bytes, len);
        }
        proof {
            assert(services.take(i + 1).drop_last() =~= services.take(i as int));
            assert(data@ =~= before + sac_entry(services[i as int].0@, services[i as int].1));
        }
        i = i + 1;
    }
    assert(services.take(services.len() as int) =~= services);
    data
}

/// Appends the little-endian words of `vs`.
fn push_words(out: &mut Vec<u8>, vs: &Vec<u32>)
    ensures
        final(out)@ == old(out)@ + le32_all(vs@),
{
    let ghost before = out@;
    let mut k: usize = 0;
    while k < vs.len()
        invariant
            k <= vs.len(),
            out@ == before + le32_all(vs@.take(k as int)),
        decreases vs.len() - k,
    {
        push_u32(out, vs[k]);
        k = k + 1;
        assert(vs@.take(k as int).drop_last() =~= vs@.take(k - 1));
        assert(out@ =~= before + le32_all(vs@.take(k as int)));
    }
    assert(vs@.take(vs.len() as int) =~= vs@);
}

/// Build the kernel capability data: every capability's descriptors.
fn build_kernel_capabilities(capabilities: &[KernelCapability]) -> (r: Vec<u8>)
    ensures
        r@ == kc_bytes(capabilities@),
{
    let mut data: Vec<u8> = Vec::new();
    let mut i: usize = 0;
    while i < capabilities.len()
        invariant
            i <= capabilities@.len(),
            data@ == kc_bytes(capabilities@.take(i as int)),
        decreases capabilities.len() - i,
    {
        let descriptors = capabilities[i].encode();
        push_words(&mut data, &descriptors);
        assert(capabilities@.take(i + 1).drop_last() =~= capabilities@.take(i as int));
        i = i + 1;
    }
    assert(capabilities@.take(capabilities@.len() as int) =~= capabilities@);
    data
}


/// Offset of the SAC data in a section with a `hdr`-byte header: after the
/// FAC data, aligned to 16.
pub open spec fn sac_offset(hdr: int, fac_len: int) -> int {
    round_up(hdr + fac_len, 16)
}

/// Offset of the KC data: after the SAC data, aligned to 16.
pub open spec fn kc_offset(hdr: int, fac_len: int, sac_len: int) -> int {
    round_up(sac_offset(hdr, fac_len) + sac_len, 16)
}

/// Size of a section: up to the end of its KC data.
pub open spec fn section_size(hdr: int, fac_len: int, sac_len: int, kc_len: int) -> int {
    kc_offset(hdr, fac_len, sac_len) + kc_len
}

/// What follows a section's header: FAC, SAC and KC data, each of the last
/// two starting on a 16-byte boundary of the section, zeros in between.
pub open spec fn section_body(hdr: int, fac: Seq<u8>, sac: Seq<u8>, kc: Seq<u8>) -> Seq<u8> {
    let so = sac_offset(hdr, fac.len() as int);
    let ko = kc_offset(hdr, fac.len() as int, sac.len() as int);
    fac + zeros((so - hdr - fac.len()) as nat) + sac + zeros((ko - so - sac.len()) as nat) + kc
}

/// The 16-byte name field: at most 15 bytes of the UTF-8 name, zero-filled.
pub open spec fn npdm_name_field(name: Seq<char>) -> Seq<u8> {
    let b = vstd::utf8::encode_utf8(name);
    let t = if b.len() > 15 {
        b.take(15)
    } else {
        b
    };
    t + zeros((16 - t.len()) as nat)
}

/// The 0x80-byte META header.
pub open spec fn meta_header(m: NpdmMetadata, aci_off: int, aci_size: int, acid_size: int) -> Seq<u8> {
    le32(META_MAGIC) + zeros(8) + seq![m.flags, 0u8, m.main_thread_priority, m.default_cpu_id]
        + zeros(8) + le32(m.version) + le32(m.main_thread_stack_size) + npdm_name_field(m.name@)
        + zeros(64) + le32(aci_off as u32) + le32(aci_size as u32) + le32(META_HEADER_SIZE) + le32(
        acid_size as u32,
    )
}

/// The 0x240-byte ACID header: zeroed signature and key, the size without
/// the signature, flags, program ID range, and the data offsets and sizes.
pub open spec fn acid_header(
    pid_min: u64,
    pid_max: u64,
    flags: u32,
    fac_len: int,
    sac_len: int,
    kc_len: int,
) -> Seq<u8> {
    zeros(0x200) + le32(ACID_MAGIC) + le32(
        (section_size(0x240, fac_len, sac_len, kc_len) - 0x100) as u32,
    ) + zeros(4) + le32(flags) + le64(pid_min) + le64(pid_max) + le32(ACID_HEADER_SIZE) + le32(
        fac_len as u32,
    ) + le32(sac_offset(0x240, fac_len) as u32) + le32(sac_len as u32) + le32(
        kc_offset(0x240, fac_len, sac_len) as u32,
    ) + le32(kc_len as u32) + zeros(8)
}

/// The 0x40-byte ACI0 header: program ID and the data offsets and sizes.
pub open spec fn aci0_header(program_id: u64, fac_len: int, sac_len: int, kc_len: int) -> Seq<u8> {
    le32(ACI0_MAGIC) + zeros(12) + le64(program_id) + zeros(8) + le32(ACI0_HEADER_SIZE) + le32(
        fac_len as u32,
    ) + le32(sac_offset(0x40, fac_len) as u32) + le32(sac_len as u32) + le32(
        kc_offset(0x40, fac_len, sac_len) as u32,
    ) + le32(kc_len as u32) + zeros(8)
}

/// Builder for NPDM files: META header, ACID section, ACI0 section.
///
/// By default the ACID section is empty, as homebrew uses it, and the ACI0
/// section grants the defaults with the metadata's title ID as program ID.
pub struct NpdmBuilder {
    metadata: NpdmMetadata,
    aci: Option<AciData>,
    acid: Option<AcidData>,
}

/// What an [`NpdmBuilder`] holds.
pub struct NpdmBuilderView {
    pub metadata: NpdmMetadata,
    pub aci: Option<AciData>,
    pub acid: Option<AcidData>,
}

impl View for NpdmBuilder {
    type V = NpdmBuilderView;

    closed spec fn view(&self) -> NpdmBuilderView {
        NpdmBuilderView { metadata: self.metadata, aci: self.aci, acid: self.acid }
    }
}

/// The ACI0 program ID and FAC, SAC and KC data a builder lays out.
pub open spec fn aci_parts(v: NpdmBuilderView) -> (u64, Seq<u8>, Seq<u8>, Seq<u8>) {
    match v.aci {
        Some(a) => (
            a.program_id,
            fah_spec(a.filesystem_access),
            sac_bytes(a.service_access.services@),
            kc_bytes(a.kernel_capabilities@),
        ),
        None => (
            v.metadata.title_id,
            fah_bytes(u64::MAX, Seq::empty(), Seq::empty()),
            Seq::empty(),
            Seq::empty(),
        ),
    }
}

/// The ACID program ID range, flags, and FAC, SAC and KC data a builder lays
/// out.
pub open spec fn acid_parts(v: NpdmBuilderView) -> (u64, u64, u32, Seq<u8>, Seq<u8>, Seq<u8>) {
    match v.acid {
        Some(a) => (
            a.program_id_min,
            a.program_id_max,
            a.flags,
            fac_spec(a.filesystem_access),
            sac_bytes(a.service_access.services@),
            kc_bytes(a.kernel_capabilities@),
        ),
        None => (0, u64::MAX, 0, Seq::empty(), Seq::empty(), Seq::empty()),
    }
}

/// Size of the ACID section a builder lays out.
pub open spec fn npdm_acid_size(v: NpdmBuilderView) -> int {
    let p = acid_parts(v);
    section_size(0x240, p.3.len() as int, p.4.len() as int, p.5.len() as int)
}

/// Size of the ACI0 section a builder lays out.
pub open spec fn npdm_aci_size(v: NpdmBuilderView) -> int {
    let p = aci_parts(v);
    section_size(0x40, p.1.len() as int, p.2.len() as int, p.3.len() as int)
}

/// Offset of the ACI0 section: after the ACID section, aligned to 16.
pub open spec fn npdm_aci_offset(v: NpdmBuilderView) -> int {
    round_up(META_HEADER_SIZE + npdm_acid_size(v), 16)
}

/// Whether every offset and size of the image fits its 32-bit field.
pub open spec fn npdm_fits(v: NpdmBuilderView) -> bool {
    &&& v.aci matches Some(a) ==> fah_fits(a.filesystem_access)
    &&& npdm_aci_offset(v) + npdm_aci_size(v) + 15 <= u32::MAX
}

/// The NPDM file a builder holding `v` produces.
pub open spec fn npdm_image(v: NpdmBuilderView) -> Seq<u8> {
    let (program_id, fac, sac, kc) = aci_parts(v);
    let (pid_min, pid_max, flags, afac, asac, akc) = acid_parts(v);
    meta_header(v.metadata, npdm_aci_offset(v), npdm_aci_size(v), npdm_acid_size(v)) + acid_header(
        pid_min,
        pid_max,
        flags,
        afac.len() as int,
        asac.len() as int,
        akc.len() as int,
    ) + section_body(0x240, afac, asac, akc) + zeros(
        (npdm_aci_offset(v) - META_HEADER_SIZE - npdm_acid_size(v)) as nat,
    ) + aci0_header(program_id, fac.len() as int, sac.len() as int, kc.len() as int)
        + section_body(0x40, fac, sac, kc)
}

/// A multiple of 16 at least `n` and less than `n + 16`.
proof fn lemma_round_up_16(n: int)
    requires
        n >= 0,
    ensures
        n <= round_up(n, 16) < n + 16,
        round_up(n, 16) % 16 == 0,
{
}

/// The SAC offset, KC offset and size of a section.
fn section_layout(hdr: u32, fac_len: usize, sac_len: usize, kc_len: usize) -> (r: (u32, u32, u32))
    requires
        section_size(hdr as int, fac_len as int, sac_len as int, kc_len as int) <= u32::MAX,
    ensures
        r.0 == sac_offset(hdr as int, fac_len as int),
        r.1 == kc_offset(hdr as int, fac_len as int, sac_len as int),
        r.2 == section_size(hdr as int, fac_len as int, sac_len as int, kc_len as int),
{
    proof {
        lemma_round_up_16(hdr + fac_len);
        lemma_round_up_16(sac_offset(hdr as int, fac_len as int) + sac_len);
    }
    let so = align_up_16(hdr + fac_len as u32);
    let ko = align_up_16(so + sac_len as u32);
    (so, ko, ko + kc_len as u32)
}

/// `x` rounded up to a multiple of 16.
fn round_up_16_u64(x: u64) -> (r: u64)
    requires
        x <= 0x1_0000_0000_0000,
    ensures
        r == round_up(x as int, 16),
{
    if x % 16 == 0 {
        x
    } else {
        x - x % 16 + 16
    }
}

/// The size of a section whose parts each fit in 32 bits.
fn section_size_exec(hdr: u64, fac_len: u64, sac_len: u64, kc_len: u64) -> (r: u64)
    requires
        hdr <= 0x1000,
        fac_len <= u32::MAX,
        sac_len <= u32::MAX,
        kc_len <= u32::MAX,
    ensures
        r == section_size(hdr as int, fac_len as int, sac_len as int, kc_len as int),
        r <= 0x4_0000_1000,
{
    let so = round_up_16_u64(hdr + fac_len);
    let ko = round_up_16_u64(so + sac_len);
    ko + kc_len
}

/// A section is at least as long as each of its parts.
proof fn lemma_section_size_bounds(hdr: int, fac_len: int, sac_len: int, kc_len: int)
    requires
        hdr >= 0,
        fac_len >= 0,
        sac_len >= 0,
        kc_len >= 0,
    ensures
        section_size(hdr, fac_len, sac_len, kc_len) >= hdr + fac_len + sac_len + kc_len,
{
    lemma_round_up_16(hdr + fac_len);
    lemma_round_up_16(sac_offset(hdr, fac_len) + sac_len);
}

/// Whether the FAH of `fs` fits the 32-bit fields that describe it.
fn fah_fits_exec(fs: &FilesystemAccess) -> (r: bool)
    ensures
        r == fah_fits(*fs),
{
    let nc = fs.content_owner_ids.len() as u128;
    let ns = fs.save_data_owner_ids.len() as u128;
    let cb: u128 = if nc == 0 { 0 } else { 4 + 8 * nc };
    let ns4: u128 = if ns % 4 == 0 { ns } else { ns - ns % 4 + 4 };
    let sb: u128 = if ns == 0 { 0 } else { 4 + ns4 + 8 * ns };
    0x1C + cb + sb <= u32::MAX as u128
}

/// Appends what follows a section's header.
fn push_section_body(
    out: &mut Vec<u8>,
    hdr: u32,
    fac: &Vec<u8>,
    sac: &Vec<u8>,
    kc: &Vec<u8>,
    so: u32,
    ko: u32,
)
    requires
        so == sac_offset(hdr as int, fac@.len() as int),
        ko == kc_offset(hdr as int, fac@.len() as int, sac@.len() as int),
        ko + kc@.len() <= u32::MAX,
    ensures
        final(out)@ == old(out)@ + section_body(hdr as int, fac@, sac@, kc@),
{
    proof {
        lemma_round_up_16(hdr + fac@.len());
        lemma_round_up_16(so + sac@.len());
    }
    push_all(out, fac.as_slice());
    push_zeros(out, (so - hdr) as usize - fac.len());
    push_all(out, sac.as_slice());
    push_zeros(out, (ko - so) as usize - sac.len());
    push_all(out, kc.as_slice());
}

/// Appends the META header.
fn push_meta_header(out: &mut Vec<u8>, m: &NpdmMetadata, aci_off: u32, aci_size: u32, acid_size: u32)
    ensures
        final(out)@ == old(out)@ + meta_header(*m, aci_off as int, aci_size as int, acid_size as int),
{
    push_u32(out, META_MAGIC);
    push_zeros(out, 8);
    push4(out, m.flags, 0, m.main_thread_priority, m.default_cpu_id);
    push_zeros(out, 8);
    push_u32(out, m.version);
    push_u32(out, m.main_thread_stack_size);
    // Program name: at most 15 bytes, null-terminated.
    let name_bytes = m.name.as_str().as_bytes();
    let copy_len = if name_bytes.len() < 15 {
        name_bytes.len()
    } else {
        15
    };
    let ghost before = out@;
    push_prefix(out, name_bytes, copy_len);
    push_zeros(out, 16 - copy_len);
    proof {
        let b = vstd::utf8::encode_utf8(m.name@);
        let t = if b.len() > 15 {
            b.take(15)
        } else {
            b
        };
        assert(name_bytes@.take(copy_len as int) =~= t);
        assert(out@ =~= before + npdm_name_field(m.name@));
    }
    push_zeros(out, 64);
    push_u32(out, aci_off);
    push_u32(out, aci_size);
    push_u32(out, META_HEADER_SIZE);
    push_u32(out, acid_size);
}

/// Appends the ACID header.
fn push_acid_header(
    out: &mut Vec<u8>,
    pid_min: u64,
    pid_max: u64,
    flags: u32,
    fac_len: usize,
    sac_len: usize,
    kc_len: usize,
    so: u32,
    ko: u32,
    size: u32,
)
    requires
        so == sac_offset(0x240, fac_len as int),
        ko == kc_offset(0x240, fac_len as int, sac_len as int),
        size == section_size(0x240, fac_len as int, sac_len as int, kc_len as int),
        size <= u32::MAX,
    ensures
        final(out)@ == old(out)@ + acid_header(
            pid_min,
            pid_max,
            flags,
            fac_len as int,
            sac_len as int,
            kc_len as int,
        ),
{
    proof {
        lemma_round_up_16(0x240 + fac_len);
        lemma_round_up_16(so + sac_len);
    }
    push_zeros(out, 0x200);
    push_u32(out, ACID_MAGIC);
    // The recorded size excludes the 0x100-byte signature.
    push_u32(out, size - 0x100);
    push_zeros(out, 4);
    push_u32(out, flags);
    push_u64(out, pid_min);
    push_u64(out, pid_max);
    push_u32(out, ACID_HEADER_SIZE);
    push_u32(out, fac_len as u32);
    push_u32(out, so);
    push_u32(out, sac_len as u32);
    push_u32(out, ko);
    push_u32(out, kc_len as u32);
    push_zeros(out, 8);
}

/// Appends the ACI0 header.
fn push_aci0_header(
    out: &mut Vec<u8>,
    program_id: u64,
    fac_len: usize,
    sac_len: usize,
    kc_len: usize,
    so: u32,
    ko: u32,
)
    requires
        so == sac_offset(0x40, fac_len as int),
        ko == kc_offset(0x40, fac_len as int, sac_len as int),
        ko + kc_len <= u32::MAX,
    ensures
        final(out)@ == old(out)@ + aci0_header(program_id, fac_len as int, sac_len as int, kc_len as int),
{
    proof {
        lemma_round_up_16(0x40 + fac_len);
        lemma_round_up_16(so + sac_len);
    }
    push_u32(out, ACI0_MAGIC);
    push_zeros(out, 12);
    push_u64(out, program_id);
    push_zeros(out, 8);
    push_u32(out, ACI0_HEADER_SIZE);
    push_u32(out, fac_len as u32);
    push_u32(out, so);
    push_u32(out, sac_len as u32);
    push_u32(out, ko);
    push_u32(out, kc_len as u32);
    push_zeros(out, 8);
}

/// Build the ACI0 FAC, SAC and KC data.
fn build_aci_sections(aci: &AciData) -> (r: (Vec<u8>, Vec<u8>, Vec<u8>))
    requires
        fah_fits(aci.filesystem_access),
    ensures
        r.0@ == fah_spec(aci.filesystem_access),
        r.1@ == sac_bytes(aci.service_access.services@),
        r.2@ == kc_bytes(aci.kernel_capabilities@),
{
    let fac_data = build_filesystem_access_header(&aci.filesystem_access);
    let sac_data = build_service_access_control(&aci.service_access);
    let kc_data = build_kernel_capabilities(aci.kernel_capabilities.as_slice());
    (fac_data, sac_data, kc_data)
}

/// Build the ACID FAC, SAC and KC data.
fn build_acid_sections(acid: &AcidData) -> (r: (Vec<u8>, Vec<u8>, Vec<u8>))
    ensures
        r.0@ == fac_spec(acid.filesystem_access),
        r.1@ == sac_bytes(acid.service_access.services@),
        r.2@ == kc_bytes(acid.kernel_capabilities@),
{
    let fac_data = build_filesystem_access_control(&acid.filesystem_access);
    let sac_data = build_service_access_control(&acid.service_access);
    let kc_data = build_kernel_capabilities(acid.kernel_capabilities.as_slice());
    (fac_data, sac_data, kc_data)
}

impl NpdmBuilder {
    /// Create a builder from the core metadata, with the default (homebrew)
    /// ACI0 and ACID sections.
    pub fn new(metadata: NpdmMetadata) -> (r: Self)
        ensures
            r@ == (NpdmBuilderView { metadata, aci: None, acid: None }),
    {
        NpdmBuilder { metadata, aci: None, acid: None }
    }

    /// Set the ACI0 section data (runtime permissions).
    pub fn with_aci(self, aci: AciData) -> (r: Self)
        ensures
            r@ == (NpdmBuilderView { aci: Some(aci), ..self@ }),
    {
        let mut b = self;
        b.aci = Some(aci);
        b
    }

    /// Set the ACID section data (signed permissions). Homebrew normally
    /// keeps the empty default.
    pub fn with_acid(self, acid: AcidData) -> (r: Self)
        ensures
            r@ == (NpdmBuilderView { acid: Some(acid), ..self@ }),
    {
        let mut b = self;
        b.acid = Some(acid);
        b
    }

    /// Whether every offset and size [`NpdmBuilder::build`] lays out fits its
    /// 32-bit field: [`npdm_fits`].
    #[verifier::rlimit(40)]
    pub fn layout_fits(&self) -> (r: bool)
        ensures
            r == npdm_fits(self@),
    {
        let ghost v = self@;
        let (fl, sl, kl): (usize, usize, usize) = match &self.aci {
            Some(a) => {
                if !fah_fits_exec(&a.filesystem_access) {
                    return false;
                }
                let (f, sc, k) = build_aci_sections(a);
                (f.len(), sc.len(), k.len())
            },
            None => {
                assert(fah_bytes(u64::MAX, Seq::empty(), Seq::empty()).len() == 0x1C);
                (0x1C, 0, 0)
            },
        };
        let (afl, asl, akl): (usize, usize, usize) = match &self.acid {
            Some(a) => {
                let (f, sc, k) = build_acid_sections(a);
                (f.len(), sc.len(), k.len())
            },
            None => (0, 0, 0),
        };
        assert(aci_parts(v).1.len() == fl && aci_parts(v).2.len() == sl && aci_parts(v).3.len() == kl);
        assert(acid_parts(v).3.len() == afl && acid_parts(v).4.len() == asl && acid_parts(v).5.len() == akl);
        let limit = u32::MAX as usize;
        if fl > limit || sl > limit || kl > limit || afl > limit || asl > limit || akl > limit {
            proof {
                lemma_section_size_bounds(0x240, afl as int, asl as int, akl as int);
                lemma_section_size_bounds(0x40, fl as int, sl as int, kl as int);
                lemma_round_up_16(META_HEADER_SIZE + npdm_acid_size(v));
            }
            return false;
        }
        let acid_size = section_size_exec(0x240, afl as u64, asl as u64, akl as u64);
        let aci_size = section_size_exec(0x40, fl as u64, sl as u64, kl as u64);
        let aci_offset = round_up_16_u64(0x80 + acid_size);
        aci_offset + aci_size + 15 <= u32::MAX as u64
    }

    /// Build the NPDM file when [`NpdmBuilder::layout_fits`] holds, and
    /// `None` otherwise.
    pub fn try_build(self) -> (r: Option<Vec<u8>>)
        ensures
            r is Some <==> npdm_fits(self@),
            r matches Some(b) ==> b@ == npdm_image(self@),
    {
        if self.layout_fits() {
            Some(self.build())
        } else {
            None
        }
    }

    /// Build the NPDM file: the META header at 0, the ACID section at 0x80,
    /// the ACI0 section after it on a 16-byte boundary.
    pub fn build(self) -> (r: Vec<u8>)
        requires
            npdm_fits(self@),
        ensures
            r@ == npdm_image(self@),
    {
        let ghost v = self@;
        let NpdmBuilder { metadata, aci, acid } = self;
        let aci = match aci {
            Some(a) => a,
            None => {
                // Without explicit ACI0 data the program ID is the title ID.
                let mut d = AciData::default();
                d.program_id = metadata.title_id;
                d
            },
        };
        let acid_set = acid.is_some();
        let acid = match acid {
            Some(a) => a,
            None => AcidData::default(),
        };
        proof {
            if v.aci is None {
                assert(aci.filesystem_access.content_owner_ids@ =~= Seq::<u64>::empty());
                assert(aci.filesystem_access.save_data_owner_ids@ =~= Seq::<SaveDataOwnerId>::empty());
                assert(aci.service_access.services@ =~= Seq::<(String, bool)>::empty());
                assert(aci.kernel_capabilities@ =~= Seq::<KernelCapability>::empty());
            }
            if v.acid is None {
                assert(acid.service_access.services@ =~= Seq::<(String, bool)>::empty());
                assert(acid.kernel_capabilities@ =~= Seq::<KernelCapability>::empty());
            }
        }
        let (fac, sac, kc) = build_aci_sections(&aci);
        // Without explicit ACID data the section is the header alone.
        let (afac, asac, akc) = if acid_set {
            build_acid_sections(&acid)
        } else {
            (Vec::new(), Vec::new(), Vec::new())
        };
        assert(aci_parts(v) == (aci.program_id, fac@, sac@, kc@));
        assert(acid_parts(v) == (acid.program_id_min, acid.program_id_max, acid.flags, afac@, asac@, akc@));
        proof {
            lemma_round_up_16(META_HEADER_SIZE + npdm_acid_size(v));
        }
        let (acid_so, acid_ko, acid_size) = section_layout(
            ACID_HEADER_SIZE,
            afac.len(),
            asac.len(),
            akc.len(),
        );
        let aci_off = align_up_16(META_HEADER_SIZE + acid_size);
        let (so, ko, aci_size) = section_layout(ACI0_HEADER_SIZE, fac.len(), sac.len(), kc.len());

        let mut out: Vec<u8> = Vec::new();
        push_meta_header(&mut out, &metadata, aci_off, aci_size, acid_size);
        push_acid_header(
            &mut out,
            acid.program_id_min,
            acid.program_id_max,
            acid.flags,
            afac.len(),
            asac.len(),
            akc.len(),
            acid_so,
            acid_ko,
            acid_size,
        );
        push_section_body(&mut out, ACID_HEADER_SIZE, &afac, &asac, &akc, acid_so, acid_ko);
        push_zeros(&mut out, (aci_off - META_HEADER_SIZE - acid_size) as usize);
        push_aci0_header(&mut out, aci.program_id, fac.len(), sac.len(), kc.len(), so, ko);
        push_section_body(&mut out, ACI0_HEADER_SIZE, &fac, &sac, &kc, so, ko);
        out
    }
}


/// The name field is 16 bytes long.
proof fn lemma_name_field_len(name: Seq<char>)
    ensures
        npdm_name_field(name).len() == 16,
{
}

/// The META header's words and fields, read back at their offsets.
#[verifier::spinoff_prover]
#[verifier::rlimit(40)]
proof fn lemma_meta_header_words(m: NpdmMetadata, aci_off: int, aci_size: int, acid_size: int)
    requires
        0 <= aci_off <= u32::MAX,
        0 <= aci_size <= u32::MAX,
        0 <= acid_size <= u32::MAX,
    ensures
        ({
            let h = meta_header(m, aci_off, aci_size, acid_size);
            &&& h.len() == 0x80
            &&& u32_of(h, 0) == META_MAGIC
            &&& h[0xC] == m.flags
            &&& h[0xE] == m.main_thread_priority
            &&& h[0xF] == m.default_cpu_id
            &&& u32_of(h, 0x18) == m.version
            &&& u32_of(h, 0x1C) == m.main_thread_stack_size
            &&& h.subrange(0x20, 0x30) == npdm_name_field(m.name@)
            &&& u32_of(h, 0x70) == aci_off
            &&& u32_of(h, 0x74) == aci_size
            &&& u32_of(h, 0x78) == META_HEADER_SIZE
            &&& u32_of(h, 0x7C) == acid_size
        }),
{
    lemma_name_field_len(m.name@);
    let p1 = le32(META_MAGIC) + zeros(8) + seq![m.flags, 0u8, m.main_thread_priority, m.default_cpu_id]
        + zeros(8) + le32(m.version);
    let p2 = p1 + le32(m.main_thread_stack_size);
    let p3 = p2 + npdm_name_field(m.name@);
    let p4 = p3 + zeros(64);
    let p5 = p4 + le32(aci_off as u32);
    let p6 = p5 + le32(aci_size as u32);
    let p7 = p6 + le32(META_HEADER_SIZE);
    let h = p7 + le32(acid_size as u32);
    assert(meta_header(m, aci_off, aci_size, acid_size) == h);
    lemma_word_appended(Seq::empty(), META_MAGIC);
    assert(Seq::<u8>::empty() + le32(META_MAGIC) =~= le32(META_MAGIC));
    lemma_words_kept(le32(META_MAGIC), zeros(8));
    lemma_words_kept(le32(META_MAGIC) + zeros(8), seq![m.flags, 0u8, m.main_thread_priority, m.default_cpu_id]);
    lemma_words_kept(
        le32(META_MAGIC) + zeros(8) + seq![m.flags, 0u8, m.main_thread_priority, m.default_cpu_id],
        zeros(8),
    );
    lemma_words_kept(
        le32(META_MAGIC) + zeros(8) + seq![m.flags, 0u8, m.main_thread_priority, m.default_cpu_id]
            + zeros(8),
        le32(m.version),
    );
    lemma_word_appended(
        le32(META_MAGIC) + zeros(8) + seq![m.flags, 0u8, m.main_thread_priority, m.default_cpu_id]
            + zeros(8),
        m.version,
    );
    lemma_word_appended(p1, m.main_thread_stack_size);
    lemma_word_appended(p4, aci_off as u32);
    lemma_word_appended(p5, aci_size as u32);
    lemma_word_appended(p6, META_HEADER_SIZE);
    lemma_word_appended(p7, acid_size as u32);
    lemma_words_kept(p1, le32(m.main_thread_stack_size));
    lemma_words_kept(p2, npdm_name_field(m.name@));
    lemma_words_kept(p3, zeros(64));
    lemma_words_kept(p4, le32(aci_off as u32));
    lemma_words_kept(p5, le32(aci_size as u32));
    lemma_words_kept(p6, le32(META_HEADER_SIZE));
    lemma_words_kept(p7, le32(acid_size as u32));
    assert(h[0xC] == m.flags);
    assert(h[0xE] == m.main_thread_priority);
    assert(h[0xF] == m.default_cpu_id);
    assert(h.subrange(0x20, 0x30) =~= npdm_name_field(m.name@));
}

/// The ACID header's magic and program ID range, read back at their
/// offsets.
#[verifier::spinoff_prover]
#[verifier::rlimit(40)]
proof fn lemma_acid_header_words(pid_min: u64, pid_max: u64, flags: u32, fac_len: int, sac_len: int, kc_len: int)
    ensures
        ({
            let h = acid_header(pid_min, pid_max, flags, fac_len, sac_len, kc_len);
            &&& h.len() == 0x240
            &&& u32_of(h, 0x200) == ACID_MAGIC
            &&& u32_of(h, 0x20C) == flags
            &&& u64_of(h, 0x210) == pid_min
            &&& u64_of(h, 0x218) == pid_max
        }),
{
    let p0 = zeros(0x200);
    let p1 = p0 + le32(ACID_MAGIC);
    let p2 = p1 + le32((section_size(0x240, fac_len, sac_len, kc_len) - 0x100) as u32);
    let p3 = p2 + zeros(4);
    let p4 = p3 + le32(flags);
    let p5 = p4 + le64(pid_min);
    let p6 = p5 + le64(pid_max);
    let p7 = p6 + le32(ACID_HEADER_SIZE);
    let p8 = p7 + le32(fac_len as u32);
    let p9 = p8 + le32(sac_offset(0x240, fac_len) as u32);
    let p10 = p9 + le32(sac_len as u32);
    let p11 = p10 + le32(kc_offset(0x240, fac_len, sac_len) as u32);
    let p12 = p11 + le32(kc_len as u32);
    let h = p12 + zeros(8);
    assert(acid_header(pid_min, pid_max, flags, fac_len, sac_len, kc_len) == h);
    lemma_word_appended(p0, ACID_MAGIC);
    lemma_word_appended(p3, flags);
    lemma_u64_appended(p4, pid_min);
    lemma_u64_appended(p5, pid_max);
    lemma_words_kept(p1, le32((section_size(0x240, fac_len, sac_len, kc_len) - 0x100) as u32));
    lemma_words_kept(p2, zeros(4));
    lemma_words_kept(p3, le32(flags));
    lemma_words_kept(p4, le64(pid_min));
    lemma_words_kept(p5, le64(pid_max));
    lemma_words_kept(p6, le32(ACID_HEADER_SIZE));
    lemma_words_kept(p7, le32(fac_len as u32));
    lemma_words_kept(p8, le32(sac_offset(0x240, fac_len) as u32));
    lemma_words_kept(p9, le32(sac_len as u32));
    lemma_words_kept(p10, le32(kc_offset(0x240, fac_len, sac_len) as u32));
    lemma_words_kept(p11, le32(kc_len as u32));
    lemma_words_kept(p12, zeros(8));
}

/// The ACI0 header's magic, program ID and kernel capability data place,
/// read back at their offsets.
#[verifier::spinoff_prover]
#[verifier::rlimit(40)]
proof fn lemma_aci0_header_words(program_id: u64, fac_len: int, sac_len: int, kc_len: int)
    ensures
        ({
            let h = aci0_header(program_id, fac_len, sac_len, kc_len);
            &&& h.len() == 0x40
            &&& u32_of(h, 0) == ACI0_MAGIC
            &&& u64_of(h, 0x10) == program_id
            &&& u32_of(h, 0x20) == 0x40
            &&& u32_of(h, 0x24) == fac_len as u32
            &&& u32_of(h, 0x28) == sac_offset(0x40, fac_len) as u32
            &&& u32_of(h, 0x2C) == sac_len as u32
            &&& u32_of(h, 0x30) == kc_offset(0x40, fac_len, sac_len) as u32
            &&& u32_of(h, 0x34) == kc_len as u32
        }),
{
    let p1 = le32(ACI0_MAGIC);
    let p2 = p1 + zeros(12);
    let p3 = p2 + le64(program_id);
    let p4 = p3 + zeros(8);
    let p5 = p4 + le32(ACI0_HEADER_SIZE);
    let p6 = p5 + le32(fac_len as u32);
    let p7 = p6 + le32(sac_offset(0x40, fac_len) as u32);
    let p8 = p7 + le32(sac_len as u32);
    let p9 = p8 + le32(kc_offset(0x40, fac_len, sac_len) as u32);
    let p10 = p9 + le32(kc_len as u32);
    let h = p10 + zeros(8);
    assert(aci0_header(program_id, fac_len, sac_len, kc_len) == h);
    lemma_word_appended(Seq::empty(), ACI0_MAGIC);
    assert(Seq::<u8>::empty() + le32(ACI0_MAGIC) =~= p1);
    lemma_u64_appended(p2, program_id);
    lemma_word_appended(p4, ACI0_HEADER_SIZE);
    lemma_word_appended(p5, fac_len as u32);
    lemma_word_appended(p6, sac_offset(0x40, fac_len) as u32);
    lemma_word_appended(p7, sac_len as u32);
    lemma_word_appended(p8, kc_offset(0x40, fac_len, sac_len) as u32);
    lemma_word_appended(p9, kc_len as u32);
    lemma_words_kept(p1, zeros(12));
    lemma_words_kept(p2, le64(program_id));
    lemma_words_kept(p3, zeros(8));
    lemma_words_kept(p4, le32(ACI0_HEADER_SIZE));
    lemma_words_kept(p5, le32(fac_len as u32));
    lemma_words_kept(p6, le32(sac_offset(0x40, fac_len) as u32));
    lemma_words_kept(p7, le32(sac_len as u32));
    lemma_words_kept(p8, le32(kc_offset(0x40, fac_len, sac_len) as u32));
    lemma_words_kept(p9, le32(kc_len as u32));
    lemma_words_kept(p10, zeros(8));
}


/// A section's body: as long as the section less its header, with the
/// kernel capability data at its offset.
proof fn lemma_section_body(hdr: int, fac: Seq<u8>, sac: Seq<u8>, kc: Seq<u8>)
    requires
        0 <= hdr,
    ensures
        ({
            let body = section_body(hdr, fac, sac, kc);
            let ko = kc_offset(hdr, fac.len() as int, sac.len() as int);
            &&& hdr + fac.len() <= sac_offset(hdr, fac.len() as int)
            &&& sac_offset(hdr, fac.len() as int) + sac.len() <= ko
            &&& body.len() == section_size(hdr, fac.len() as int, sac.len() as int, kc.len() as int) - hdr
            &&& body.subrange(ko - hdr, ko - hdr + kc.len()) == kc
            &&& body.subrange(0, fac.len() as int) == fac
            &&& body.subrange(
                sac_offset(hdr, fac.len() as int) - hdr,
                sac_offset(hdr, fac.len() as int) - hdr + sac.len(),
            ) == sac
        }),
{
    let body = section_body(hdr, fac, sac, kc);
    let so = sac_offset(hdr, fac.len() as int);
    let ko = kc_offset(hdr, fac.len() as int, sac.len() as int);
    assert(body.subrange(ko - hdr, ko - hdr + kc.len()) =~= kc);
    assert(body.subrange(0, fac.len() as int) =~= fac);
    assert(body.subrange(so - hdr, so - hdr + sac.len()) =~= sac);
}

/// A buffer laid out as META header, ACID header and body, padding, ACI0
/// header and body, whose headers hold these words: the NPDM reader
/// accepts it and reads them back.
#[verifier::spinoff_prover]
#[verifier::rlimit(40)]
proof fn lemma_npdm_layout_reads(
    b: Seq<u8>,
    parts: (Seq<u8>, Seq<u8>, Seq<u8>, Seq<u8>, Seq<u8>, Seq<u8>),
    kc_at: int,
    kc: Seq<u8>,
    fac: Seq<u8>,
    sac_at: int,
    sac: Seq<u8>,
)
    requires
        ({
            let (m, a, ab, z, c, cb) = parts;
            let acid_size = a.len() + ab.len();
            let aci_off = 0x80 + acid_size + z.len();
            let aci_size = 0x40 + cb.len();
            &&& b == m + a + ab + z + c + cb
            &&& m.len() == 0x80
            &&& a.len() == 0x240
            &&& c.len() == 0x40
            &&& aci_off + aci_size <= u32::MAX
            &&& u32_of(m, 0) == META_MAGIC
            &&& u32_of(m, 0x70) == aci_off
            &&& u32_of(m, 0x74) == aci_size
            &&& u32_of(m, 0x78) == 0x80
            &&& u32_of(m, 0x7C) == acid_size
            &&& u32_of(a, 0x200) == ACID_MAGIC
            &&& u32_of(c, 0) == ACI0_MAGIC
            &&& u32_of(c, 0x30) == 0x40 + kc_at
            &&& u32_of(c, 0x34) == kc.len()
            &&& 0 <= kc_at
            &&& kc_at + kc.len() <= cb.len()
            &&& cb.subrange(kc_at, kc_at + kc.len()) == kc
            &&& u32_of(c, 0x20) == 0x40
            &&& u32_of(c, 0x24) == fac.len()
            &&& u32_of(c, 0x28) == 0x40 + sac_at
            &&& u32_of(c, 0x2C) == sac.len()
            &&& fac.len() <= cb.len()
            &&& cb.subrange(0, fac.len() as int) == fac
            &&& 0 <= sac_at
            &&& sac_at + sac.len() <= cb.len()
            &&& cb.subrange(sac_at, sac_at + sac.len()) == sac
        }),
    ensures
        ({
            let (m, a, ab, z, c, cb) = parts;
            &&& npdm_error(b) is None
            &&& npdm_meta(b).main_thread_priority == m[0xE]
            &&& npdm_meta(b).main_thread_stack_size == u32_of(m, 0x1C)
            &&& npdm_meta(b).flags == m[0xC]
            &&& npdm_meta(b).main_thread_core_number == m[0xF]
            &&& npdm_meta(b).version == u32_of(m, 0x18)
            &&& b.subrange(0x20, 0x30) == m.subrange(0x20, 0x30)
            &&& npdm_acid(b).flags == u32_of(a, 0x20C)
            &&& npdm_acid(b).program_id_min == u64_of(a, 0x210)
            &&& npdm_acid(b).program_id_max == u64_of(a, 0x218)
            &&& npdm_aci0(b).program_id == u64_of(c, 0x10)
            &&& aci0_section(b, "KC", npdm_aci0(b).kc_offset, npdm_aci0(b).kc_size) == Ok::<
                Seq<u8>,
                crate::read::npdm::FromBytesError,
            >(kc)
            &&& aci0_section(b, "FAC", npdm_aci0(b).fac_offset, npdm_aci0(b).fac_size) == Ok::<
                Seq<u8>,
                crate::read::npdm::FromBytesError,
            >(fac)
            &&& aci0_section(b, "SAC", npdm_aci0(b).sac_offset, npdm_aci0(b).sac_size) == Ok::<
                Seq<u8>,
                crate::read::npdm::FromBytesError,
            >(sac)
        }),
{
    let (m, a, ab, z, c, cb) = parts;
    let s2 = m + a;
    let s3 = s2 + ab;
    let s4 = s3 + z;
    let s5 = s4 + c;
    assert(b == s5 + cb);
    let aci_off = s4.len() as int;
    lemma_words_kept(m, a);
    lemma_words_kept(s2, ab);
    lemma_words_kept(s3, z);
    lemma_words_kept(s4, c);
    lemma_words_kept(s5, cb);
    lemma_words_shifted(m, a);
    lemma_words_shifted(s4, c);
    assert(u32_of(b, 0x1C) == u32_of(m, 0x1C));
    assert(u32_of(b, 0x18) == u32_of(m, 0x18));
    assert(u32_of(b, 0x80int + 0x20C) == u32_of(a, 0x20C));
    assert(u32_of(b, aci_off + 0x20) == u32_of(c, 0x20));
    assert(u32_of(b, aci_off + 0x24) == u32_of(c, 0x24));
    assert(u32_of(b, aci_off + 0x28) == u32_of(c, 0x28));
    assert(u32_of(b, aci_off + 0x2C) == u32_of(c, 0x2C));
    assert(u32_of(b, 0x80int + 0x200) == u32_of(a, 0x200));
    assert(u32_of(b, 0x80int + 0x210) == u32_of(a, 0x210));
    assert(u32_of(b, 0x80int + 0x214) == u32_of(a, 0x214));
    assert(u32_of(b, 0x80int + 0x218) == u32_of(a, 0x218));
    assert(u32_of(b, 0x80int + 0x21C) == u32_of(a, 0x21C));
    assert(u32_of(b, aci_off) == u32_of(c, 0));
    assert(u32_of(b, aci_off + 0x10) == u32_of(c, 0x10));
    assert(u32_of(b, aci_off + 0x14) == u32_of(c, 0x14));
    assert(u32_of(b, aci_off + 0x30) == u32_of(c, 0x30));
    assert(u32_of(b, aci_off + 0x34) == u32_of(c, 0x34));
    lemma_npdm_header_at_words(b);
    lemma_acid_header_at_words(b, 0x80);
    lemma_aci0_header_at_words(b, aci_off);
    assert(b[0xC] == m[0xC]);
    assert(b[0xE] == m[0xE]);
    assert(b[0xF] == m[0xF]);
    assert(b.subrange(0x20, 0x30) =~= m.subrange(0x20, 0x30));
    let start = aci_off + 0x40 + kc_at;
    assert(b.subrange(start, start + kc.len()) =~= cb.subrange(kc_at, kc_at + kc.len()));
    let fstart = aci_off + 0x40;
    assert(b.subrange(fstart, fstart + fac.len()) =~= cb.subrange(0, fac.len() as int));
    let sstart = aci_off + 0x40 + sac_at;
    assert(b.subrange(sstart, sstart + sac.len()) =~= cb.subrange(sac_at, sac_at + sac.len()));
}


/// An NPDM written by the builder is accepted by the NPDM reader and reads
/// back as written: the flags, main thread priority, default CPU, version
/// and stack size, the name field, the ACID flags and program ID range, the
/// ACI0 program ID and the ACI0 filesystem access, service access and
/// kernel capability data.
#[verifier::spinoff_prover]
#[verifier::rlimit(40)]
pub proof fn lemma_built_npdm_reads_back(v: NpdmBuilderView)
    requires
        npdm_fits(v),
    ensures
        ({
            let b = npdm_image(v);
            let (program_id, fac, sac, kc) = aci_parts(v);
            let (pid_min, pid_max, flags, afac, asac, akc) = acid_parts(v);
            &&& npdm_error(b) is None
            &&& npdm_meta(b).main_thread_priority == v.metadata.main_thread_priority
            &&& npdm_meta(b).main_thread_stack_size == v.metadata.main_thread_stack_size
            &&& npdm_meta(b).flags == v.metadata.flags
            &&& npdm_meta(b).main_thread_core_number == v.metadata.default_cpu_id
            &&& npdm_meta(b).version == v.metadata.version
            &&& b.subrange(0x20, 0x30) == npdm_name_field(v.metadata.name@)
            &&& npdm_acid(b).flags == flags
            &&& npdm_acid(b).program_id_min == pid_min
            &&& npdm_acid(b).program_id_max == pid_max
            &&& npdm_aci0(b).program_id == program_id
            &&& aci0_section(b, "KC", npdm_aci0(b).kc_offset, npdm_aci0(b).kc_size) == Ok::<
                Seq<u8>,
                crate::read::npdm::FromBytesError,
            >(kc)
            &&& aci0_section(b, "FAC", npdm_aci0(b).fac_offset, npdm_aci0(b).fac_size) == Ok::<
                Seq<u8>,
                crate::read::npdm::FromBytesError,
            >(fac)
            &&& aci0_section(b, "SAC", npdm_aci0(b).sac_offset, npdm_aci0(b).sac_size) == Ok::<
                Seq<u8>,
                crate::read::npdm::FromBytesError,
            >(sac)
        }),
{
    let (program_id, fac, sac, kc) = aci_parts(v);
    let (pid_min, pid_max, flags, afac, asac, akc) = acid_parts(v);
    let acid_size = npdm_acid_size(v);
    let aci_size = npdm_aci_size(v);
    let aci_off = npdm_aci_offset(v);
    lemma_section_body(0x240, afac, asac, akc);
    lemma_section_body(0x40, fac, sac, kc);
    let m = meta_header(v.metadata, aci_off, aci_size, acid_size);
    let a = acid_header(pid_min, pid_max, flags, afac.len() as int, asac.len() as int, akc.len() as int);
    let ab = section_body(0x240, afac, asac, akc);
    let z = zeros((aci_off - META_HEADER_SIZE - acid_size) as nat);
    let c = aci0_header(program_id, fac.len() as int, sac.len() as int, kc.len() as int);
    let cb = section_body(0x40, fac, sac, kc);
    lemma_meta_header_words(v.metadata, aci_off, aci_size, acid_size);
    lemma_acid_header_words(pid_min, pid_max, flags, afac.len() as int, asac.len() as int, akc.len() as int);
    lemma_aci0_header_words(program_id, fac.len() as int, sac.len() as int, kc.len() as int);
    assert(npdm_image(v) == m + a + ab + z + c + cb);
    let ko = kc_offset(0x40, fac.len() as int, sac.len() as int);
    let so = sac_offset(0x40, fac.len() as int);
    lemma_npdm_layout_reads(npdm_image(v), (m, a, ab, z, c, cb), ko - 0x40, kc, fac, so - 0x40, sac);
}

} // verus!
