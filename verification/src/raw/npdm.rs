//! NPDM headers: META, ACID and ACI0.

use vstd::prelude::*;

use crate::bytes::{read_array, read_u32, read_u64, u32_of, u64_of};

verus! {

/// Size of the META header.
pub const NPDM_HEADER_SIZE: usize = 0x80;

/// Size of the ACID header.
pub const ACID_HEADER_SIZE: usize = 0x240;

/// Size of the ACI0 header.
pub const ACI0_HEADER_SIZE: usize = 0x40;

/// The META header (0x80 bytes): program metadata and the offsets of the
/// ACID and ACI0 sections.
#[derive(Debug, Clone, Copy, PartialEq, Eq)]
pub struct NpdmHeader {
    /// Magic number ("META")
    pub magic: u32,
    /// Signature key generation
    pub signature_key_generation: u32,
    /// Flags
    pub flags: u8,
    /// Main thread priority (0-63, higher = lower priority)
    pub main_thread_priority: u8,
    /// Default CPU core of the main thread
    pub main_thread_core_number: u8,
    /// System resource size
    pub system_resource_size: u32,
    /// Program version
    pub version: u32,
    /// Main thread stack size in bytes
    pub main_thread_stack_size: u32,
    /// Program name (UTF-8, null-terminated)
    pub name: [u8; 16],
    /// Product code
    pub product_code: [u8; 16],
    /// Offset of the ACI0 section
    pub aci_offset: u32,
    /// Size of the ACI0 section
    pub aci_size: u32,
    /// Offset of the ACID section
    pub acid_offset: u32,
    /// Size of the ACID section
    pub acid_size: u32,
}

/// The ACID header (0x240 bytes).
#[derive(Debug, Clone, Copy, PartialEq, Eq)]
pub struct AcidHeader {
    /// Magic number ("ACID")
    pub magic: u32,
    /// Size of the section without the 0x100-byte signature
    pub size: u32,
    /// ACID version
    pub version: u8,
    /// Flags
    pub flags: u32,
    /// Minimum program ID
    pub program_id_min: u64,
    /// Maximum program ID
    pub program_id_max: u64,
    /// Offset of the FAC data (from the ACID start)
    pub fac_offset: u32,
    /// Size of the FAC data
    pub fac_size: u32,
    /// Offset of the SAC data
    pub sac_offset: u32,
    /// Size of the SAC data
    pub sac_size: u32,
    /// Offset of the KC data
    pub kc_offset: u32,
    /// Size of the KC data
    pub kc_size: u32,
}

/// The ACI0 header (0x40 bytes).
#[derive(Debug, Clone, Copy, PartialEq, Eq)]
pub struct Aci0Header {
    /// Magic number ("ACI0")
    pub magic: u32,
    /// Program ID
    pub program_id: u64,
    /// Offset of the FAC data (from the ACI0 start)
    pub fac_offset: u32,
    /// Size of the FAC data
    pub fac_size: u32,
    /// Offset of the SAC data
    pub sac_offset: u32,
    /// Size of the SAC data
    pub sac_size: u32,
    /// Offset of the KC data
    pub kc_offset: u32,
    /// Size of the KC data
    pub kc_size: u32,
}

/// The META header decoded from the first 0x80 bytes.
#[verifier::opaque]
pub open spec fn npdm_header_at(b: Seq<u8>) -> NpdmHeader {
    NpdmHeader {
        magic: u32_of(b, 0),
        signature_key_generation: u32_of(b, 4),
        flags: b[0xC],
        main_thread_priority: b[0xE],
        main_thread_core_number: b[0xF],
        system_resource_size: u32_of(b, 0x14),
        version: u32_of(b, 0x18),
        main_thread_stack_size: u32_of(b, 0x1C),
        name: array16_of(b.subrange(0x20, 0x30)),
        product_code: array16_of(b.subrange(0x30, 0x40)),
        aci_offset: u32_of(b, 0x70),
        aci_size: u32_of(b, 0x74),
        acid_offset: u32_of(b, 0x78),
        acid_size: u32_of(b, 0x7C),
    }
}

/// The 16-byte array holding `s`.
pub open spec fn array16_of(s: Seq<u8>) -> [u8; 16] {
    choose|a: [u8; 16]| a@ == s
}

/// The ACID header decoded at `at`.
#[verifier::opaque]
pub open spec fn acid_header_at(b: Seq<u8>, at: int) -> AcidHeader {
    AcidHeader {
        magic: u32_of(b, at + 0x200),
        size: u32_of(b, at + 0x204),
        version: b[at + 0x208],
        flags: u32_of(b, at + 0x20C),
        program_id_min: u64_of(b, at + 0x210),
        program_id_max: u64_of(b, at + 0x218),
        fac_offset: u32_of(b, at + 0x220),
        fac_size: u32_of(b, at + 0x224),
        sac_offset: u32_of(b, at + 0x228),
        sac_size: u32_of(b, at + 0x22C),
        kc_offset: u32_of(b, at + 0x230),
        kc_size: u32_of(b, at + 0x234),
    }
}

/// The ACI0 header decoded at `at`.
#[verifier::opaque]
pub open spec fn aci0_header_at(b: Seq<u8>, at: int) -> Aci0Header {
    Aci0Header {
        magic: u32_of(b, at),
        program_id: u64_of(b, at + 0x10),
        fac_offset: u32_of(b, at + 0x20),
        fac_size: u32_of(b, at + 0x24),
        sac_offset: u32_of(b, at + 0x28),
        sac_size: u32_of(b, at + 0x2C),
        kc_offset: u32_of(b, at + 0x30),
        kc_size: u32_of(b, at + 0x34),
    }
}

/// Decodes the META header.
pub fn read_npdm_header(b: &[u8]) -> (r: NpdmHeader)
    requires
        b.len() >= NPDM_HEADER_SIZE,
    ensures
        r == npdm_header_at(b@),
{
    reveal(npdm_header_at);
    let name: [u8; 16] = read_array(b, 0x20);
    let product_code: [u8; 16] = read_array(b, 0x30);
    let r = NpdmHeader {
        magic: read_u32(b, 0),
        signature_key_generation: read_u32(b, 4),
        flags: b[0xC],
        main_thread_priority: b[0xE],
        main_thread_core_number: b[0xF],
        system_resource_size: read_u32(b, 0x14),
        version: read_u32(b, 0x18),
        main_thread_stack_size: read_u32(b, 0x1C),
        name,
        product_code,
        aci_offset: read_u32(b, 0x70),
        aci_size: read_u32(b, 0x74),
        acid_offset: read_u32(b, 0x78),
        acid_size: read_u32(b, 0x7C),
    };
    proof {
        let n = array16_of(b@.subrange(0x20, 0x30));
        let p = array16_of(b@.subrange(0x30, 0x40));
        assert(n@ == name@);
        assert(p@ == product_code@);
        assert(n =~= name);
        assert(p =~= product_code);
    }
    r
}

/// Decodes the ACID header at `at`.
pub fn read_acid_header(b: &[u8], at: usize) -> (r: AcidHeader)
    requires
        at + ACID_HEADER_SIZE <= b.len(),
    ensures
        r == acid_header_at(b@, at as int),
{
    reveal(acid_header_at);
    AcidHeader {
        magic: read_u32(b, at + 0x200),
        size: read_u32(b, at + 0x204),
        version: b[at + 0x208],
        flags: read_u32(b, at + 0x20C),
        program_id_min: read_u64(b, at + 0x210),
        program_id_max: read_u64(b, at + 0x218),
        fac_offset: read_u32(b, at + 0x220),
        fac_size: read_u32(b, at + 0x224),
        sac_offset: read_u32(b, at + 0x228),
        sac_size: read_u32(b, at + 0x22C),
        kc_offset: read_u32(b, at + 0x230),
        kc_size: read_u32(b, at + 0x234),
    }
}

/// Decodes the ACI0 header at `at`.
pub fn read_aci0_header(b: &[u8], at: usize) -> (r: Aci0Header)
    requires
        at + ACI0_HEADER_SIZE <= b.len(),
    ensures
        r == aci0_header_at(b@, at as int),
{
    reveal(aci0_header_at);
    Aci0Header {
        magic: read_u32(b, at),
        program_id: read_u64(b, at + 0x10),
        fac_offset: read_u32(b, at + 0x20),
        fac_size: read_u32(b, at + 0x24),
        sac_offset: read_u32(b, at + 0x28),
        sac_size: read_u32(b, at + 0x2C),
        kc_offset: read_u32(b, at + 0x30),
        kc_size: read_u32(b, at + 0x34),
    }
}


/// The words of the decoded ACID header, each read at its offset.
pub proof fn lemma_acid_header_at_words(b: Seq<u8>, at: int)
    ensures
        acid_header_at(b, at).magic == u32_of(b, at + 0x200),
        acid_header_at(b, at).flags == u32_of(b, at + 0x20C),
        acid_header_at(b, at).program_id_min == u64_of(b, at + 0x210),
        acid_header_at(b, at).program_id_max == u64_of(b, at + 0x218),
{
    reveal(acid_header_at);
}

/// The words of the decoded ACI0 header, each read at its offset.
pub proof fn lemma_aci0_header_at_words(b: Seq<u8>, at: int)
    ensures
        aci0_header_at(b, at).magic == u32_of(b, at),
        aci0_header_at(b, at).program_id == u64_of(b, at + 0x10),
        aci0_header_at(b, at).fac_offset == u32_of(b, at + 0x20),
        aci0_header_at(b, at).fac_size == u32_of(b, at + 0x24),
        aci0_header_at(b, at).sac_offset == u32_of(b, at + 0x28),
        aci0_header_at(b, at).sac_size == u32_of(b, at + 0x2C),
        aci0_header_at(b, at).kc_offset == u32_of(b, at + 0x30),
        aci0_header_at(b, at).kc_size == u32_of(b, at + 0x34),
{
    reveal(aci0_header_at);
}


/// The words and bytes of the decoded META header, each read at its
/// offset.
pub proof fn lemma_npdm_header_at_words(b: Seq<u8>)
    ensures
        npdm_header_at(b).magic == u32_of(b, 0),
        npdm_header_at(b).flags == b[0xC],
        npdm_header_at(b).main_thread_priority == b[0xE],
        npdm_header_at(b).main_thread_core_number == b[0xF],
        npdm_header_at(b).version == u32_of(b, 0x18),
        npdm_header_at(b).main_thread_stack_size == u32_of(b, 0x1C),
        npdm_header_at(b).aci_offset == u32_of(b, 0x70),
        npdm_header_at(b).aci_size == u32_of(b, 0x74),
        npdm_header_at(b).acid_offset == u32_of(b, 0x78),
        npdm_header_at(b).acid_size == u32_of(b, 0x7C),
{
    reveal(npdm_header_at);
}

} // verus!
