//! NPDM reading: the META, ACID and ACI0 headers and the ACI0 data.

use vstd::prelude::*;
use vstd::string::StringSliceAdditionalSpecFns;

use crate::bytes::{cstr, cstr_len, read_name, sat_usize, stored_name};
use crate::raw::npdm::{
    aci0_header_at, acid_header_at, npdm_header_at, read_aci0_header, read_acid_header,
    read_npdm_header, Aci0Header, AcidHeader, NpdmHeader, ACI0_HEADER_SIZE, ACID_HEADER_SIZE,
    NPDM_HEADER_SIZE,
};
use crate::write::npdm::{ACI0_MAGIC, ACID_MAGIC, META_MAGIC};

verus! {

/// Errors of [`Npdm::try_from_bytes`] and of the ACI0 data accessors.
#[derive(Debug, PartialEq, Eq)]
pub enum FromBytesError {
    /// The buffer cannot hold what the headers describe.
    BufferTooSmall {
        /// Number of bytes required
        required: usize,
        /// Number of bytes available
        available: usize,
    },
    /// The META magic is not "META".
    InvalidMetaMagic {
        /// The magic found
        found: u32,
    },
    /// The ACID magic is not "ACID".
    InvalidAcidMagic {
        /// The magic found
        found: u32,
    },
    /// The ACI0 magic is not "ACI0".
    InvalidAci0Magic {
        /// The magic found
        found: u32,
    },
    /// The ACID section is smaller than its header.
    InvalidAcidSize {
        /// The size found
        found: usize,
    },
    /// The ACI0 section is smaller than its header.
    InvalidAci0Size {
        /// The size found
        found: usize,
    },
    /// An ACI0 data section (FAC, SAC or KC) extends beyond the buffer.
    Aci0InnerSectionOutOfBounds {
        /// "FAC", "SAC" or "KC"
        section: &'static str,
        /// Offset from the ACI0 start
        offset: usize,
        /// Size in bytes
        size: usize,
        /// Offset plus size (from the buffer start)
        end: usize,
        /// Buffer size
        buffer_size: usize,
    },
}

/// The first check [`Npdm::try_from_bytes`] fails on `b`: the META header
/// must fit and carry its magic; the ACID section must lie within the buffer,
/// hold its header and carry its magic; then the same for the ACI0 section.
pub open spec fn npdm_error(b: Seq<u8>) -> Option<FromBytesError> {
    let n = b.len() as usize;
    if b.len() < 0x80 {
        Some(FromBytesError::BufferTooSmall { required: 0x80, available: n })
    } else {
        let h = npdm_header_at(b);
        let acid_off = h.acid_offset as usize;
        let acid_size = h.acid_size as usize;
        let aci_off = h.aci_offset as usize;
        let aci_size = h.aci_size as usize;
        if h.magic != META_MAGIC {
            Some(FromBytesError::InvalidMetaMagic { found: h.magic })
        } else if acid_off + acid_size > b.len() {
            Some(
                FromBytesError::BufferTooSmall {
                    required: sat_usize(acid_off + acid_size),
                    available: n,
                },
            )
        } else if acid_size < 0x240 {
            Some(FromBytesError::InvalidAcidSize { found: acid_size })
        } else if acid_header_at(b, acid_off as int).magic != ACID_MAGIC {
            Some(FromBytesError::InvalidAcidMagic { found: acid_header_at(b, acid_off as int).magic })
        } else if aci_off + aci_size > b.len() {
            Some(
                FromBytesError::BufferTooSmall {
                    required: sat_usize(aci_off + aci_size),
                    available: n,
                },
            )
        } else if aci_size < 0x40 {
            Some(FromBytesError::InvalidAci0Size { found: aci_size })
        } else if aci0_header_at(b, aci_off as int).magic != ACI0_MAGIC {
            Some(FromBytesError::InvalidAci0Magic { found: aci0_header_at(b, aci_off as int).magic })
        } else {
            None
        }
    }
}

/// A parsed NPDM.
pub struct Npdm<'a> {
    bytes: &'a [u8],
    header: NpdmHeader,
    acid: AcidHeader,
    aci0: Aci0Header,
}

impl<'a> View for Npdm<'a> {
    type V = Seq<u8>;

    /// The NPDM's bytes.
    closed spec fn view(&self) -> Seq<u8> {
        self.bytes@
    }
}

/// The META header of a checked NPDM.
pub open spec fn npdm_meta(b: Seq<u8>) -> NpdmHeader {
    npdm_header_at(b)
}

/// The ACID header of a checked NPDM.
pub open spec fn npdm_acid(b: Seq<u8>) -> AcidHeader {
    acid_header_at(b, npdm_header_at(b).acid_offset as int)
}

/// The ACI0 header of a checked NPDM.
pub open spec fn npdm_aci0(b: Seq<u8>) -> Aci0Header {
    aci0_header_at(b, npdm_header_at(b).aci_offset as int)
}

/// An ACI0 data section at `offset` (from the ACI0 start) of `size` bytes,
/// or the error naming it when it extends beyond the buffer.
pub open spec fn aci0_section(b: Seq<u8>, section: &'static str, offset: u32, size: u32) -> Result<Seq<u8>, FromBytesError> {
    let start = npdm_header_at(b).aci_offset + offset;
    let end = start + size;
    if end > usize::MAX {
        Err(
            FromBytesError::Aci0InnerSectionOutOfBounds {
                section,
                offset: offset as usize,
                size: size as usize,
                end: usize::MAX,
                buffer_size: b.len() as usize,
            },
        )
    } else if end > b.len() {
        Err(
            FromBytesError::Aci0InnerSectionOutOfBounds {
                section,
                offset: offset as usize,
                size: size as usize,
                end: end as usize,
                buffer_size: b.len() as usize,
            },
        )
    } else {
        Ok(b.subrange(start, end))
    }
}

impl<'a> Npdm<'a> {
    /// The NPDM passed the checks and its headers are decoded.
    #[verifier::type_invariant]
    spec fn valid(self) -> bool {
        &&& npdm_error(self.bytes@) is None
        &&& self.bytes@.len() <= usize::MAX
        &&& self.header == npdm_meta(self.bytes@)
        &&& self.acid == npdm_acid(self.bytes@)
        &&& self.aci0 == npdm_aci0(self.bytes@)
    }

    /// Parse an NPDM, checking the META header (size, magic), then the ACID
    /// section (within the buffer, at least a header, magic), then the ACI0
    /// section likewise.
    pub fn try_from_bytes(bytes: &'a [u8]) -> (r: Result<Self, FromBytesError>)
        ensures
            match npdm_error(bytes@) {
                Some(e) => r == Err::<Self, FromBytesError>(e),
                None => r matches Ok(npdm) && npdm@ == bytes@,
            },
    {
        if bytes.len() < NPDM_HEADER_SIZE {
            return Err(
                FromBytesError::BufferTooSmall { required: NPDM_HEADER_SIZE, available: bytes.len() },
            );
        }
        let header = read_npdm_header(bytes);
        if header.magic != META_MAGIC {
            return Err(FromBytesError::InvalidMetaMagic { found: header.magic });
        }
        let acid_offset = header.acid_offset as usize;
        let acid_size = header.acid_size as usize;
        let acid_end = match acid_offset.checked_add(acid_size) {
            Some(e) => e,
            None => {
                return Err(
                    FromBytesError::BufferTooSmall { required: usize::MAX, available: bytes.len() },
                );
            },
        };
        if acid_end > bytes.len() {
            return Err(FromBytesError::BufferTooSmall { required: acid_end, available: bytes.len() });
        }
        if acid_size < ACID_HEADER_SIZE {
            return Err(FromBytesError::InvalidAcidSize { found: acid_size });
        }
        let acid = read_acid_header(bytes, acid_offset);
        if acid.magic != ACID_MAGIC {
            return Err(FromBytesError::InvalidAcidMagic { found: acid.magic });
        }
        let aci_offset = header.aci_offset as usize;
        let aci_size = header.aci_size as usize;
        let aci_end = match aci_offset.checked_add(aci_size) {
            Some(e) => e,
            None => {
                return Err(
                    FromBytesError::BufferTooSmall { required: usize::MAX, available: bytes.len() },
                );
            },
        };
        if aci_end > bytes.len() {
            return Err(FromBytesError::BufferTooSmall { required: aci_end, available: bytes.len() });
        }
        if aci_size < ACI0_HEADER_SIZE {
            return Err(FromBytesError::InvalidAci0Size { found: aci_size });
        }
        let aci0 = read_aci0_header(bytes, aci_offset);
        if aci0.magic != ACI0_MAGIC {
            return Err(FromBytesError::InvalidAci0Magic { found: aci0.magic });
        }
        Ok(Npdm { bytes, header, acid, aci0 })
    }

    /// The META header.
    pub fn header(&self) -> (r: &NpdmHeader)
        ensures
            *r == npdm_meta(self@),
    {
        proof {
            use_type_invariant(self);
        }
        &self.header
    }

    /// The program name: the name field up to its first zero byte, or empty
    /// when that is not valid UTF-8.
    pub fn name(&self) -> (r: &str)
        ensures
            r.spec_bytes() == stored_name(cstr(npdm_meta(self@).name@)),
    {
        proof {
            use_type_invariant(self);
        }
        let name = self.header.name.as_slice();
        let len = cstr_len(name);
        read_name(vstd::slice::slice_subrange(name, 0, len))
    }

    /// The main thread priority.
    pub fn main_thread_priority(&self) -> (r: u8)
        ensures
            r == npdm_meta(self@).main_thread_priority,
    {
        proof {
            use_type_invariant(self);
        }
        self.header.main_thread_priority
    }

    /// The main thread stack size.
    pub fn main_thread_stack_size(&self) -> (r: u32)
        ensures
            r == npdm_meta(self@).main_thread_stack_size,
    {
        proof {
            use_type_invariant(self);
        }
        self.header.main_thread_stack_size
    }

    /// The ACID header.
    pub fn acid(&self) -> (r: &AcidHeader)
        ensures
            *r == npdm_acid(self@),
    {
        proof {
            use_type_invariant(self);
        }
        &self.acid
    }

    /// The allowed program ID range `(min, max)`.
    pub fn program_id_range(&self) -> (r: (u64, u64))
        ensures
            r == (npdm_acid(self@).program_id_min, npdm_acid(self@).program_id_max),
    {
        proof {
            use_type_invariant(self);
        }
        (self.acid.program_id_min, self.acid.program_id_max)
    }

    /// The ACI0 header.
    pub fn aci0(&self) -> (r: &Aci0Header)
        ensures
            *r == npdm_aci0(self@),
    {
        proof {
            use_type_invariant(self);
        }
        &self.aci0
    }

    /// The program ID.
    pub fn program_id(&self) -> (r: u64)
        ensures
            r == npdm_aci0(self@).program_id,
    {
        proof {
            use_type_invariant(self);
        }
        self.aci0.program_id
    }

    /// An ACI0 data section, checked against the buffer.
    fn aci0_section_data(&self, section: &'static str, offset: u32, size: u32) -> (r: Result<&'a [u8], FromBytesError>)
        ensures
            match aci0_section(self@, section, offset, size) {
                Ok(d) => r matches Ok(s) && s@ == d,
                Err(e) => r == Err::<&'a [u8], FromBytesError>(e),
            },
    {
        proof {
            use_type_invariant(self);
        }
        let aci_offset = self.header.aci_offset as usize;
        let offset = offset as usize;
        let size = size as usize;
        let start = match aci_offset.checked_add(offset) {
            Some(x) => x,
            None => {
                return Err(
                    FromBytesError::Aci0InnerSectionOutOfBounds {
                        section,
                        offset,
                        size,
                        end: usize::MAX,
                        buffer_size: self.bytes.len(),
                    },
                );
            },
        };
        let end = match start.checked_add(size) {
            Some(e) => e,
            None => {
                return Err(
                    FromBytesError::Aci0InnerSectionOutOfBounds {
                        section,
                        offset,
                        size,
                        end: usize::MAX,
                        buffer_size: self.bytes.len(),
                    },
                );
            },
        };
        if end > self.bytes.len() {
            return Err(
                FromBytesError::Aci0InnerSectionOutOfBounds {
                    section,
                    offset,
                    size,
                    end,
                    buffer_size: self.bytes.len(),
                },
            );
        }
        Ok(vstd::slice::slice_subrange(self.bytes, start, end))
    }

    /// The ACI0 filesystem access control data; fails when it extends
    /// beyond the buffer.
    pub fn aci0_fac_data(&self) -> (r: Result<&'a [u8], FromBytesError>)
        ensures
            match aci0_section(self@, "FAC", npdm_aci0(self@).fac_offset, npdm_aci0(self@).fac_size) {
                Ok(d) => r matches Ok(s) && s@ == d,
                Err(e) => r == Err::<&'a [u8], FromBytesError>(e),
            },
    {
        proof {
            use_type_invariant(self);
        }
        self.aci0_section_data("FAC", self.aci0.fac_offset, self.aci0.fac_size)
    }

    /// The ACI0 service access control data; fails when it extends beyond
    /// the buffer.
    pub fn aci0_sac_data(&self) -> (r: Result<&'a [u8], FromBytesError>)
        ensures
            match aci0_section(self@, "SAC", npdm_aci0(self@).sac_offset, npdm_aci0(self@).sac_size) {
                Ok(d) => r matches Ok(s) && s@ == d,
                Err(e) => r == Err::<&'a [u8], FromBytesError>(e),
            },
    {
        proof {
            use_type_invariant(self);
        }
        self.aci0_section_data("SAC", self.aci0.sac_offset, self.aci0.sac_size)
    }

    /// The ACI0 kernel capability data; fails when it extends beyond the
    /// buffer.
    pub fn aci0_kc_data(&self) -> (r: Result<&'a [u8], FromBytesError>)
        ensures
            match aci0_section(self@, "KC", npdm_aci0(self@).kc_offset, npdm_aci0(self@).kc_size) {
                Ok(d) => r matches Ok(s) && s@ == d,
                Err(e) => r == Err::<&'a [u8], FromBytesError>(e),
            },
    {
        proof {
            use_type_invariant(self);
        }
        self.aci0_section_data("KC", self.aci0.kc_offset, self.aci0.kc_size)
    }
}

} // verus!
