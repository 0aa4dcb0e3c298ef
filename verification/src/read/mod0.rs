//! MOD0 reading.

use vstd::prelude::*;

use crate::raw::mod0::{mod0_header_at, read_mod0_header, Mod0Header, MOD0_HEADER_SIZE, MOD0_MAGIC};

verus! {

/// Errors of [`Mod0::try_from_bytes`].
#[derive(Debug, PartialEq, Eq, Structural)]
pub enum FromBytesError {
    /// The buffer cannot hold the header.
    BufferTooSmall {
        /// Number of bytes required
        required: usize,
        /// Number of bytes available
        available: usize,
    },
    /// The magic is not "MOD0".
    InvalidMagic {
        /// The magic found
        found: u32,
    },
}

/// A parsed MOD0 header.
pub struct Mod0 {
    header: Mod0Header,
}

impl View for Mod0 {
    type V = Mod0Header;

    closed spec fn view(&self) -> Mod0Header {
        self.header
    }
}

/// What [`Mod0::try_from_bytes`] gives for `b`: the header must fit and
/// carry its magic.
pub open spec fn mod0_spec(b: Seq<u8>) -> Result<Mod0Header, FromBytesError> {
    if b.len() < 0x1C {
        Err(FromBytesError::BufferTooSmall { required: 0x1C, available: b.len() as usize })
    } else if mod0_header_at(b).magic != MOD0_MAGIC {
        Err(FromBytesError::InvalidMagic { found: mod0_header_at(b).magic })
    } else {
        Ok(mod0_header_at(b))
    }
}

impl Mod0 {
    /// Parse a MOD0 header, checking its size and magic.
    pub fn try_from_bytes(bytes: &[u8]) -> (r: Result<Self, FromBytesError>)
        ensures
            match mod0_spec(bytes@) {
                Ok(h) => r matches Ok(m) && m@ == h,
                Err(e) => r == Err::<Self, FromBytesError>(e),
            },
    {
        if bytes.len() < MOD0_HEADER_SIZE {
            return Err(
                FromBytesError::BufferTooSmall { required: MOD0_HEADER_SIZE, available: bytes.len() },
            );
        }
        let header = read_mod0_header(bytes);
        if header.magic != MOD0_MAGIC {
            return Err(FromBytesError::InvalidMagic { found: header.magic });
        }
        Ok(Mod0 { header })
    }

    /// The header.
    pub fn header(&self) -> (r: &Mod0Header)
        ensures
            *r == self@,
    {
        &self.header
    }

    /// Offset of .dynamic.
    pub fn dynamic_offset(&self) -> (r: i32)
        ensures
            r == self@.dynamic_offset,
    {
        self.header.dynamic_offset
    }

    /// Offset of the BSS start.
    pub fn bss_start_offset(&self) -> (r: i32)
        ensures
            r == self@.bss_start_offset,
    {
        self.header.bss_start_offset
    }

    /// Offset of the BSS end.
    pub fn bss_end_offset(&self) -> (r: i32)
        ensures
            r == self@.bss_end_offset,
    {
        self.header.bss_end_offset
    }

    /// Offset of the .eh_frame_hdr start.
    pub fn eh_frame_hdr_start(&self) -> (r: i32)
        ensures
            r == self@.eh_frame_hdr_start,
    {
        self.header.eh_frame_hdr_start
    }

    /// Offset of the .eh_frame_hdr end.
    pub fn eh_frame_hdr_end(&self) -> (r: i32)
        ensures
            r == self@.eh_frame_hdr_end,
    {
        self.header.eh_frame_hdr_end
    }

    /// Offset of the module object.
    pub fn module_object_offset(&self) -> (r: i32)
        ensures
            r == self@.module_object_offset,
    {
        self.header.module_object_offset
    }
}

} // verus!
