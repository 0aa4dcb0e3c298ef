//! NSO reading: the header and the stored (compressed) segments.

use vstd::prelude::*;

use crate::raw::nso::{nso_header_at, read_nso_header, NsoHeader, NSO_HEADER_LEN};
use crate::write::nso::NSO_MAGIC;

verus! {

/// The flag bits an NSO header can carry: compression and hash checks of
/// the three segments.
pub const NSO_FLAGS_MASK: u32 = 0x3F;

/// Errors of [`Nso::try_from_bytes`].
#[derive(Debug, PartialEq, Eq)]
pub enum FromBytesError {
    /// The buffer cannot hold the header.
    BufferTooSmall {
        /// Number of bytes required
        required: usize,
        /// Number of bytes available
        available: usize,
    },
    /// The magic is not "NSO0".
    InvalidMagic {
        /// The magic found
        found: u32,
    },
    /// A segment's stored bytes extend beyond the buffer.
    SegmentOutOfBounds {
        /// "text", "rodata" or "data"
        segment: &'static str,
        /// File offset of the segment
        offset: usize,
        /// Stored size of the segment
        size: usize,
        /// Buffer length
        buffer_len: usize,
    },
}

/// The error for a segment of `size` bytes at `offset` that does not lie
/// within a buffer of `len` bytes, if it does not.
pub open spec fn segment_error(len: int, segment: &'static str, offset: u32, size: u32) -> Option<FromBytesError> {
    if offset + size > len {
        Some(
            FromBytesError::SegmentOutOfBounds {
                segment,
                offset: offset as usize,
                size: size as usize,
                buffer_len: len as usize,
            },
        )
    } else {
        None
    }
}

/// The first check [`Nso::try_from_bytes`] fails on `b`: the header must
/// fit and carry its magic, and the text, rodata and data segments must lie
/// within the buffer, in that order.
pub open spec fn nso_error(b: Seq<u8>) -> Option<FromBytesError> {
    if b.len() < 0x100 {
        Some(FromBytesError::BufferTooSmall { required: 0x100, available: b.len() as usize })
    } else {
        let h = nso_header_at(b);
        if h.magic != NSO_MAGIC {
            Some(FromBytesError::InvalidMagic { found: h.magic })
        } else if segment_error(b.len() as int, "text", h.text.file_offset, h.text_file_size) is Some {
            segment_error(b.len() as int, "text", h.text.file_offset, h.text_file_size)
        } else if segment_error(b.len() as int, "rodata", h.rodata.file_offset, h.rodata_file_size) is Some {
            segment_error(b.len() as int, "rodata", h.rodata.file_offset, h.rodata_file_size)
        } else {
            segment_error(b.len() as int, "data", h.data.file_offset, h.data_file_size)
        }
    }
}

/// A parsed NSO.
pub struct Nso<'a> {
    bytes: &'a [u8],
    header: NsoHeader,
}

impl<'a> View for Nso<'a> {
    type V = Seq<u8>;

    /// The NSO's bytes.
    closed spec fn view(&self) -> Seq<u8> {
        self.bytes@
    }
}

/// The header of a checked NSO.
pub open spec fn nso_header(b: Seq<u8>) -> NsoHeader {
    nso_header_at(b)
}

impl<'a> Nso<'a> {
    /// The NSO passed the checks and its header is decoded.
    #[verifier::type_invariant]
    spec fn valid(self) -> bool {
        &&& nso_error(self.bytes@) is None
        &&& self.header == nso_header(self.bytes@)
    }

    /// Parse an NSO, checking the header (size, magic) and that the stored
    /// text, rodata and data segments lie within the buffer.
    pub fn try_from_bytes(bytes: &'a [u8]) -> (r: Result<Self, FromBytesError>)
        ensures
            match nso_error(bytes@) {
                Some(e) => r == Err::<Self, FromBytesError>(e),
                None => r matches Ok(nso) && nso@ == bytes@,
            },
    {
        if bytes.len() < NSO_HEADER_LEN {
            return Err(
                FromBytesError::BufferTooSmall { required: NSO_HEADER_LEN, available: bytes.len() },
            );
        }
        let header = read_nso_header(bytes);
        if header.magic != NSO_MAGIC {
            return Err(FromBytesError::InvalidMagic { found: header.magic });
        }
        if let Err(e) = Self::validate_segment_bounds(
            bytes.len(),
            "text",
            header.text.file_offset,
            header.text_file_size,
        ) {
            return Err(e);
        }
        if let Err(e) = Self::validate_segment_bounds(
            bytes.len(),
            "rodata",
            header.rodata.file_offset,
            header.rodata_file_size,
        ) {
            return Err(e);
        }
        if let Err(e) = Self::validate_segment_bounds(
            bytes.len(),
            "data",
            header.data.file_offset,
            header.data_file_size,
        ) {
            return Err(e);
        }
        Ok(Nso { bytes, header })
    }

    /// Check that a segment of `size` bytes at `offset` lies within a
    /// buffer of `buffer_len` bytes.
    fn validate_segment_bounds(buffer_len: usize, segment_name: &'static str, offset: u32, size: u32) -> (r: Result<(), FromBytesError>)
        ensures
            match segment_error(buffer_len as int, segment_name, offset, size) {
                Some(e) => r == Err::<(), FromBytesError>(e),
                None => r is Ok,
            },
    {
        let offset = offset as usize;
        let size = size as usize;
        let end = match offset.checked_add(size) {
            Some(e) => e,
            None => {
                return Err(
                    FromBytesError::SegmentOutOfBounds {
                        segment: segment_name,
                        offset,
                        size,
                        buffer_len,
                    },
                );
            },
        };
        if end > buffer_len {
            return Err(
                FromBytesError::SegmentOutOfBounds {
                    segment: segment_name,
                    offset,
                    size,
                    buffer_len,
                },
            );
        }
        Ok(())
    }

    /// The header.
    pub fn header(&self) -> (r: &NsoHeader)
        ensures
            *r == nso_header(self@),
    {
        proof {
            use_type_invariant(self);
        }
        &self.header
    }

    /// The 32-byte module ID.
    pub fn module_id(&self) -> (r: &[u8; 32])
        ensures
            *r == nso_header(self@).module_id,
    {
        proof {
            use_type_invariant(self);
        }
        &self.header.module_id
    }

    /// The flags, keeping only the defined bits.
    pub fn flags(&self) -> (r: u32)
        ensures
            r == nso_header(self@).flags & NSO_FLAGS_MASK,
    {
        proof {
            use_type_invariant(self);
        }
        self.header.flags & NSO_FLAGS_MASK
    }

    /// The stored (compressed) text segment.
    pub fn text_compressed(&self) -> (r: &'a [u8])
        ensures
            r@ == self@.subrange(
                nso_header(self@).text.file_offset as int,
                nso_header(self@).text.file_offset + nso_header(self@).text_file_size,
            ),
    {
        proof {
            use_type_invariant(self);
        }
        let off = self.header.text.file_offset as usize;
        let size = self.header.text_file_size as usize;
        let n = self.bytes.len();
        assert(off + size <= n);
        vstd::slice::slice_subrange(self.bytes, off, off + size)
    }

    /// The stored (compressed) rodata segment.
    pub fn rodata_compressed(&self) -> (r: &'a [u8])
        ensures
            r@ == self@.subrange(
                nso_header(self@).rodata.file_offset as int,
                nso_header(self@).rodata.file_offset + nso_header(self@).rodata_file_size,
            ),
    {
        proof {
            use_type_invariant(self);
        }
        let off = self.header.rodata.file_offset as usize;
        let size = self.header.rodata_file_size as usize;
        let n = self.bytes.len();
        assert(off + size <= n);
        vstd::slice::slice_subrange(self.bytes, off, off + size)
    }

    /// The stored (compressed) data segment.
    pub fn data_compressed(&self) -> (r: &'a [u8])
        ensures
            r@ == self@.subrange(
                nso_header(self@).data.file_offset as int,
                nso_header(self@).data.file_offset + nso_header(self@).data_file_size,
            ),
    {
        proof {
            use_type_invariant(self);
        }
        let off = self.header.data.file_offset as usize;
        let size = self.header.data_file_size as usize;
        let n = self.bytes.len();
        assert(off + size <= n);
        vstd::slice::slice_subrange(self.bytes, off, off + size)
    }
}

} // verus!
