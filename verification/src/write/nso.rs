//! NSO (Nintendo Software Object) builder.

use vstd::prelude::*;

use sha2::Digest;

use crate::bytes::{
    bytes_result, lemma_word_appended, lemma_words_kept, le32, push_all, push_u32, push_zeros,
    round_up, u32_of, zeros,
};
use crate::raw::nso::{lemma_nso_header_at_words, nso_header_at};
use crate::read::nso::nso_error;
use crate::write::kip::{len32, opt_bytes};
use crate::write::nro::{pad_to_alignment, padded, SEGMENT_ALIGN};

verus! {

/// NSO magic number: "NSO0" in ASCII.
pub const NSO_MAGIC: u32 = 0x304f534e;

/// Flag: the text segment is compressed.
pub const NSO_TEXT_COMPRESS: u32 = 1 << 0;

/// Flag: the rodata segment is compressed.
pub const NSO_RODATA_COMPRESS: u32 = 1 << 1;

/// Flag: the data segment is compressed.
pub const NSO_DATA_COMPRESS: u32 = 1 << 2;

/// Flag: the text segment hash should be checked.
pub const NSO_TEXT_HASH: u32 = 1 << 3;

/// Flag: the rodata segment hash should be checked.
pub const NSO_RODATA_HASH: u32 = 1 << 4;

/// Flag: the data segment hash should be checked.
pub const NSO_DATA_HASH: u32 = 1 << 5;

/// Size of the NSO header.
pub const NSO_HEADER_SIZE: u32 = 0x100;

/// The SHA-256 digest of `data`.
pub uninterp spec fn sha256_digest(data: Seq<u8>) -> [u8; 32];

/// The LZ4 block compression of `data`, as `lz4_flex` produces it.
pub uninterp spec fn lz4_block(data: Seq<u8>) -> Seq<u8>;

/// SHA-256 of `data`, computed by the `sha2` crate (`Sha256::new`, `update`,
/// `finalize`).
///
/// Trusted: the digest is named, not stated; the contract claims only that it
/// depends on the bytes alone.
#[verifier::external_body]
fn sha256(data: &[u8]) -> (r: [u8; 32])
    ensures
        r == sha256_digest(data@),
{
    let mut hasher = sha2::Sha256::new();
    hasher.update(data);
    hasher.finalize().into()
}

/// LZ4 block compression of `data` by `lz4_flex::compress`.
///
/// Trusted: the compressed bytes are named, not stated; the contract claims
/// that they depend on the input alone and, as the crate's source shows (the
/// output is cut to the length written into a buffer of
/// `get_maximum_output_size` bytes), that they are at most `20 + len * 110 /
/// 100` bytes long.
#[verifier::external_body]
fn lz4_compress(data: &[u8]) -> (r: Vec<u8>)
    requires
        data@.len() * 110 <= usize::MAX,
    ensures
        r@ == lz4_block(data@),
        r@.len() <= 20 + data@.len() * 110 / 100,
{
    lz4_flex::compress(data)
}

/// Builder for constructing NSO files.
pub struct NsoBuilder {
    text: Option<Vec<u8>>,
    text_vaddr: u32,
    rodata: Option<Vec<u8>>,
    rodata_vaddr: u32,
    data: Option<Vec<u8>>,
    data_vaddr: u32,
    bss_size: u32,
    module_id: Option<[u8; 32]>,
    compress: bool,
}

/// What an [`NsoBuilder`] holds.
pub struct NsoBuilderView {
    pub text: Option<Seq<u8>>,
    pub text_vaddr: u32,
    pub rodata: Option<Seq<u8>>,
    pub rodata_vaddr: u32,
    pub data: Option<Seq<u8>>,
    pub data_vaddr: u32,
    pub bss_size: u32,
    pub module_id: Option<Seq<u8>>,
    pub compress: bool,
}

impl View for NsoBuilder {
    type V = NsoBuilderView;

    closed spec fn view(&self) -> NsoBuilderView {
        NsoBuilderView {
            text: opt_bytes(self.text),
            text_vaddr: self.text_vaddr,
            rodata: opt_bytes(self.rodata),
            rodata_vaddr: self.rodata_vaddr,
            data: opt_bytes(self.data),
            data_vaddr: self.data_vaddr,
            bss_size: self.bss_size,
            module_id: match self.module_id {
                Some(id) => Some(id@),
                None => None,
            },
            compress: self.compress,
        }
    }
}

/// A new builder: nothing set, compression on.
pub open spec fn nso_builder_empty() -> NsoBuilderView {
    NsoBuilderView {
        text: None,
        text_vaddr: 0,
        rodata: None,
        rodata_vaddr: 0,
        data: None,
        data_vaddr: 0,
        bss_size: 0,
        module_id: None,
        compress: true,
    }
}

/// Error returned by [`NsoBuilder::build`].
#[derive(Debug, PartialEq, Eq, Structural)]
pub enum BuildError {
    /// `build` was called before a text segment was set.
    MissingText,
    /// `build` was called before a rodata segment was set.
    MissingRodata,
    /// `build` was called before a data segment was set.
    MissingData,
}

/// A segment as it is stored in the file: padded, then LZ4-compressed when
/// compression is on.
pub open spec fn nso_stored(seg: Seq<u8>, compress: bool) -> Seq<u8> {
    if compress {
        lz4_block(padded(seg, 0x1000))
    } else {
        padded(seg, 0x1000)
    }
}

/// Whether every segment pads within memory and, when compressed, fits the
/// compressor's size computation.
pub open spec fn nso_segment_ok(seg: Seq<u8>) -> bool {
    &&& round_up(seg.len() as int, 0x1000) <= usize::MAX
    &&& round_up(seg.len() as int, 0x1000) * 110 <= usize::MAX
}

/// Whether the file offsets of a complete builder's segments fit in 32 bits.
pub open spec fn nso_fits(v: NsoBuilderView) -> bool {
    let t = nso_stored(v.text.unwrap(), v.compress);
    let r = nso_stored(v.rodata.unwrap(), v.compress);
    NSO_HEADER_SIZE + len32(t.len() as int) + len32(r.len() as int) <= u32::MAX
}

/// A segment header: file offset, memory offset, decompressed size.
pub open spec fn nso_segment(file_offset: u32, memory_offset: u32, size: u32) -> Seq<u8> {
    le32(file_offset) + le32(memory_offset) + le32(size)
}

/// The header flags: the three hash bits, and the three compression bits when
/// compression is on.
pub open spec fn nso_flags(compress: bool) -> u32 {
    if compress {
        0x3F
    } else {
        0x38
    }
}

/// The first 0x6C bytes of an NSO header: magic, version, a reserved word,
/// flags, the text, rodata and data segment headers (file offset, memory
/// offset, size) with the module name offset and size (both 1) between them,
/// the BSS size, the module ID and the stored segment sizes.
pub open spec fn nso_fields_bytes(
    flags: u32,
    seg: (u32, u32, u32),
    ro_seg: (u32, u32, u32),
    data_seg: (u32, u32, u32),
    bss_size: u32,
    module_id: Seq<u8>,
    stored: (u32, u32, u32),
) -> Seq<u8> {
    le32(NSO_MAGIC) + le32(0) + le32(0) + le32(flags) + nso_segment(seg.0, seg.1, seg.2) + le32(1)
        + nso_segment(ro_seg.0, ro_seg.1, ro_seg.2) + le32(1) + nso_segment(
        data_seg.0,
        data_seg.1,
        data_seg.2,
    ) + le32(bss_size) + module_id + le32(stored.0) + le32(stored.1) + le32(stored.2)
}

/// The module ID a builder writes: the one set, else 32 zero bytes.
pub open spec fn nso_module_id(v: NsoBuilderView) -> Seq<u8> {
    match v.module_id {
        Some(id) => id,
        None => zeros(32),
    }
}

/// The first 0x6C bytes of the NSO header of a complete builder.
pub open spec fn nso_header_fields(v: NsoBuilderView) -> Seq<u8> {
    let t = nso_stored(v.text.unwrap(), v.compress);
    let r = nso_stored(v.rodata.unwrap(), v.compress);
    let d = nso_stored(v.data.unwrap(), v.compress);
    let rodata_off = (NSO_HEADER_SIZE + len32(t.len() as int)) as u32;
    let data_off = (rodata_off + len32(r.len() as int)) as u32;
    nso_fields_bytes(
        nso_flags(v.compress),
        (NSO_HEADER_SIZE, v.text_vaddr, len32(padded(v.text.unwrap(), 0x1000).len() as int)),
        (rodata_off, v.rodata_vaddr, len32(padded(v.rodata.unwrap(), 0x1000).len() as int)),
        (data_off, v.data_vaddr, len32(padded(v.data.unwrap(), 0x1000).len() as int)),
        v.bss_size,
        nso_module_id(v),
        (len32(t.len() as int), len32(r.len() as int), len32(d.len() as int)),
    )
}

/// The 0x100-byte NSO header of a complete builder: the fields, zeros for
/// the reserved area and the embedded, dynstr and dynsym offsets and sizes,
/// then the SHA-256 digests of the padded segments.
#[verifier::opaque]
pub open spec fn nso_header(v: NsoBuilderView) -> Seq<u8> {
    nso_header_fields(v) + zeros(0x1C) + zeros(24) + sha256_digest(padded(v.text.unwrap(), 0x1000))@
        + sha256_digest(padded(v.rodata.unwrap(), 0x1000))@ + sha256_digest(
        padded(v.data.unwrap(), 0x1000),
    )@
}

/// What [`NsoBuilder::build`] produces for a builder holding `v`.
pub open spec fn nso_build_spec(v: NsoBuilderView) -> Result<Seq<u8>, BuildError> {
    if v.text is None {
        Err(BuildError::MissingText)
    } else if v.rodata is None {
        Err(BuildError::MissingRodata)
    } else if v.data is None {
        Err(BuildError::MissingData)
    } else {
        Ok(
            nso_header(v) + nso_stored(v.text.unwrap(), v.compress) + nso_stored(
                v.rodata.unwrap(),
                v.compress,
            ) + nso_stored(v.data.unwrap(), v.compress),
        )
    }
}

/// Whether a complete builder's segments are within the limits that
/// [`NsoBuilder::build`] needs.
pub open spec fn nso_build_ok(v: NsoBuilderView) -> bool {
    v.text is Some && v.rodata is Some && v.data is Some ==> {
        &&& nso_segment_ok(v.text.unwrap())
        &&& nso_segment_ok(v.rodata.unwrap())
        &&& nso_segment_ok(v.data.unwrap())
        &&& nso_fits(v)
    }
}

impl NsoBuilder {
    /// Create a new NSO builder; compression is on by default.
    pub fn new() -> (r: Self)
        ensures
            r@ == nso_builder_empty(),
    {
        NsoBuilder {
            text: None,
            text_vaddr: 0,
            rodata: None,
            rodata_vaddr: 0,
            data: None,
            data_vaddr: 0,
            bss_size: 0,
            module_id: None,
            compress: true,
        }
    }

    /// Set the text (code) segment.
    pub fn text(self, data: Vec<u8>) -> (r: Self)
        ensures
            r@ == (NsoBuilderView { text: Some(data@), ..self@ }),
    {
        let mut b = self;
        b.text = Some(data);
        b
    }

    /// Set the text segment virtual address (the ELF `p_vaddr`).
    pub fn text_vaddr(self, vaddr: u32) -> (r: Self)
        ensures
            r@ == (NsoBuilderView { text_vaddr: vaddr, ..self@ }),
    {
        let mut b = self;
        b.text_vaddr = vaddr;
        b
    }

    /// Set the rodata (read-only data) segment.
    pub fn rodata(self, data: Vec<u8>) -> (r: Self)
        ensures
            r@ == (NsoBuilderView { rodata: Some(data@), ..self@ }),
    {
        let mut b = self;
        b.rodata = Some(data);
        b
    }

    /// Set the rodata segment virtual address.
    pub fn rodata_vaddr(self, vaddr: u32) -> (r: Self)
        ensures
            r@ == (NsoBuilderView { rodata_vaddr: vaddr, ..self@ }),
    {
        let mut b = self;
        b.rodata_vaddr = vaddr;
        b
    }

    /// Set the data (read-write data) segment.
    pub fn data(self, data: Vec<u8>) -> (r: Self)
        ensures
            r@ == (NsoBuilderView { data: Some(data@), ..self@ }),
    {
        let mut b = self;
        b.data = Some(data);
        b
    }

    /// Set the data segment virtual address.
    pub fn data_vaddr(self, vaddr: u32) -> (r: Self)
        ensures
            r@ == (NsoBuilderView { data_vaddr: vaddr, ..self@ }),
    {
        let mut b = self;
        b.data_vaddr = vaddr;
        b
    }

    /// Set the BSS section size in bytes.
    pub fn bss_size(self, size: u32) -> (r: Self)
        ensures
            r@ == (NsoBuilderView { bss_size: size, ..self@ }),
    {
        let mut b = self;
        b.bss_size = size;
        b
    }

    /// Set the 32-byte module ID (build ID); all zeros when not set.
    pub fn module_id(self, id: [u8; 32]) -> (r: Self)
        ensures
            r@ == (NsoBuilderView { module_id: Some(id@), ..self@ }),
    {
        let mut b = self;
        b.module_id = Some(id);
        b
    }

    /// Enable or disable LZ4 compression of the segments.
    pub fn compressed(self, compress: bool) -> (r: Self)
        ensures
            r@ == (NsoBuilderView { compress: compress, ..self@ }),
    {
        let mut b = self;
        b.compress = compress;
        b
    }

    /// Build the complete NSO file: the 0x100-byte header followed by the
    /// stored text, rodata and data segments.
    ///
    /// Fails when a segment is missing. Segments are zero-padded to 0x1000
    /// bytes, hashed with SHA-256, and LZ4-compressed when compression is on.
    pub fn build(self) -> (r: Result<Vec<u8>, BuildError>)
        requires
            nso_build_ok(self@),
        ensures
            bytes_result(r) == nso_build_spec(self@),
    {
        if self.text.is_none() {
            return Err(BuildError::MissingText);
        }
        if self.rodata.is_none() {
            return Err(BuildError::MissingRodata);
        }
        if self.data.is_none() {
            return Err(BuildError::MissingData);
        }
        Ok(self.emit())
    }

    /// Whether [`NsoBuilder::build`] can lay this builder out: a missing
    /// segment is always reported, and complete segments must pad within
    /// memory and leave every file offset within 32 bits once stored.
    pub fn layout_fits(&self) -> (r: bool)
        ensures
            r == nso_build_ok(self@),
    {
        if self.text.is_none() || self.rodata.is_none() || self.data.is_none() {
            return true;
        }
        let text = self.text.as_ref().unwrap();
        let rodata = self.rodata.as_ref().unwrap();
        let data = self.data.as_ref().unwrap();
        if !(segment_ok(text.len()) && segment_ok(rodata.len()) && segment_ok(data.len())) {
            return false;
        }
        let t = stored_segment(text.as_slice(), self.compress);
        let r = stored_segment(rodata.as_slice(), self.compress);
        let tl = crate::bytes::trunc_u32(t.len());
        let rl = crate::bytes::trunc_u32(r.len());
        (tl as u64) + (rl as u64) + (NSO_HEADER_SIZE as u64) <= u32::MAX as u64
    }

    /// Build the NSO file when [`NsoBuilder::layout_fits`] holds, and `None`
    /// otherwise.
    pub fn try_build(self) -> (r: Option<Result<Vec<u8>, BuildError>>)
        ensures
            r is Some <==> nso_build_ok(self@),
            r matches Some(b) ==> bytes_result(b) == nso_build_spec(self@),
    {
        if self.layout_fits() {
            Some(self.build())
        } else {
            None
        }
    }

    /// Lays out a complete builder.
    fn emit(&self) -> (r: Vec<u8>)
        requires
            self@.text is Some && self@.rodata is Some && self@.data is Some,
            nso_build_ok(self@),
        ensures
            nso_build_spec(self@) == Ok::<Seq<u8>, BuildError>(r@),
    {
        let ghost v = self@;
        let text = self.text.as_ref().unwrap();
        let rodata = self.rodata.as_ref().unwrap();
        let data = self.data.as_ref().unwrap();
        let text_padded = pad_to_alignment(text.as_slice(), SEGMENT_ALIGN);
        let rodata_padded = pad_to_alignment(rodata.as_slice(), SEGMENT_ALIGN);
        let data_padded = pad_to_alignment(data.as_slice(), SEGMENT_ALIGN);
        // Hashes of the uncompressed (padded) segments.
        let text_hash = sha256(text_padded.as_slice());
        let rodata_hash = sha256(rodata_padded.as_slice());
        let data_hash = sha256(data_padded.as_slice());
        let text_data = stored_segment(text.as_slice(), self.compress);
        let rodata_data = stored_segment(rodata.as_slice(), self.compress);
        let data_data = stored_segment(data.as_slice(), self.compress);
        let hash_flags = NSO_TEXT_HASH | NSO_RODATA_HASH | NSO_DATA_HASH;
        let compress_flags = NSO_TEXT_COMPRESS | NSO_RODATA_COMPRESS | NSO_DATA_COMPRESS;
        assert(hash_flags == 0x38 && (compress_flags | hash_flags) == 0x3F) by (bit_vector)
            requires
                hash_flags == (1u32 << 3u32) | (1u32 << 4u32) | (1u32 << 5u32),
                compress_flags == (1u32 << 0u32) | (1u32 << 1u32) | (1u32 << 2u32),
        ;
        let flags: u32 = if self.compress {
            compress_flags | hash_flags
        } else {
            hash_flags
        };
        // Segments follow the header in the file.
        let text_offset = NSO_HEADER_SIZE;
        let rodata_offset = text_offset + crate::bytes::trunc_u32(text_data.len());
        let data_offset = rodata_offset + crate::bytes::trunc_u32(rodata_data.len());

        let mut buf: Vec<u8> = Vec::new();
        push_u32(&mut buf, NSO_MAGIC);
        push_u32(&mut buf, 0);
        push_u32(&mut buf, 0);
        push_u32(&mut buf, flags);
        push_segment(
            &mut buf,
            text_offset,
            self.text_vaddr,
            crate::bytes::trunc_u32(text_padded.len()),
        );
        // The module name offset and size overlap the segments' alignment
        // fields in the header layout; both are set to 1.
        push_u32(&mut buf, 1);
        push_segment(
            &mut buf,
            rodata_offset,
            self.rodata_vaddr,
            crate::bytes::trunc_u32(rodata_padded.len()),
        );
        push_u32(&mut buf, 1);
        push_segment(
            &mut buf,
            data_offset,
            self.data_vaddr,
            crate::bytes::trunc_u32(data_padded.len()),
        );
        push_u32(&mut buf, self.bss_size);
        match &self.module_id {
            Some(id) => push_all(&mut buf, id),
            None => push_zeros(&mut buf, 32),
        }
        push_u32(&mut buf, crate::bytes::trunc_u32(text_data.len()));
        push_u32(&mut buf, crate::bytes::trunc_u32(rodata_data.len()));
        push_u32(&mut buf, crate::bytes::trunc_u32(data_data.len()));
        push_zeros(&mut buf, 0x1C);
        // Embedded, dynstr and dynsym offsets and sizes are all zero.
        push_zeros(&mut buf, 24);
        push_all(&mut buf, &text_hash);
        push_all(&mut buf, &rodata_hash);
        push_all(&mut buf, &data_hash);
        assert(buf@ == nso_header(v)) by {
            reveal(nso_header);
        }
        push_all(&mut buf, text_data.as_slice());
        push_all(&mut buf, rodata_data.as_slice());
        push_all(&mut buf, data_data.as_slice());
        buf
    }
}

/// Whether a segment of `len` bytes is within [`nso_segment_ok`]'s limits.
fn segment_ok(len: usize) -> (r: bool)
    ensures
        r == (round_up(len as int, 0x1000) <= usize::MAX && round_up(len as int, 0x1000) * 110
            <= usize::MAX),
{
    let rem = len % 0x1000;
    let up: u128 = if rem == 0 {
        len as u128
    } else {
        len as u128 - rem as u128 + 0x1000
    };
    up <= usize::MAX as u128 && up * 110 <= usize::MAX as u128
}

/// A segment as stored in the file.
fn stored_segment(seg: &[u8], compress: bool) -> (r: Vec<u8>)
    requires
        nso_segment_ok(seg@),
    ensures
        r@ == nso_stored(seg@, compress),
{
    let p = pad_to_alignment(seg, SEGMENT_ALIGN);
    if compress {
        lz4_compress(p.as_slice())
    } else {
        p
    }
}

/// Appends a segment header.
fn push_segment(buf: &mut Vec<u8>, file_offset: u32, memory_offset: u32, size: u32)
    ensures
        final(buf)@ == old(buf)@ + nso_segment(file_offset, memory_offset, size),
{
    push_u32(buf, file_offset);
    push_u32(buf, memory_offset);
    push_u32(buf, size);
    assert(final(buf)@ =~= old(buf)@ + nso_segment(file_offset, memory_offset, size));
}

impl Default for NsoBuilder {
    fn default() -> (r: Self)
        ensures
            r@ == nso_builder_empty(),
    {
        Self::new()
    }
}


/// A segment header appended reads back as its file and memory offsets.
proof fn lemma_segment_appended(s: Seq<u8>, a: u32, b: u32, c: u32)
    ensures
        u32_of(s + nso_segment(a, b, c), s.len() as int) == a,
        u32_of(s + nso_segment(a, b, c), s.len() as int + 4) == b,
        u32_of(s + nso_segment(a, b, c), s.len() as int + 8) == c,
{
    lemma_word_appended(s, a);
    lemma_word_appended(s + le32(a), b);
    lemma_word_appended(s + le32(a) + le32(b), c);
    lemma_words_kept(s + le32(a), le32(b));
    lemma_words_kept(s + le32(a) + le32(b), le32(c));
    assert(s + nso_segment(a, b, c) =~= s + le32(a) + le32(b) + le32(c));
}

/// The words of the header fields, read back at their offsets.
proof fn lemma_nso_fields_words(
    flags: u32,
    seg: (u32, u32, u32),
    ro_seg: (u32, u32, u32),
    data_seg: (u32, u32, u32),
    bss_size: u32,
    module_id: Seq<u8>,
    stored: (u32, u32, u32),
)
    requires
        module_id.len() == 32,
    ensures
        ({
            let f = nso_fields_bytes(flags, seg, ro_seg, data_seg, bss_size, module_id, stored);
            &&& f.len() == 0x6C
            &&& u32_of(f, 0) == NSO_MAGIC
            &&& u32_of(f, 0xC) == flags
            &&& u32_of(f, 0x10) == seg.0
            &&& u32_of(f, 0x14) == seg.1
            &&& u32_of(f, 0x18) == seg.2
            &&& u32_of(f, 0x20) == ro_seg.0
            &&& u32_of(f, 0x24) == ro_seg.1
            &&& u32_of(f, 0x28) == ro_seg.2
            &&& u32_of(f, 0x30) == data_seg.0
            &&& u32_of(f, 0x34) == data_seg.1
            &&& u32_of(f, 0x38) == data_seg.2
            &&& u32_of(f, 0x3C) == bss_size
            &&& f.subrange(0x40, 0x60) == module_id
            &&& u32_of(f, 0x60) == stored.0
            &&& u32_of(f, 0x64) == stored.1
            &&& u32_of(f, 0x68) == stored.2
        }),
{
    let p1 = le32(NSO_MAGIC);
    let p2 = p1 + le32(0);
    let p3 = p2 + le32(0);
    let pa = p3 + le32(flags);
    let pb = pa + nso_segment(seg.0, seg.1, seg.2);
    let pc = pb + le32(1);
    let pd = pc + nso_segment(ro_seg.0, ro_seg.1, ro_seg.2);
    let pe = pd + le32(1);
    let pf = pe + nso_segment(data_seg.0, data_seg.1, data_seg.2);
    let pg = pf + le32(bss_size);
    let ph = pg + module_id;
    let pi = ph + le32(stored.0);
    let pj = pi + le32(stored.1);
    let pk = pj + le32(stored.2);
    assert(nso_fields_bytes(flags, seg, ro_seg, data_seg, bss_size, module_id, stored) == pk);
    lemma_word_appended(Seq::empty(), NSO_MAGIC);
    assert(Seq::<u8>::empty() + le32(NSO_MAGIC) =~= p1);
    lemma_word_appended(p3, flags);
    lemma_segment_appended(pa, seg.0, seg.1, seg.2);
    lemma_segment_appended(pc, ro_seg.0, ro_seg.1, ro_seg.2);
    lemma_segment_appended(pe, data_seg.0, data_seg.1, data_seg.2);
    lemma_word_appended(pf, bss_size);
    lemma_word_appended(ph, stored.0);
    lemma_word_appended(pi, stored.1);
    lemma_word_appended(pj, stored.2);
    lemma_words_kept(p1, le32(0));
    lemma_words_kept(p2, le32(0));
    lemma_words_kept(p3, le32(flags));
    lemma_words_kept(pa, nso_segment(seg.0, seg.1, seg.2));
    lemma_words_kept(pb, le32(1));
    lemma_words_kept(pc, nso_segment(ro_seg.0, ro_seg.1, ro_seg.2));
    lemma_words_kept(pd, le32(1));
    lemma_words_kept(pe, nso_segment(data_seg.0, data_seg.1, data_seg.2));
    lemma_words_kept(pf, le32(bss_size));
    lemma_words_kept(pg, module_id);
    lemma_words_kept(ph, le32(stored.0));
    lemma_words_kept(pi, le32(stored.1));
    lemma_words_kept(pj, le32(stored.2));
    assert(pk.subrange(0x40, 0x60) =~= module_id);
}

/// The image a complete builder writes: its words at the header offsets,
/// its length, and its segments after the header.
#[verifier::spinoff_prover]
proof fn lemma_nso_image_words(v: NsoBuilderView)
    requires
        v.text is Some,
        v.rodata is Some,
        v.data is Some,
        v.module_id matches Some(id) ==> id.len() == 32,
    ensures
        ({
            let b = nso_build_spec(v)->Ok_0;
            let t = nso_stored(v.text.unwrap(), v.compress);
            let r = nso_stored(v.rodata.unwrap(), v.compress);
            let d = nso_stored(v.data.unwrap(), v.compress);
            let ro = (NSO_HEADER_SIZE + len32(t.len() as int)) as u32;
            let dof = (ro + len32(r.len() as int)) as u32;
            &&& b == nso_header(v) + t + r + d
            &&& nso_header(v).len() == 0x100
            &&& u32_of(b, 0) == NSO_MAGIC
            &&& u32_of(b, 0xC) == nso_flags(v.compress)
            &&& u32_of(b, 0x10) == NSO_HEADER_SIZE
            &&& u32_of(b, 0x14) == v.text_vaddr
            &&& u32_of(b, 0x18) == len32(padded(v.text.unwrap(), 0x1000).len() as int)
            &&& u32_of(b, 0x20) == ro
            &&& u32_of(b, 0x24) == v.rodata_vaddr
            &&& u32_of(b, 0x28) == len32(padded(v.rodata.unwrap(), 0x1000).len() as int)
            &&& u32_of(b, 0x30) == dof
            &&& u32_of(b, 0x34) == v.data_vaddr
            &&& u32_of(b, 0x38) == len32(padded(v.data.unwrap(), 0x1000).len() as int)
            &&& u32_of(b, 0x3C) == v.bss_size
            &&& u32_of(b, 0x60) == len32(t.len() as int)
            &&& u32_of(b, 0x64) == len32(r.len() as int)
            &&& u32_of(b, 0x68) == len32(d.len() as int)
        }),
{
    let t = nso_stored(v.text.unwrap(), v.compress);
    let r = nso_stored(v.rodata.unwrap(), v.compress);
    let d = nso_stored(v.data.unwrap(), v.compress);
    let f = nso_header_fields(v);
    let hd = nso_header(v);
    let b = nso_build_spec(v)->Ok_0;
    let ro = (NSO_HEADER_SIZE + len32(t.len() as int)) as u32;
    let dof = (ro + len32(r.len() as int)) as u32;
    reveal(nso_header);
    lemma_nso_fields_words(
        nso_flags(v.compress),
        (NSO_HEADER_SIZE, v.text_vaddr, len32(padded(v.text.unwrap(), 0x1000).len() as int)),
        (ro, v.rodata_vaddr, len32(padded(v.rodata.unwrap(), 0x1000).len() as int)),
        (dof, v.data_vaddr, len32(padded(v.data.unwrap(), 0x1000).len() as int)),
        v.bss_size,
        nso_module_id(v),
        (len32(t.len() as int), len32(r.len() as int), len32(d.len() as int)),
    );
    let h1 = sha256_digest(padded(v.text.unwrap(), 0x1000))@;
    let h2 = sha256_digest(padded(v.rodata.unwrap(), 0x1000))@;
    let h3 = sha256_digest(padded(v.data.unwrap(), 0x1000))@;
    let q1 = f + zeros(0x1C);
    let q2 = q1 + zeros(24);
    let q3 = q2 + h1;
    let q4 = q3 + h2;
    assert(hd == q4 + h3);
    assert(b == hd + t + r + d);
    lemma_words_kept(f, zeros(0x1C));
    lemma_words_kept(q1, zeros(24));
    lemma_words_kept(q2, h1);
    lemma_words_kept(q3, h2);
    lemma_words_kept(q4, h3);
    lemma_words_kept(hd, t);
    lemma_words_kept(hd + t, r);
    lemma_words_kept(hd + t + r, d);
}

/// The module ID and the digests of a complete builder's image, at their
/// offsets in the header.
#[verifier::spinoff_prover]
proof fn lemma_nso_image_ids(v: NsoBuilderView)
    requires
        v.text is Some,
        v.rodata is Some,
        v.data is Some,
        v.module_id matches Some(id) ==> id.len() == 32,
    ensures
        ({
            let b = nso_build_spec(v)->Ok_0;
            &&& b.subrange(0x40, 0x60) == nso_module_id(v)
            &&& b.subrange(0xA0, 0xC0) == sha256_digest(padded(v.text.unwrap(), 0x1000))@
            &&& b.subrange(0xC0, 0xE0) == sha256_digest(padded(v.rodata.unwrap(), 0x1000))@
            &&& b.subrange(0xE0, 0x100) == sha256_digest(padded(v.data.unwrap(), 0x1000))@
        }),
{
    let t = nso_stored(v.text.unwrap(), v.compress);
    let r = nso_stored(v.rodata.unwrap(), v.compress);
    let d = nso_stored(v.data.unwrap(), v.compress);
    let f = nso_header_fields(v);
    let b = nso_build_spec(v)->Ok_0;
    let ro = (NSO_HEADER_SIZE + len32(t.len() as int)) as u32;
    let dof = (ro + len32(r.len() as int)) as u32;
    reveal(nso_header);
    lemma_nso_fields_words(
        nso_flags(v.compress),
        (NSO_HEADER_SIZE, v.text_vaddr, len32(padded(v.text.unwrap(), 0x1000).len() as int)),
        (ro, v.rodata_vaddr, len32(padded(v.rodata.unwrap(), 0x1000).len() as int)),
        (dof, v.data_vaddr, len32(padded(v.data.unwrap(), 0x1000).len() as int)),
        v.bss_size,
        nso_module_id(v),
        (len32(t.len() as int), len32(r.len() as int), len32(d.len() as int)),
    );
    let h1 = sha256_digest(padded(v.text.unwrap(), 0x1000))@;
    let h2 = sha256_digest(padded(v.rodata.unwrap(), 0x1000))@;
    let h3 = sha256_digest(padded(v.data.unwrap(), 0x1000))@;
    let hd = f + zeros(0x1C) + zeros(24) + h1 + h2 + h3;
    assert(b == hd + t + r + d);
    assert(h1.len() == 32 && h2.len() == 32 && h3.len() == 32);
    assert(b.subrange(0x40, 0x60) =~= f.subrange(0x40, 0x60));
    assert(b.subrange(0xA0, 0xC0) =~= h1);
    assert(b.subrange(0xC0, 0xE0) =~= h2);
    assert(b.subrange(0xE0, 0x100) =~= h3);
}

/// A buffer made of a 0x100-byte header and three segments, whose header
/// words place the segments where they are: the NSO reader accepts it and
/// finds each segment.
proof fn lemma_nso_layout_reads(b: Seq<u8>, hd: Seq<u8>, t: Seq<u8>, r: Seq<u8>, d: Seq<u8>)
    requires
        b == hd + t + r + d,
        hd.len() == 0x100,
        0x100 + t.len() + r.len() + d.len() <= u32::MAX,
        u32_of(b, 0) == NSO_MAGIC,
        u32_of(b, 0x10) == 0x100,
        u32_of(b, 0x20) == 0x100 + t.len(),
        u32_of(b, 0x30) == 0x100 + t.len() + r.len(),
        u32_of(b, 0x60) == t.len(),
        u32_of(b, 0x64) == r.len(),
        u32_of(b, 0x68) == d.len(),
    ensures
        ({
            let h = nso_header_at(b);
            &&& nso_error(b) is None
            &&& b.subrange(h.text.file_offset as int, h.text.file_offset + h.text_file_size) == t
            &&& b.subrange(h.rodata.file_offset as int, h.rodata.file_offset + h.rodata_file_size) == r
            &&& b.subrange(h.data.file_offset as int, h.data.file_offset + h.data_file_size) == d
        }),
{
    lemma_nso_header_at_words(b);
    let tl = t.len() as int;
    let rl = r.len() as int;
    let dl = d.len() as int;
    assert(b.subrange(0x100, 0x100 + tl) =~= t);
    assert(b.subrange(0x100 + tl, 0x100 + tl + rl) =~= r);
    assert(b.subrange(0x100 + tl + rl, 0x100 + tl + rl + dl) =~= d);
}

/// An NSO written by a complete builder is accepted by the NSO reader and
/// reads back as written: the header holds the builder's flags, memory
/// offsets, padded segment sizes and BSS size, its module ID (zeros when
/// none was set) at 0x40 and the SHA-256 digests of the padded segments at
/// 0xA0; the text starts right after the 0x100-byte header, and each
/// segment is found, as stored, where the header places it.
#[verifier::spinoff_prover]
pub proof fn lemma_built_nso_reads_back(v: NsoBuilderView)
    requires
        v.text is Some,
        v.rodata is Some,
        v.data is Some,
        v.module_id matches Some(id) ==> id.len() == 32,
        NSO_HEADER_SIZE + nso_stored(v.text.unwrap(), v.compress).len() + nso_stored(
            v.rodata.unwrap(),
            v.compress,
        ).len() + nso_stored(v.data.unwrap(), v.compress).len() <= u32::MAX,
    ensures
        ({
            let b = nso_build_spec(v)->Ok_0;
            let h = nso_header_at(b);
            &&& nso_error(b) is None
            &&& h.flags == nso_flags(v.compress)
            &&& h.text.memory_offset == v.text_vaddr
            &&& h.rodata.memory_offset == v.rodata_vaddr
            &&& h.data.memory_offset == v.data_vaddr
            &&& h.bss_size == v.bss_size
            &&& h.text.file_offset == NSO_HEADER_SIZE
            &&& h.text_file_size == nso_stored(v.text.unwrap(), v.compress).len()
            &&& h.rodata_file_size == nso_stored(v.rodata.unwrap(), v.compress).len()
            &&& h.data_file_size == nso_stored(v.data.unwrap(), v.compress).len()
            &&& h.text.size == len32(padded(v.text.unwrap(), 0x1000).len() as int)
            &&& h.rodata.size == len32(padded(v.rodata.unwrap(), 0x1000).len() as int)
            &&& h.data.size == len32(padded(v.data.unwrap(), 0x1000).len() as int)
            &&& b.subrange(0x40, 0x60) == nso_module_id(v)
            &&& b.subrange(0xA0, 0xC0) == sha256_digest(padded(v.text.unwrap(), 0x1000))@
            &&& b.subrange(0xC0, 0xE0) == sha256_digest(padded(v.rodata.unwrap(), 0x1000))@
            &&& b.subrange(0xE0, 0x100) == sha256_digest(padded(v.data.unwrap(), 0x1000))@
            &&& b.subrange(h.text.file_offset as int, h.text.file_offset + h.text_file_size)
                == nso_stored(v.text.unwrap(), v.compress)
            &&& b.subrange(h.rodata.file_offset as int, h.rodata.file_offset + h.rodata_file_size)
                == nso_stored(v.rodata.unwrap(), v.compress)
            &&& b.subrange(h.data.file_offset as int, h.data.file_offset + h.data_file_size)
                == nso_stored(v.data.unwrap(), v.compress)
        }),
{
    let t = nso_stored(v.text.unwrap(), v.compress);
    let r = nso_stored(v.rodata.unwrap(), v.compress);
    let d = nso_stored(v.data.unwrap(), v.compress);
    let b = nso_build_spec(v)->Ok_0;
    lemma_nso_image_words(v);
    lemma_nso_image_ids(v);
    lemma_nso_header_at_words(b);
    lemma_nso_layout_reads(b, nso_header(v), t, r, d);
}

} // verus!
