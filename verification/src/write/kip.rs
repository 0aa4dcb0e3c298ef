//! KIP1 (Kernel Initial Process) builder.
//!
//! KIP1 is the format for system modules that run as initial kernel processes.
//! The text, rodata and data segments are BLZ-compressed.

use vstd::prelude::*;

use crate::blz::{blz_compress_spec, blz_decode_spec, compress, lemma_decode_compressed, NONE};
use crate::bytes::{
    bytes_result, le32, le64, lemma_ranges_kept, lemma_u64_appended, lemma_word_appended,
    lemma_words_kept, push4, push_all, push_repeat, push_u32, push_u64,
    push_zeros, repeat, round_up, trunc_u32, u32_of, u64_of, zeros,
};
use crate::raw::kip::{kip1_segment_at, Kip1Segment};

verus! {

/// KIP1 magic number: "KIP1" in ASCII.
pub const KIP1_MAGIC: u32 = 0x3150494b;

/// Flags written when none were set: bits 0-5 (compression of the three
/// segments, Is64Bit, IsAddrSpace32Bit, UseSystemPoolPartition), with bit 6
/// (Immortal) left clear.
pub const KIP1_DEFAULT_FLAGS: u8 = 0x3F;

/// Builder for constructing KIP1 files.
pub struct Kip1Builder {
    name: Option<String>,
    title_id: u64,
    process_category: u32,
    main_thread_priority: u8,
    default_cpu_id: u8,
    flags: Option<u8>,
    text: Option<Vec<u8>>,
    text_vaddr: u32,
    rodata: Option<Vec<u8>>,
    rodata_vaddr: u32,
    rodata_attributes: u32,
    data: Option<Vec<u8>>,
    data_vaddr: u32,
    bss_vaddr: Option<u32>,
    bss_size: Option<u32>,
    kernel_capabilities: Vec<u32>,
}

/// What a [`Kip1Builder`] holds.
pub struct Kip1BuilderView {
    pub name: Option<Seq<char>>,
    pub title_id: u64,
    pub process_category: u32,
    pub main_thread_priority: u8,
    pub default_cpu_id: u8,
    pub flags: Option<u8>,
    pub text: Option<Seq<u8>>,
    pub text_vaddr: u32,
    pub rodata: Option<Seq<u8>>,
    pub rodata_vaddr: u32,
    pub rodata_attributes: u32,
    pub data: Option<Seq<u8>>,
    pub data_vaddr: u32,
    pub bss_vaddr: Option<u32>,
    pub bss_size: Option<u32>,
    pub kernel_capabilities: Seq<u32>,
}

/// The bytes held by an optional buffer.
pub open spec fn opt_bytes(o: Option<Vec<u8>>) -> Option<Seq<u8>> {
    match o {
        Some(v) => Some(v@),
        None => None,
    }
}

impl View for Kip1Builder {
    type V = Kip1BuilderView;

    closed spec fn view(&self) -> Kip1BuilderView {
        Kip1BuilderView {
            name: match self.name {
                Some(n) => Some(n@),
                None => None,
            },
            title_id: self.title_id,
            process_category: self.process_category,
            main_thread_priority: self.main_thread_priority,
            default_cpu_id: self.default_cpu_id,
            flags: self.flags,
            text: opt_bytes(self.text),
            text_vaddr: self.text_vaddr,
            rodata: opt_bytes(self.rodata),
            rodata_vaddr: self.rodata_vaddr,
            rodata_attributes: self.rodata_attributes,
            data: opt_bytes(self.data),
            data_vaddr: self.data_vaddr,
            bss_vaddr: self.bss_vaddr,
            bss_size: self.bss_size,
            kernel_capabilities: self.kernel_capabilities@,
        }
    }
}

/// Errors that can occur when building a KIP1 file.
#[derive(Debug, PartialEq, Eq, Structural)]
pub enum BuildError {
    /// `build` was called before the process name was set.
    MissingName,
    /// `build` was called before a text segment was set.
    MissingText,
    /// `build` was called before a rodata segment was set.
    MissingRodata,
    /// `build` was called before a data segment was set.
    MissingData,
    /// Only one of `bss_vaddr` and `bss_size` was set; both must be set
    /// together, or neither.
    IncompleteBssConfiguration {
        /// Whether `bss_vaddr` was set.
        has_vaddr: bool,
        /// Whether `bss_size` was set.
        has_size: bool,
    },
    /// More than 32 kernel capability descriptors.
    TooManyKernelCapabilities {
        /// The number of capabilities provided.
        count: usize,
    },
}

/// Whether the BLZ encoder accepts a segment of these bytes: its positions fit
/// in 32 bits and its worst-case output in memory.
pub open spec fn blz_accepts(d: Seq<u8>) -> bool {
    d.len() < NONE && d.len() + d.len() / 8 + 16 <= usize::MAX
}

/// A KIP1 segment descriptor.
pub open spec fn kip1_segment(dst: u32, decomp: u32, comp: u32, attributes: u32) -> Seq<u8> {
    le32(dst) + le32(decomp) + le32(comp) + le32(attributes)
}

/// The 12-byte name field: at most 11 bytes of the UTF-8 name, zero-filled.
pub open spec fn kip1_name_field(name: Seq<char>) -> Seq<u8> {
    let b = vstd::utf8::encode_utf8(name);
    let t = if b.len() > 11 { b.take(11) } else { b };
    t + zeros((12 - t.len()) as nat)
}

/// Little-endian bytes of each value, concatenated.
pub open spec fn le32_all(vs: Seq<u32>) -> Seq<u8>
    decreases vs.len(),
{
    if vs.len() == 0 {
        Seq::empty()
    } else {
        le32_all(vs.drop_last()) + le32(vs.last())
    }
}

/// The 0x80-byte capability field: the descriptors, then `0xFF` filler.
pub open spec fn kip1_caps_field(caps: Seq<u32>) -> Seq<u8> {
    le32_all(caps) + repeat(0xFF, (0x80 - 4 * caps.len()) as nat)
}

/// A length as it is recorded in a 32-bit field.
pub open spec fn len32(n: int) -> u32 {
    (n % 0x1_0000_0000) as u32
}

/// The KIP1 header for the given name, metadata, and compressed segments.
pub open spec fn kip1_header(v: Kip1BuilderView, text_c: Seq<u8>, rodata_c: Seq<u8>, data_c: Seq<u8>) -> Seq<u8> {
    let text = v.text.unwrap();
    let rodata = v.rodata.unwrap();
    let data = v.data.unwrap();
    let flags = match v.flags {
        Some(f) => f,
        None => KIP1_DEFAULT_FLAGS,
    };
    let bss = match (v.bss_vaddr, v.bss_size) {
        (Some(a), Some(s)) => kip1_segment(a, s, 0, 0),
        _ => zeros(16),
    };
    le32(KIP1_MAGIC) + kip1_name_field(v.name.unwrap()) + le64(v.title_id) + le32(
        v.process_category,
    ) + seq![v.main_thread_priority, v.default_cpu_id, 0u8, flags] + kip1_segment(
        v.text_vaddr,
        len32(text.len() as int),
        len32(text_c.len() as int),
        0,
    ) + kip1_segment(
        v.rodata_vaddr,
        len32(rodata.len() as int),
        len32(rodata_c.len() as int),
        v.rodata_attributes,
    ) + kip1_segment(v.data_vaddr, len32(data.len() as int), len32(data_c.len() as int), 0) + bss
        + zeros(32) + kip1_caps_field(v.kernel_capabilities)
}

/// A builder with nothing set.
pub open spec fn kip1_builder_empty() -> Kip1BuilderView {
    Kip1BuilderView {
        name: None,
        title_id: 0,
        process_category: 0,
        main_thread_priority: 0,
        default_cpu_id: 0,
        flags: None,
        text: None,
        text_vaddr: 0,
        rodata: None,
        rodata_vaddr: 0,
        rodata_attributes: 0,
        data: None,
        data_vaddr: 0,
        bss_vaddr: None,
        bss_size: None,
        kernel_capabilities: Seq::empty(),
    }
}

/// What [`Kip1Builder::build`] produces for a builder holding `v`.
pub open spec fn kip1_build_spec(v: Kip1BuilderView) -> Result<Seq<u8>, BuildError> {
    if v.name is None {
        Err(BuildError::MissingName)
    } else if v.text is None {
        Err(BuildError::MissingText)
    } else if v.rodata is None {
        Err(BuildError::MissingRodata)
    } else if v.data is None {
        Err(BuildError::MissingData)
    } else if v.bss_vaddr is Some && v.bss_size is None {
        Err(BuildError::IncompleteBssConfiguration { has_vaddr: true, has_size: false })
    } else if v.bss_vaddr is None && v.bss_size is Some {
        Err(BuildError::IncompleteBssConfiguration { has_vaddr: false, has_size: true })
    } else if v.kernel_capabilities.len() > 0x20 {
        Err(
            BuildError::TooManyKernelCapabilities {
                count: v.kernel_capabilities.len() as usize,
            },
        )
    } else {
        let text_c = blz_compress_spec(v.text.unwrap());
        let rodata_c = blz_compress_spec(v.rodata.unwrap());
        let data_c = blz_compress_spec(v.data.unwrap());
        Ok(kip1_header(v, text_c, rodata_c, data_c) + text_c + rodata_c + data_c)
    }
}

/// Appends the 12-byte name field.
fn push_name_field(output: &mut Vec<u8>, name: &String)
    ensures
        final(output)@ == old(output)@ + kip1_name_field(name@),
{
    let name_bytes = name.as_str().as_bytes();
    let name_len = if name_bytes.len() > 11 {
        11
    } else {
        name_bytes.len()
    };
    let ghost before = output@;
    let mut i: usize = 0;
    while i < name_len
        invariant
            i <= name_len <= name_bytes@.len(),
            name_len <= 11,
            output@ == before + name_bytes@.subrange(0, i as int),
        decreases name_len - i,
    {
        output.push(name_bytes[i]);
        i = i + 1;
        assert(output@ =~= before + name_bytes@.subrange(0, i as int));
    }
    push_repeat(output, 0, 12 - name_len);
    proof {
        let b = vstd::utf8::encode_utf8(name@);
        assert(name_bytes@ == b);
        let t = if b.len() > 11 { b.take(11) } else { b };
        assert(name_bytes@.subrange(0, name_len as int) =~= t);
        assert(repeat(0, (12 - name_len) as nat) =~= zeros((12 - t.len()) as nat));
        assert(final(output)@ =~= before + kip1_name_field(name@));
    }
}

/// Appends a segment descriptor.
fn push_segment(output: &mut Vec<u8>, dst: u32, decomp: u32, comp: u32, attributes: u32)
    ensures
        final(output)@ == old(output)@ + kip1_segment(dst, decomp, comp, attributes),
{
    push_u32(output, dst);
    push_u32(output, decomp);
    push_u32(output, comp);
    push_u32(output, attributes);
    assert(final(output)@ =~= old(output)@ + kip1_segment(dst, decomp, comp, attributes));
}

/// Appends the capability field: 32 descriptor slots, unused ones `0xFF`.
fn push_caps_field(output: &mut Vec<u8>, caps: &Vec<u32>)
    requires
        caps@.len() <= 0x20,
    ensures
        final(output)@ == old(output)@ + kip1_caps_field(caps@),
{
    let ghost before = output@;
    let mut k: usize = 0;
    while k < caps.len()
        invariant
            k <= caps.len() <= 0x20,
            output@ == before + le32_all(caps@.subrange(0, k as int)),
        decreases caps.len() - k,
    {
        push_u32(output, caps[k]);
        k = k + 1;
        assert(caps@.subrange(0, k as int).drop_last() =~= caps@.subrange(0, k - 1));
        assert(output@ =~= before + le32_all(caps@.subrange(0, k as int)));
    }
    push_repeat(output, 0xFF, 0x80 - 4 * caps.len());
    assert(caps@.subrange(0, caps.len() as int) =~= caps@);
    assert(final(output)@ =~= before + kip1_caps_field(caps@));
}

impl Kip1Builder {
    /// Create a new KIP1 builder with nothing set.
    pub fn new() -> (r: Self)
        ensures
            r@ == kip1_builder_empty(),
    {
        Kip1Builder {
            name: None,
            title_id: 0,
            process_category: 0,
            main_thread_priority: 0,
            default_cpu_id: 0,
            flags: None,
            text: None,
            text_vaddr: 0,
            rodata: None,
            rodata_vaddr: 0,
            rodata_attributes: 0,
            data: None,
            data_vaddr: 0,
            bss_vaddr: None,
            bss_size: None,
            kernel_capabilities: Vec::new(),
        }
    }

    /// Set the process name (at most 11 bytes are kept, null-terminated).
    pub fn name(self, name: String) -> (r: Self)
        ensures
            r@ == (Kip1BuilderView { name: Some(name@), ..self@ }),
    {
        let mut b = self;
        b.name = Some(name);
        b
    }

    /// Set the title ID.
    pub fn title_id(self, id: u64) -> (r: Self)
        ensures
            r@ == (Kip1BuilderView { title_id: id, ..self@ }),
    {
        let mut b = self;
        b.title_id = id;
        b
    }

    /// Set the process category.
    pub fn process_category(self, category: u32) -> (r: Self)
        ensures
            r@ == (Kip1BuilderView { process_category: category, ..self@ }),
    {
        let mut b = self;
        b.process_category = category;
        b
    }

    /// Set the main thread priority (0-63).
    pub fn main_thread_priority(self, priority: u8) -> (r: Self)
        ensures
            r@ == (Kip1BuilderView { main_thread_priority: priority, ..self@ }),
    {
        let mut b = self;
        b.main_thread_priority = priority;
        b
    }

    /// Set the default CPU core ID.
    pub fn default_cpu_id(self, cpu_id: u8) -> (r: Self)
        ensures
            r@ == (Kip1BuilderView { default_cpu_id: cpu_id, ..self@ }),
    {
        let mut b = self;
        b.default_cpu_id = cpu_id;
        b
    }

    /// Set the flags byte (bits 0-2 compression of text, rodata, data; bit 3
    /// Is64Bit; bit 4 IsAddrSpace32Bit; bit 5 UseSystemPoolPartition; bit 6
    /// Immortal). Unset, the header carries [`KIP1_DEFAULT_FLAGS`].
    pub fn flags(self, flags: u8) -> (r: Self)
        ensures
            r@ == (Kip1BuilderView { flags: Some(flags), ..self@ }),
    {
        let mut b = self;
        b.flags = Some(flags);
        b
    }

    /// Set the text (code) segment.
    pub fn text(self, data: Vec<u8>) -> (r: Self)
        ensures
            r@ == (Kip1BuilderView { text: Some(data@), ..self@ }),
    {
        let mut b = self;
        b.text = Some(data);
        b
    }

    /// Set the text segment's virtual address.
    pub fn text_vaddr(self, vaddr: u32) -> (r: Self)
        ensures
            r@ == (Kip1BuilderView { text_vaddr: vaddr, ..self@ }),
    {
        let mut b = self;
        b.text_vaddr = vaddr;
        b
    }

    /// Set the rodata (read-only data) segment.
    pub fn rodata(self, data: Vec<u8>) -> (r: Self)
        ensures
            r@ == (Kip1BuilderView { rodata: Some(data@), ..self@ }),
    {
        let mut b = self;
        b.rodata = Some(data);
        b
    }

    /// Set the rodata segment's virtual address.
    pub fn rodata_vaddr(self, vaddr: u32) -> (r: Self)
        ensures
            r@ == (Kip1BuilderView { rodata_vaddr: vaddr, ..self@ }),
    {
        let mut b = self;
        b.rodata_vaddr = vaddr;
        b
    }

    /// Set the rodata segment attributes (e.g. the main thread stack size).
    pub fn rodata_attributes(self, attributes: u32) -> (r: Self)
        ensures
            r@ == (Kip1BuilderView { rodata_attributes: attributes, ..self@ }),
    {
        let mut b = self;
        b.rodata_attributes = attributes;
        b
    }

    /// Set the data (read-write data) segment.
    pub fn data(self, data: Vec<u8>) -> (r: Self)
        ensures
            r@ == (Kip1BuilderView { data: Some(data@), ..self@ }),
    {
        let mut b = self;
        b.data = Some(data);
        b
    }

    /// Set the data segment's virtual address.
    pub fn data_vaddr(self, vaddr: u32) -> (r: Self)
        ensures
            r@ == (Kip1BuilderView { data_vaddr: vaddr, ..self@ }),
    {
        let mut b = self;
        b.data_vaddr = vaddr;
        b
    }

    /// Set the BSS virtual address. `bss_vaddr` and `bss_size` must be set
    /// together.
    pub fn bss_vaddr(self, vaddr: u32) -> (r: Self)
        ensures
            r@ == (Kip1BuilderView { bss_vaddr: Some(vaddr), ..self@ }),
    {
        let mut b = self;
        b.bss_vaddr = Some(vaddr);
        b
    }

    /// Set the BSS size in bytes. `bss_vaddr` and `bss_size` must be set
    /// together.
    pub fn bss_size(self, size: u32) -> (r: Self)
        ensures
            r@ == (Kip1BuilderView { bss_size: Some(size), ..self@ }),
    {
        let mut b = self;
        b.bss_size = Some(size);
        b
    }

    /// Append pre-encoded kernel capability descriptors.
    pub fn kernel_capabilities(self, capabilities: Vec<u32>) -> (r: Self)
        ensures
            r@ == (Kip1BuilderView {
                kernel_capabilities: self@.kernel_capabilities + capabilities@,
                ..self@
            }),
    {
        let mut b = self;
        let mut i: usize = 0;
        let ghost start = b.kernel_capabilities@;
        while i < capabilities.len()
            invariant
                i <= capabilities.len(),
                b@ == (Kip1BuilderView {
                    kernel_capabilities: start + capabilities@.subrange(0, i as int),
                    ..self@
                }),
            decreases capabilities.len() - i,
        {
            b.kernel_capabilities.push(capabilities[i]);
            i = i + 1;
            assert(b.kernel_capabilities@ =~= start + capabilities@.subrange(0, i as int));
        }
        assert(capabilities@.subrange(0, capabilities.len() as int) =~= capabilities@);
        b
    }

    /// Whether the BLZ encoder accepts every segment set: [`blz_accepts`].
    pub fn segments_fit(&self) -> (r: bool)
        ensures
            r == ((self@.text matches Some(t) ==> blz_accepts(t)) && (self@.rodata matches Some(t) ==> blz_accepts(t))
                && (self@.data matches Some(t) ==> blz_accepts(t))),
    {
        opt_accepted(&self.text) && opt_accepted(&self.rodata) && opt_accepted(&self.data)
    }

    /// Build the KIP1 file when [`Kip1Builder::segments_fit`] holds, and
    /// `None` otherwise.
    pub fn try_build(self) -> (r: Option<Result<Vec<u8>, BuildError>>)
        ensures
            r is Some <==> ((self@.text matches Some(t) ==> blz_accepts(t)) && (self@.rodata matches Some(t)
                ==> blz_accepts(t)) && (self@.data matches Some(t) ==> blz_accepts(t))),
            r matches Some(b) ==> bytes_result(b) == kip1_build_spec(self@),
    {
        if self.segments_fit() {
            Some(self.build())
        } else {
            None
        }
    }

    /// Build the complete KIP1 file: the 0x100-byte header followed by the
    /// BLZ-compressed text, rodata and data segments.
    ///
    /// Fails when the name or a segment is missing, when only one of the BSS
    /// address and size is set, or when there are more than 32 kernel
    /// capability descriptors.
    pub fn build(self) -> (r: Result<Vec<u8>, BuildError>)
        requires
            self@.text matches Some(t) ==> blz_accepts(t),
            self@.rodata matches Some(t) ==> blz_accepts(t),
            self@.data matches Some(t) ==> blz_accepts(t),
        ensures
            bytes_result(r) == kip1_build_spec(self@),
    {
        let ghost v = self@;
        if self.name.is_none() {
            return Err(BuildError::MissingName);
        }
        if self.text.is_none() {
            return Err(BuildError::MissingText);
        }
        if self.rodata.is_none() {
            return Err(BuildError::MissingRodata);
        }
        if self.data.is_none() {
            return Err(BuildError::MissingData);
        }
        match (self.bss_vaddr, self.bss_size) {
            (Some(_), None) => {
                return Err(
                    BuildError::IncompleteBssConfiguration { has_vaddr: true, has_size: false },
                );
            },
            (None, Some(_)) => {
                return Err(
                    BuildError::IncompleteBssConfiguration { has_vaddr: false, has_size: true },
                );
            },
            _ => {},
        }
        if self.kernel_capabilities.len() > 0x20 {
            return Err(
                BuildError::TooManyKernelCapabilities { count: self.kernel_capabilities.len() },
            );
        }
        Ok(self.emit())
    }

    /// Lays out the header and the compressed segments of a validated builder.
    fn emit(&self) -> (r: Vec<u8>)
        requires
            self@.name is Some,
            self@.text matches Some(t) && blz_accepts(t),
            self@.rodata matches Some(t) && blz_accepts(t),
            self@.data matches Some(t) && blz_accepts(t),
            self@.bss_vaddr is Some <==> self@.bss_size is Some,
            self@.kernel_capabilities.len() <= 0x20,
        ensures
            kip1_build_spec(self@) == Ok::<Seq<u8>, BuildError>(r@),
    {
        let ghost v = self@;
        let name = self.name.as_ref().unwrap();
        let text = self.text.as_ref().unwrap();
        let rodata = self.rodata.as_ref().unwrap();
        let data = self.data.as_ref().unwrap();
        let text_compressed = compress(text.as_slice());
        let rodata_compressed = compress(rodata.as_slice());
        let data_compressed = compress(data.as_slice());
        let flags = match self.flags {
            Some(f) => f,
            None => KIP1_DEFAULT_FLAGS,
        };

        let mut output: Vec<u8> = Vec::new();
        push_u32(&mut output, KIP1_MAGIC);
        push_name_field(&mut output, name);
        push_u64(&mut output, self.title_id);
        push_u32(&mut output, self.process_category);
        push4(&mut output, self.main_thread_priority, self.default_cpu_id, 0, flags);
        // Text, rodata and data segment descriptors.
        push_segment(
            &mut output,
            self.text_vaddr,
            trunc_u32(text.len()),
            trunc_u32(text_compressed.len()),
            0,
        );
        push_segment(
            &mut output,
            self.rodata_vaddr,
            trunc_u32(rodata.len()),
            trunc_u32(rodata_compressed.len()),
            self.rodata_attributes,
        );
        push_segment(
            &mut output,
            self.data_vaddr,
            trunc_u32(data.len()),
            trunc_u32(data_compressed.len()),
            0,
        );
        // BSS segment, if configured; the two reserved segments stay zeroed.
        match (self.bss_vaddr, self.bss_size) {
            (Some(bss_vaddr), Some(bss_size)) => {
                push_segment(&mut output, bss_vaddr, bss_size, 0, 0);
            },
            _ => {
                push_zeros(&mut output, 16);
            },
        }
        push_zeros(&mut output, 32);
        push_caps_field(&mut output, &self.kernel_capabilities);
        assert(output@ == kip1_header(v, text_compressed@, rodata_compressed@, data_compressed@));
        push_all(&mut output, text_compressed.as_slice());
        push_all(&mut output, rodata_compressed.as_slice());
        push_all(&mut output, data_compressed.as_slice());
        output
    }
}

impl Default for Kip1Builder {
    fn default() -> (r: Self)
        ensures
            r@ == kip1_builder_empty(),
    {
        Self::new()
    }
}


/// A built KIP1 stores at most 11 bytes of the process name, so the last
/// byte of its 12-byte name field is always zero.
pub proof fn lemma_kip_name_terminated(v: Kip1BuilderView)
    requires
        kip1_build_spec(v) is Ok,
    ensures
        ({
            let b = kip1_build_spec(v)->Ok_0;
            let n = vstd::utf8::encode_utf8(v.name.unwrap());
            let k = if n.len() > 11 {
                11
            } else {
                n.len() as int
            };
            &&& b[0xF] == 0
            &&& b.subrange(4, 4 + k) == n.take(k)
        }),
{
    let text = v.text.unwrap();
    let rodata = v.rodata.unwrap();
    let data = v.data.unwrap();
    let text_c = blz_compress_spec(text);
    let rodata_c = blz_compress_spec(rodata);
    let data_c = blz_compress_spec(data);
    let flags = match v.flags {
        Some(f) => f,
        None => KIP1_DEFAULT_FLAGS,
    };
    let bss = match (v.bss_vaddr, v.bss_size) {
        (Some(a), Some(s)) => kip1_segment(a, s, 0, 0),
        _ => zeros(16),
    };
    let f = kip1_name_field(v.name.unwrap());
    let p1 = le32(KIP1_MAGIC) + f;
    let p2 = p1 + le64(v.title_id);
    let p3 = p2 + le32(v.process_category);
    let p4 = p3 + seq![v.main_thread_priority, v.default_cpu_id, 0u8, flags];
    let p5 = p4 + kip1_segment(v.text_vaddr, len32(text.len() as int), len32(text_c.len() as int), 0);
    let p6 = p5 + kip1_segment(
        v.rodata_vaddr,
        len32(rodata.len() as int),
        len32(rodata_c.len() as int),
        v.rodata_attributes,
    );
    let p7 = p6 + kip1_segment(v.data_vaddr, len32(data.len() as int), len32(data_c.len() as int), 0);
    let p8 = p7 + bss;
    let p9 = p8 + zeros(32);
    let h = p9 + kip1_caps_field(v.kernel_capabilities);
    assert(kip1_header(v, text_c, rodata_c, data_c) == h);
    let b = kip1_build_spec(v)->Ok_0;
    assert(b == h + text_c + rodata_c + data_c);
    lemma_ranges_kept(p1, le64(v.title_id));
    lemma_ranges_kept(p2, le32(v.process_category));
    lemma_ranges_kept(p3, seq![v.main_thread_priority, v.default_cpu_id, 0u8, flags]);
    lemma_ranges_kept(p4, kip1_segment(v.text_vaddr, len32(text.len() as int), len32(text_c.len() as int), 0));
    lemma_ranges_kept(p5, kip1_segment(
        v.rodata_vaddr,
        len32(rodata.len() as int),
        len32(rodata_c.len() as int),
        v.rodata_attributes,
    ));
    lemma_ranges_kept(p6, kip1_segment(v.data_vaddr, len32(data.len() as int), len32(data_c.len() as int), 0));
    lemma_ranges_kept(p7, bss);
    lemma_ranges_kept(p8, zeros(32));
    lemma_ranges_kept(p9, kip1_caps_field(v.kernel_capabilities));
    lemma_ranges_kept(h, text_c);
    lemma_ranges_kept(h + text_c, rodata_c);
    lemma_ranges_kept(h + text_c + rodata_c, data_c);
    assert(f.len() == 12);
    assert(p1.subrange(4, 16) =~= f);
    assert(b.subrange(4, 16) == f);
    let n = vstd::utf8::encode_utf8(v.name.unwrap());
    let k = if n.len() > 11 {
        11
    } else {
        n.len() as int
    };
    assert(b[0xF] == b.subrange(4, 16)[11]);
    assert(f.subrange(0, k) =~= n.take(k));
    assert(b.subrange(4, 4 + k) =~= b.subrange(4, 16).subrange(0, k));
}

/// A segment descriptor appended reads back as its four words.
proof fn lemma_kip_segment_appended(s: Seq<u8>, a: u32, b: u32, c: u32, d: u32)
    ensures
        kip1_segment_at(s + kip1_segment(a, b, c, d), s.len() as int) == (Kip1Segment {
            dst_addr: a,
            decomp_size: b,
            comp_size: c,
            attributes: d,
        }),
{
    assert(s + kip1_segment(a, b, c, d) =~= s + le32(a) + le32(b) + le32(c) + le32(d));
    lemma_word_appended(s, a);
    lemma_word_appended(s + le32(a), b);
    lemma_word_appended(s + le32(a) + le32(b), c);
    lemma_word_appended(s + le32(a) + le32(b) + le32(c), d);
    lemma_words_kept(s + le32(a), le32(b));
    lemma_words_kept(s + le32(a) + le32(b), le32(c));
    lemma_words_kept(s + le32(a) + le32(b) + le32(c), le32(d));
}

/// The flags a builder writes: the ones set, else [`KIP1_DEFAULT_FLAGS`].
pub open spec fn kip1_flags(v: Kip1BuilderView) -> u8 {
    match v.flags {
        Some(f) => f,
        None => KIP1_DEFAULT_FLAGS,
    }
}

/// The words of a KIP1 header laid out from its pieces: magic, the 12-byte
/// name field, title ID, process category, the four priority, CPU,
/// reserved and flag bytes, three segment descriptors, then the rest.
#[verifier::spinoff_prover]
#[verifier::rlimit(60)]
proof fn lemma_kip_layout_words(
    f: Seq<u8>,
    title: u64,
    cat: u32,
    quad: Seq<u8>,
    st: (u32, u32, u32, u32),
    sr: (u32, u32, u32, u32),
    sd: (u32, u32, u32, u32),
    tail: Seq<u8>,
)
    requires
        f.len() == 12,
        quad.len() == 4,
    ensures
        ({
            let h = le32(KIP1_MAGIC) + f + le64(title) + le32(cat) + quad + kip1_segment(st.0, st.1, st.2, st.3)
                + kip1_segment(sr.0, sr.1, sr.2, sr.3) + kip1_segment(sd.0, sd.1, sd.2, sd.3) + tail;
            &&& h.len() == 0x50 + tail.len()
            &&& u32_of(h, 0) == KIP1_MAGIC
            &&& u64_of(h, 0x10) == title
            &&& u32_of(h, 0x18) == cat
            &&& h[0x1C] == quad[0] && h[0x1D] == quad[1] && h[0x1F] == quad[3]
            &&& kip1_segment_at(h, 0x20) == (Kip1Segment {
                dst_addr: st.0,
                decomp_size: st.1,
                comp_size: st.2,
                attributes: st.3,
            })
            &&& kip1_segment_at(h, 0x30) == (Kip1Segment {
                dst_addr: sr.0,
                decomp_size: sr.1,
                comp_size: sr.2,
                attributes: sr.3,
            })
            &&& kip1_segment_at(h, 0x40) == (Kip1Segment {
                dst_addr: sd.0,
                decomp_size: sd.1,
                comp_size: sd.2,
                attributes: sd.3,
            })
        }),
{
    let s_t = kip1_segment(st.0, st.1, st.2, st.3);
    let s_r = kip1_segment(sr.0, sr.1, sr.2, sr.3);
    let s_d = kip1_segment(sd.0, sd.1, sd.2, sd.3);
    let p0 = le32(KIP1_MAGIC);
    let p1 = p0 + f;
    let p2 = p1 + le64(title);
    let p3 = p2 + le32(cat);
    let p4 = p3 + quad;
    let p5 = p4 + s_t;
    let p6 = p5 + s_r;
    let p7 = p6 + s_d;
    let h = p7 + tail;
    lemma_word_appended(Seq::empty(), KIP1_MAGIC);
    assert(Seq::<u8>::empty() + le32(KIP1_MAGIC) =~= p0);
    lemma_u64_appended(p1, title);
    lemma_word_appended(p2, cat);
    lemma_kip_segment_appended(p4, st.0, st.1, st.2, st.3);
    lemma_kip_segment_appended(p5, sr.0, sr.1, sr.2, sr.3);
    lemma_kip_segment_appended(p6, sd.0, sd.1, sd.2, sd.3);
    lemma_prefix_word(p0, f, 0);
    lemma_prefix_word(p1 + le64(title), le32(cat), 0x10);
    lemma_prefix_word(p1 + le64(title), le32(cat), 0x14);
    lemma_prefix_word(p0 + f, le64(title), 0);
    lemma_prefix_word(p2, le32(cat), 0);
    lemma_prefix_word(p3, quad, 0);
    lemma_prefix_word(p3, quad, 0x10);
    lemma_prefix_word(p3, quad, 0x14);
    lemma_prefix_word(p3, quad, 0x18);
    lemma_prefix_word(p4, s_t, 0);
    lemma_prefix_word(p4, s_t, 0x10);
    lemma_prefix_word(p4, s_t, 0x14);
    lemma_prefix_word(p4, s_t, 0x18);
    lemma_prefix_word(p5, s_r, 0);
    lemma_prefix_word(p5, s_r, 0x10);
    lemma_prefix_word(p5, s_r, 0x14);
    lemma_prefix_word(p5, s_r, 0x18);
    lemma_prefix_segment(p5, s_r, 0x20);
    lemma_prefix_word(p6, s_d, 0);
    lemma_prefix_word(p6, s_d, 0x10);
    lemma_prefix_word(p6, s_d, 0x14);
    lemma_prefix_word(p6, s_d, 0x18);
    lemma_prefix_segment(p6, s_d, 0x20);
    lemma_prefix_segment(p6, s_d, 0x30);
    lemma_prefix_word(p7, tail, 0);
    lemma_prefix_word(p7, tail, 0x10);
    lemma_prefix_word(p7, tail, 0x14);
    lemma_prefix_word(p7, tail, 0x18);
    lemma_prefix_segment(p7, tail, 0x20);
    lemma_prefix_segment(p7, tail, 0x30);
    lemma_prefix_segment(p7, tail, 0x40);
    assert(h[0x1C] == quad[0] && h[0x1D] == quad[1] && h[0x1F] == quad[3]);
}

/// The little-endian bytes of `vs` take four bytes each.
proof fn lemma_le32_all_len(vs: Seq<u32>)
    ensures
        le32_all(vs).len() == 4 * vs.len(),
    decreases vs.len(),
{
    if vs.len() > 0 {
        lemma_le32_all_len(vs.drop_last());
    }
}

/// The fields of a KIP1 header, read back at their offsets.
#[verifier::spinoff_prover]
proof fn lemma_kip_header_fields(v: Kip1BuilderView, text_c: Seq<u8>, rodata_c: Seq<u8>, data_c: Seq<u8>)
    requires
        v.name is Some,
        v.text is Some,
        v.rodata is Some,
        v.data is Some,
        v.kernel_capabilities.len() <= 0x20,
    ensures
        ({
            let h = kip1_header(v, text_c, rodata_c, data_c);
            &&& h.len() == 0x100
            &&& u32_of(h, 0) == KIP1_MAGIC
            &&& u64_of(h, 0x10) == v.title_id
            &&& u32_of(h, 0x18) == v.process_category
            &&& h[0x1C] == v.main_thread_priority
            &&& h[0x1D] == v.default_cpu_id
            &&& h[0x1F] == kip1_flags(v)
            &&& kip1_segment_at(h, 0x20) == (Kip1Segment {
                dst_addr: v.text_vaddr,
                decomp_size: len32(v.text.unwrap().len() as int),
                comp_size: len32(text_c.len() as int),
                attributes: 0,
            })
            &&& kip1_segment_at(h, 0x30) == (Kip1Segment {
                dst_addr: v.rodata_vaddr,
                decomp_size: len32(v.rodata.unwrap().len() as int),
                comp_size: len32(rodata_c.len() as int),
                attributes: v.rodata_attributes,
            })
            &&& kip1_segment_at(h, 0x40) == (Kip1Segment {
                dst_addr: v.data_vaddr,
                decomp_size: len32(v.data.unwrap().len() as int),
                comp_size: len32(data_c.len() as int),
                attributes: 0,
            })
        }),
{
    let f = kip1_name_field(v.name.unwrap());
    let quad = seq![v.main_thread_priority, v.default_cpu_id, 0u8, kip1_flags(v)];
    let bss = match (v.bss_vaddr, v.bss_size) {
        (Some(a), Some(s)) => kip1_segment(a, s, 0, 0),
        _ => zeros(16),
    };
    let g = kip1_caps_field(v.kernel_capabilities);
    let st = (v.text_vaddr, len32(v.text.unwrap().len() as int), len32(text_c.len() as int), 0u32);
    let sr = (v.rodata_vaddr, len32(v.rodata.unwrap().len() as int), len32(rodata_c.len() as int), v.rodata_attributes);
    let sd = (v.data_vaddr, len32(v.data.unwrap().len() as int), len32(data_c.len() as int), 0u32);
    let tail = bss + zeros(32) + g;
    assert(f.len() == 12);
    lemma_le32_all_len(v.kernel_capabilities);
    assert(g.len() == 0x80);
    assert(bss.len() == 16);
    lemma_kip_layout_words(f, v.title_id, v.process_category, quad, st, sr, sd, tail);
    assert(kip1_header(v, text_c, rodata_c, data_c) =~= le32(KIP1_MAGIC) + f + le64(v.title_id) + le32(
        v.process_category,
    ) + quad + kip1_segment(st.0, st.1, st.2, st.3) + kip1_segment(sr.0, sr.1, sr.2, sr.3) + kip1_segment(
        sd.0,
        sd.1,
        sd.2,
        sd.3,
    ) + tail);
}

/// A built KIP1 reads back as written: its header holds the magic, the
/// title ID, process category, main thread priority, default CPU and flags,
/// and for text, rodata and data a descriptor of the memory address, the
/// segment's size and its compressed size (the rodata one with its
/// attributes); the BLZ-compressed segments follow the 0x100-byte header in
/// that order.
#[verifier::spinoff_prover]
#[verifier::rlimit(100)]
pub proof fn lemma_built_kip_reads_back(v: Kip1BuilderView)
    requires
        kip1_build_spec(v) is Ok,
    ensures
        ({
            let b = kip1_build_spec(v)->Ok_0;
            let text_c = blz_compress_spec(v.text.unwrap());
            let rodata_c = blz_compress_spec(v.rodata.unwrap());
            let data_c = blz_compress_spec(v.data.unwrap());
            let t = 0x100 + text_c.len() as int;
            let r = t + rodata_c.len() as int;
            &&& b.len() == r + data_c.len()
            &&& u32_of(b, 0) == KIP1_MAGIC
            &&& u64_of(b, 0x10) == v.title_id
            &&& u32_of(b, 0x18) == v.process_category
            &&& b[0x1C] == v.main_thread_priority
            &&& b[0x1D] == v.default_cpu_id
            &&& b[0x1F] == kip1_flags(v)
            &&& kip1_segment_at(b, 0x20) == (Kip1Segment {
                dst_addr: v.text_vaddr,
                decomp_size: len32(v.text.unwrap().len() as int),
                comp_size: len32(text_c.len() as int),
                attributes: 0,
            })
            &&& kip1_segment_at(b, 0x30) == (Kip1Segment {
                dst_addr: v.rodata_vaddr,
                decomp_size: len32(v.rodata.unwrap().len() as int),
                comp_size: len32(rodata_c.len() as int),
                attributes: v.rodata_attributes,
            })
            &&& kip1_segment_at(b, 0x40) == (Kip1Segment {
                dst_addr: v.data_vaddr,
                decomp_size: len32(v.data.unwrap().len() as int),
                comp_size: len32(data_c.len() as int),
                attributes: 0,
            })
            &&& b.subrange(0x100, t) == text_c
            &&& b.subrange(t, r) == rodata_c
            &&& b.subrange(r, r + data_c.len()) == data_c
        }),
{
    let text_c = blz_compress_spec(v.text.unwrap());
    let rodata_c = blz_compress_spec(v.rodata.unwrap());
    let data_c = blz_compress_spec(v.data.unwrap());
    let h = kip1_header(v, text_c, rodata_c, data_c);
    lemma_kip_header_fields(v, text_c, rodata_c, data_c);
    let rest = text_c + rodata_c + data_c;
    let b = kip1_build_spec(v)->Ok_0;
    assert(b =~= h + rest);
    lemma_prefix_word(h, rest, 0);
    lemma_prefix_word(h, rest, 0x10);
    lemma_prefix_word(h, rest, 0x14);
    lemma_prefix_word(h, rest, 0x18);
    lemma_prefix_segment(h, rest, 0x20);
    lemma_prefix_segment(h, rest, 0x30);
    lemma_prefix_segment(h, rest, 0x40);
    assert(b[0x1C] == h[0x1C] && b[0x1D] == h[0x1D] && b[0x1F] == h[0x1F]);
    let t = 0x100 + text_c.len() as int;
    let r = t + rodata_c.len() as int;
    assert(b.subrange(0x100, t) =~= text_c);
    assert(b.subrange(t, r) =~= rodata_c);
    assert(b.subrange(r, r + data_c.len()) =~= data_c);
}

/// The segments of a built KIP1 decompress to the segments given: decoding
/// each stored segment (found where [`lemma_built_kip_reads_back`] places
/// it) gives the segment, followed by at most the zero padding of a stored
/// stream.
pub proof fn lemma_built_kip_segments_decompress(v: Kip1BuilderView)
    requires
        kip1_build_spec(v) is Ok,
        v.text.unwrap().len() <= u32::MAX,
        v.rodata.unwrap().len() <= u32::MAX,
        v.data.unwrap().len() <= u32::MAX,
    ensures
        ({
            let b = kip1_build_spec(v)->Ok_0;
            let text = v.text.unwrap();
            let rodata = v.rodata.unwrap();
            let data = v.data.unwrap();
            let t = 0x100 + blz_compress_spec(text).len() as int;
            let r = t + blz_compress_spec(rodata).len() as int;
            let e = r + blz_compress_spec(data).len() as int;
            &&& blz_decode_spec(b.subrange(0x100, t)).take(text.len() as int) == text
            &&& blz_decode_spec(b.subrange(t, r)).take(rodata.len() as int) == rodata
            &&& blz_decode_spec(b.subrange(r, e)).take(data.len() as int) == data
        }),
{
    lemma_built_kip_reads_back(v);
    let text = v.text.unwrap();
    let rodata = v.rodata.unwrap();
    let data = v.data.unwrap();
    lemma_decode_compressed(text);
    lemma_decode_compressed(rodata);
    lemma_decode_compressed(data);
    assert((text + zeros((round_up(text.len() as int, 4) - text.len()) as nat)).take(text.len() as int) =~= text);
    assert((rodata + zeros((round_up(rodata.len() as int, 4) - rodata.len()) as nat)).take(rodata.len() as int)
        =~= rodata);
    assert((data + zeros((round_up(data.len() as int, 4) - data.len()) as nat)).take(data.len() as int) =~= data);
    assert(text.take(text.len() as int) =~= text);
    assert(rodata.take(rodata.len() as int) =~= rodata);
    assert(data.take(data.len() as int) =~= data);
}

/// A word within `s` reads the same after more bytes are appended.
proof fn lemma_prefix_word(s: Seq<u8>, y: Seq<u8>, at: int)
    requires
        0 <= at,
        at + 4 <= s.len(),
    ensures
        u32_of(s + y, at) == u32_of(s, at),
{
    lemma_words_kept(s, y);
}

/// A segment descriptor within `s` reads the same after more bytes are
/// appended.
proof fn lemma_prefix_segment(s: Seq<u8>, y: Seq<u8>, at: int)
    requires
        0 <= at,
        at + 16 <= s.len(),
    ensures
        kip1_segment_at(s + y, at) == kip1_segment_at(s, at),
{
    lemma_words_kept(s, y);
    assert(u32_of(s + y, at) == u32_of(s, at));
    assert(u32_of(s + y, at + 4) == u32_of(s, at + 4));
    assert(u32_of(s + y, at + 8) == u32_of(s, at + 8));
    assert(u32_of(s + y, at + 12) == u32_of(s, at + 12));
}

/// Whether a segment, when set, is one the BLZ encoder accepts.
fn opt_accepted(o: &Option<Vec<u8>>) -> (r: bool)
    ensures
        r == (opt_bytes(*o) matches Some(t) ==> blz_accepts(t)),
{
    match o {
        Some(t) => {
            let n = t.len() as u128;
            n < NONE as u128 && n + n / 8 + 16 <= usize::MAX as u128
        },
        None => true,
    }
}

} // verus!
