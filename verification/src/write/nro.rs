//! NRO (Nintendo Relocatable Object) builder.

use vstd::prelude::*;

use crate::bytes::{bytes_result, le32, le64, push_all, push_u32, push_u64, push_zeros, round_up,
    splice, write_at, zeroed, zeros};
use crate::write::kip::{len32, opt_bytes};

verus! {

/// NRO magic number: "NRO0" in ASCII.
pub const NRO_MAGIC: u32 = 0x304f524e;

/// ASET magic number: "ASET" in ASCII, heading the asset section.
pub const ASSET_MAGIC: u32 = 0x54455341;

/// Size of the asset header.
pub const ASSET_HEADER_SIZE: usize = 0x38;

/// Alignment of the NRO and NSO segments.
pub const SEGMENT_ALIGN: usize = 0x1000;

/// Builder for constructing NRO files.
pub struct NroBuilder {
    text: Option<Vec<u8>>,
    text_vaddr: u32,
    rodata: Option<Vec<u8>>,
    rodata_vaddr: u32,
    data: Option<Vec<u8>>,
    data_vaddr: u32,
    bss_size: u32,
    build_id: Option<[u8; 32]>,
    flags: u32,
    icon: Option<Vec<u8>>,
    nacp: Option<Vec<u8>>,
    romfs: Option<Vec<u8>>,
}

/// What an [`NroBuilder`] holds.
pub struct NroBuilderView {
    pub text: Option<Seq<u8>>,
    pub text_vaddr: u32,
    pub rodata: Option<Seq<u8>>,
    pub rodata_vaddr: u32,
    pub data: Option<Seq<u8>>,
    pub data_vaddr: u32,
    pub bss_size: u32,
    pub build_id: Option<Seq<u8>>,
    pub flags: u32,
    pub icon: Option<Seq<u8>>,
    pub nacp: Option<Seq<u8>>,
    pub romfs: Option<Seq<u8>>,
}

impl View for NroBuilder {
    type V = NroBuilderView;

    closed spec fn view(&self) -> NroBuilderView {
        NroBuilderView {
            text: opt_bytes(self.text),
            text_vaddr: self.text_vaddr,
            rodata: opt_bytes(self.rodata),
            rodata_vaddr: self.rodata_vaddr,
            data: opt_bytes(self.data),
            data_vaddr: self.data_vaddr,
            bss_size: self.bss_size,
            build_id: match self.build_id {
                Some(id) => Some(id@),
                None => None,
            },
            flags: self.flags,
            icon: opt_bytes(self.icon),
            nacp: opt_bytes(self.nacp),
            romfs: opt_bytes(self.romfs),
        }
    }
}

/// A builder with nothing set.
pub open spec fn nro_builder_empty() -> NroBuilderView {
    NroBuilderView {
        text: None,
        text_vaddr: 0,
        rodata: None,
        rodata_vaddr: 0,
        data: None,
        data_vaddr: 0,
        bss_size: 0,
        build_id: None,
        flags: 0,
        icon: None,
        nacp: None,
        romfs: None,
    }
}

/// Error returned by [`NroBuilder::build`].
#[derive(Debug, PartialEq, Eq, Structural)]
pub enum BuildError {
    /// `build` was called before a text segment was set.
    MissingText,
    /// `build` was called before a rodata segment was set.
    MissingRodata,
    /// `build` was called before a data segment was set.
    MissingData,
}

/// `d` zero-padded to a multiple of `a` bytes.
pub open spec fn padded(d: Seq<u8>, a: int) -> Seq<u8> {
    d + zeros((round_up(d.len() as int, a) - d.len()) as nat)
}

/// Length of an optional buffer, zero when absent.
pub open spec fn opt_len(o: Option<Seq<u8>>) -> int {
    match o {
        Some(b) => b.len() as int,
        None => 0,
    }
}

/// Contents of an optional buffer, empty when absent.
pub open spec fn opt_or_empty(o: Option<Seq<u8>>) -> Seq<u8> {
    match o {
        Some(b) => b,
        None => Seq::empty(),
    }
}

/// Whether the builder carries any asset.
pub open spec fn nro_has_assets(v: NroBuilderView) -> bool {
    v.icon is Some || v.nacp is Some || v.romfs is Some
}

/// End of the data segment: the size recorded in the header.
pub open spec fn nro_size(v: NroBuilderView) -> int {
    v.data_vaddr + len32(padded(v.data.unwrap(), 0x1000).len() as int)
}

/// Total image size.
pub open spec fn nro_total_size(v: NroBuilderView) -> int {
    if nro_has_assets(v) {
        nro_size(v) + ASSET_HEADER_SIZE + opt_len(v.icon) + opt_len(v.nacp) + opt_len(v.romfs)
    } else {
        nro_size(v)
    }
}

/// Whether the segments of a builder lay out without overflow: each padded
/// segment fits at its address inside the image, the recorded size fits in 32
/// bits, and the image covers the header.
pub open spec fn nro_layout_ok(v: NroBuilderView) -> bool {
    let tp = round_up(v.text.unwrap().len() as int, 0x1000);
    let rp = round_up(v.rodata.unwrap().len() as int, 0x1000);
    let dp = round_up(v.data.unwrap().len() as int, 0x1000);
    &&& tp <= usize::MAX && rp <= usize::MAX && dp <= usize::MAX
    &&& nro_size(v) <= u32::MAX
    &&& nro_total_size(v) <= usize::MAX
    &&& v.text_vaddr + tp <= nro_total_size(v)
    &&& v.rodata_vaddr + rp <= nro_total_size(v)
    &&& v.data_vaddr + dp <= nro_total_size(v)
    &&& 0x80 <= nro_total_size(v)
}

/// The 0x70-byte NRO header.
#[verifier::opaque]
pub open spec fn nro_header(v: NroBuilderView) -> Seq<u8> {
    le32(NRO_MAGIC) + le32(0) + le32(nro_size(v) as u32) + le32(v.flags) + le32(v.text_vaddr)
        + le32(len32(padded(v.text.unwrap(), 0x1000).len() as int)) + le32(v.rodata_vaddr) + le32(
        len32(padded(v.rodata.unwrap(), 0x1000).len() as int),
    ) + le32(v.data_vaddr) + le32(len32(padded(v.data.unwrap(), 0x1000).len() as int)) + le32(
        v.bss_size,
    ) + le32(0) + match v.build_id {
        Some(id) => id,
        None => zeros(32),
    } + zeros(32)
}

/// An asset descriptor: offset (relative to the asset header) and size.
pub open spec fn asset_section(present: bool, off: int, len: int) -> Seq<u8> {
    if present {
        le64(off as u64) + le64(len as u64)
    } else {
        le64(0) + le64(0)
    }
}

/// The asset header followed by the icon, NACP and RomFS assets.
#[verifier::opaque]
pub open spec fn nro_assets(v: NroBuilderView) -> Seq<u8> {
    let icon_len = opt_len(v.icon);
    let nacp_len = opt_len(v.nacp);
    le32(ASSET_MAGIC) + le32(0) + asset_section(v.icon is Some, 0x38, icon_len) + asset_section(
        v.nacp is Some,
        0x38 + icon_len,
        nacp_len,
    ) + asset_section(v.romfs is Some, 0x38 + icon_len + nacp_len, opt_len(v.romfs))
        + opt_or_empty(v.icon) + opt_or_empty(v.nacp) + opt_or_empty(v.romfs)
}

/// The NRO image of a complete builder: a zeroed buffer with each padded
/// segment written at its virtual address (so the image keeps the ELF memory
/// layout), the header written over bytes 0x10..0x80 (bytes 0..0x10 stay as
/// the text segment provided them), and the assets appended at the end of the
/// data segment.
pub open spec fn nro_image(v: NroBuilderView) -> Seq<u8> {
    let b0 = zeros(nro_total_size(v) as nat);
    let b1 = splice(b0, v.text_vaddr as int, padded(v.text.unwrap(), 0x1000));
    let b2 = splice(b1, v.rodata_vaddr as int, padded(v.rodata.unwrap(), 0x1000));
    let b3 = splice(b2, v.data_vaddr as int, padded(v.data.unwrap(), 0x1000));
    let b4 = splice(b3, 0x10, nro_header(v));
    if nro_has_assets(v) {
        splice(b4, nro_size(v), nro_assets(v))
    } else {
        b4
    }
}

/// What [`NroBuilder::build`] produces for a builder holding `v`.
pub open spec fn nro_build_spec(v: NroBuilderView) -> Result<Seq<u8>, BuildError> {
    if v.text is None {
        Err(BuildError::MissingText)
    } else if v.rodata is None {
        Err(BuildError::MissingRodata)
    } else if v.data is None {
        Err(BuildError::MissingData)
    } else {
        Ok(nro_image(v))
    }
}

proof fn lemma_nro_lens(v: NroBuilderView)
    requires
        v.build_id matches Some(id) ==> id.len() == 32,
    ensures
        nro_header(v).len() == 0x70,
        nro_assets(v).len() == 0x38 + opt_len(v.icon) + opt_len(v.nacp) + opt_len(v.romfs),
{
    reveal(nro_header);
    reveal(nro_assets);
    let h1 = le32(NRO_MAGIC) + le32(0) + le32(nro_size(v) as u32) + le32(v.flags);
    assert(h1.len() == 16);
}

/// Pad a byte slice with zeros to a multiple of `alignment`.
pub fn pad_to_alignment(data: &[u8], alignment: usize) -> (r: Vec<u8>)
    requires
        alignment > 0,
        round_up(data@.len() as int, alignment as int) <= usize::MAX,
    ensures
        r@ == padded(data@, alignment as int),
{
    let len = data.len();
    assert(len % alignment <= len) by (nonlinear_arith)
        requires
            alignment > 0,
    ;
    let padded_len = if len % alignment == 0 {
        len
    } else {
        len - len % alignment + alignment
    };
    let mut r: Vec<u8> = Vec::new();
    push_all(&mut r, data);
    push_zeros(&mut r, padded_len - len);
    r
}

impl NroBuilder {
    /// Create a new NRO builder with nothing set.
    pub fn new() -> (r: Self)
        ensures
            r@ == nro_builder_empty(),
    {
        NroBuilder {
            text: None,
            text_vaddr: 0,
            rodata: None,
            rodata_vaddr: 0,
            data: None,
            data_vaddr: 0,
            bss_size: 0,
            build_id: None,
            flags: 0,
            icon: None,
            nacp: None,
            romfs: None,
        }
    }

    /// Set the text (code) segment.
    pub fn text(self, data: Vec<u8>) -> (r: Self)
        ensures
            r@ == (NroBuilderView { text: Some(data@), ..self@ }),
    {
        let mut b = self;
        b.text = Some(data);
        b
    }

    /// Set the text segment's ELF virtual address.
    pub fn text_vaddr(self, vaddr: u32) -> (r: Self)
        ensures
            r@ == (NroBuilderView { text_vaddr: vaddr, ..self@ }),
    {
        let mut b = self;
        b.text_vaddr = vaddr;
        b
    }

    /// Set the rodata (read-only data) segment.
    pub fn rodata(self, data: Vec<u8>) -> (r: Self)
        ensures
            r@ == (NroBuilderView { rodata: Some(data@), ..self@ }),
    {
        let mut b = self;
        b.rodata = Some(data);
        b
    }

    /// Set the rodata segment's ELF virtual address.
    pub fn rodata_vaddr(self, vaddr: u32) -> (r: Self)
        ensures
            r@ == (NroBuilderView { rodata_vaddr: vaddr, ..self@ }),
    {
        let mut b = self;
        b.rodata_vaddr = vaddr;
        b
    }

    /// Set the data (read-write data) segment.
    pub fn data(self, data: Vec<u8>) -> (r: Self)
        ensures
            r@ == (NroBuilderView { data: Some(data@), ..self@ }),
    {
        let mut b = self;
        b.data = Some(data);
        b
    }

    /// Set the data segment's ELF virtual address.
    pub fn data_vaddr(self, vaddr: u32) -> (r: Self)
        ensures
            r@ == (NroBuilderView { data_vaddr: vaddr, ..self@ }),
    {
        let mut b = self;
        b.data_vaddr = vaddr;
        b
    }

    /// Set the BSS section size in bytes.
    pub fn bss_size(self, size: u32) -> (r: Self)
        ensures
            r@ == (NroBuilderView { bss_size: size, ..self@ }),
    {
        let mut b = self;
        b.bss_size = size;
        b
    }

    /// Set the 32-byte build ID; all zeros when not set.
    pub fn build_id(self, id: [u8; 32]) -> (r: Self)
        ensures
            r@ == (NroBuilderView { build_id: Some(id@), ..self@ }),
    {
        let mut b = self;
        b.build_id = Some(id);
        b
    }

    /// Set the NRO flags field (bit 0: aligned header layout).
    pub fn flags(self, flags: u32) -> (r: Self)
        ensures
            r@ == (NroBuilderView { flags: flags, ..self@ }),
    {
        let mut b = self;
        b.flags = flags;
        b
    }

    /// Add an icon asset (JPEG image).
    pub fn asset_icon(self, data: Vec<u8>) -> (r: Self)
        ensures
            r@ == (NroBuilderView { icon: Some(data@), ..self@ }),
    {
        let mut b = self;
        b.icon = Some(data);
        b
    }

    /// Add a NACP asset.
    pub fn asset_nacp(self, data: Vec<u8>) -> (r: Self)
        ensures
            r@ == (NroBuilderView { nacp: Some(data@), ..self@ }),
    {
        let mut b = self;
        b.nacp = Some(data);
        b
    }

    /// Add a RomFS asset.
    pub fn asset_romfs(self, data: Vec<u8>) -> (r: Self)
        ensures
            r@ == (NroBuilderView { romfs: Some(data@), ..self@ }),
    {
        let mut b = self;
        b.romfs = Some(data);
        b
    }

    /// Build the complete NRO file.
    ///
    /// Fails when a segment is missing. Each segment is zero-padded to 0x1000
    /// bytes and placed at the file offset equal to its virtual address.
    pub fn build(self) -> (r: Result<Vec<u8>, BuildError>)
        requires
            self@.text is Some && self@.rodata is Some && self@.data is Some ==> nro_layout_ok(
                self@,
            ),
        ensures
            bytes_result(r) == nro_build_spec(self@),
    {
        if self.text.is_none() {
            return Err(BuildError::MissingText);
        }
        if self.rodata.is_none() {
            return Err(BuildError::MissingRodata);
        }
        if self.data.is_none() {
            return Err(BuildError::MissingData);
        }
        Ok(self.emit())
    }

    /// Whether [`NroBuilder::build`] can lay the segments out: always when
    /// a segment is missing (that error is reported), otherwise when
    /// [`nro_layout_ok`] holds.
    #[verifier::rlimit(30)]
    pub fn layout_fits(&self) -> (r: bool)
        ensures
            r == (self@.text is Some && self@.rodata is Some && self@.data is Some ==> nro_layout_ok(self@)),
    {
        if self.text.is_none() || self.rodata.is_none() || self.data.is_none() {
            return true;
        }
        let ghost v = self@;
        let tp = round_up_4k(self.text.as_ref().unwrap().len() as u128);
        let rp = round_up_4k(self.rodata.as_ref().unwrap().len() as u128);
        let dp = round_up_4k(self.data.as_ref().unwrap().len() as u128);
        proof {
            lemma_padded_len(v.text.unwrap());
            lemma_padded_len(v.rodata.unwrap());
            lemma_padded_len(v.data.unwrap());
        }
        let size = self.data_vaddr as u128 + dp % 0x1_0000_0000;
        let has_assets = self.icon.is_some() || self.nacp.is_some() || self.romfs.is_some();
        let total = if has_assets {
            size + ASSET_HEADER_SIZE as u128 + opt_vec_len(&self.icon) as u128 + opt_vec_len(&self.nacp) as u128
                + opt_vec_len(&self.romfs) as u128
        } else {
            size
        };
        assert(size == nro_size(v));
        assert(total == nro_total_size(v));
        tp <= usize::MAX as u128 && rp <= usize::MAX as u128 && dp <= usize::MAX as u128 && size
            <= u32::MAX as u128 && total <= usize::MAX as u128 && self.text_vaddr as u128 + tp <= total
            && self.rodata_vaddr as u128 + rp <= total && self.data_vaddr as u128 + dp <= total && 0x80
            <= total
    }

    /// Build the NRO file when [`NroBuilder::layout_fits`] holds, and `None`
    /// otherwise.
    pub fn try_build(self) -> (r: Option<Result<Vec<u8>, BuildError>>)
        ensures
            r is Some <==> (self@.text is Some && self@.rodata is Some && self@.data is Some ==> nro_layout_ok(
                self@,
            )),
            r matches Some(b) ==> bytes_result(b) == nro_build_spec(self@),
    {
        if self.layout_fits() {
            Some(self.build())
        } else {
            None
        }
    }

    /// The 0x70-byte header.
    fn header_bytes(&self, size: u32, text_len32: u32, rodata_len32: u32, data_len32: u32) -> (r:
        Vec<u8>)
        requires
            self@.text is Some && self@.rodata is Some && self@.data is Some,
            size == nro_size(self@),
            text_len32 == len32(padded(self@.text.unwrap(), 0x1000).len() as int),
            rodata_len32 == len32(padded(self@.rodata.unwrap(), 0x1000).len() as int),
            data_len32 == len32(padded(self@.data.unwrap(), 0x1000).len() as int),
        ensures
            r@ == nro_header(self@),
    {
        reveal(nro_header);
        let mut header: Vec<u8> = Vec::new();
        push_u32(&mut header, NRO_MAGIC);
        push_u32(&mut header, 0);
        push_u32(&mut header, size);
        push_u32(&mut header, self.flags);
        push_u32(&mut header, self.text_vaddr);
        push_u32(&mut header, text_len32);
        push_u32(&mut header, self.rodata_vaddr);
        push_u32(&mut header, rodata_len32);
        push_u32(&mut header, self.data_vaddr);
        push_u32(&mut header, data_len32);
        push_u32(&mut header, self.bss_size);
        push_u32(&mut header, 0);
        match &self.build_id {
            Some(id) => push_all(&mut header, id),
            None => push_zeros(&mut header, 32),
        }
        push_zeros(&mut header, 32);
        header
    }

    /// The asset header followed by the assets.
    fn asset_bytes(&self) -> (r: Vec<u8>)
        requires
            0x38 + opt_len(self@.icon) + opt_len(self@.nacp) + opt_len(self@.romfs) <= usize::MAX,
        ensures
            r@ == nro_assets(self@),
    {
        reveal(nro_assets);
        let icon_len = opt_vec_len(&self.icon);
        let nacp_len = opt_vec_len(&self.nacp);
        let romfs_len = opt_vec_len(&self.romfs);
        let mut assets: Vec<u8> = Vec::new();
        push_u32(&mut assets, ASSET_MAGIC);
        push_u32(&mut assets, 0);
        push_asset_section(&mut assets, self.icon.is_some(), 0x38, icon_len as u64);
        push_asset_section(&mut assets, self.nacp.is_some(), 0x38 + icon_len as u64, nacp_len as u64);
        push_asset_section(
            &mut assets,
            self.romfs.is_some(),
            0x38 + icon_len as u64 + nacp_len as u64,
            romfs_len as u64,
        );
        push_opt(&mut assets, &self.icon);
        push_opt(&mut assets, &self.nacp);
        push_opt(&mut assets, &self.romfs);
        assets
    }

    /// Lays out a complete builder.
    #[verifier::rlimit(50)]
    fn emit(&self) -> (r: Vec<u8>)
        requires
            self@.text is Some && self@.rodata is Some && self@.data is Some,
            nro_layout_ok(self@),
        ensures
            r@ == nro_image(self@),
    {
        let ghost v = self@;
        let text_padded = pad_to_alignment(self.text.as_ref().unwrap().as_slice(), SEGMENT_ALIGN);
        let rodata_padded = pad_to_alignment(
            self.rodata.as_ref().unwrap().as_slice(),
            SEGMENT_ALIGN,
        );
        let data_padded = pad_to_alignment(self.data.as_ref().unwrap().as_slice(), SEGMENT_ALIGN);
        let text_len32 = crate::bytes::trunc_u32(text_padded.len());
        let rodata_len32 = crate::bytes::trunc_u32(rodata_padded.len());
        let data_len32 = crate::bytes::trunc_u32(data_padded.len());
        // The NRO size is the end of the data segment.
        let nro_size = self.data_vaddr + data_len32;
        let has_assets = self.icon.is_some() || self.nacp.is_some() || self.romfs.is_some();
        let icon_len = opt_vec_len(&self.icon);
        let nacp_len = opt_vec_len(&self.nacp);
        let romfs_len = opt_vec_len(&self.romfs);
        let total_size = if has_assets {
            nro_size as usize + ASSET_HEADER_SIZE + icon_len + nacp_len + romfs_len
        } else {
            nro_size as usize
        };
        assert(total_size == nro_total_size(v));
        let mut buf = zeroed(total_size);
        proof {
            lemma_nro_lens(v);
        }
        // Segments go at their virtual addresses first; the header written
        // below overwrites bytes 0x10..0x80 and leaves the crt0-provided start
        // (entry branch and MOD0 offset, bytes 0..0x10) intact.
        write_at(&mut buf, self.text_vaddr as usize, text_padded.as_slice());
        write_at(&mut buf, self.rodata_vaddr as usize, rodata_padded.as_slice());
        write_at(&mut buf, self.data_vaddr as usize, data_padded.as_slice());
        assert(buf@ == splice(
            splice(
                splice(zeros(nro_total_size(v) as nat), v.text_vaddr as int, padded(v.text.unwrap(), 0x1000)),
                v.rodata_vaddr as int,
                padded(v.rodata.unwrap(), 0x1000),
            ),
            v.data_vaddr as int,
            padded(v.data.unwrap(), 0x1000),
        ));
        let header = self.header_bytes(nro_size, text_len32, rodata_len32, data_len32);
        write_at(&mut buf, 0x10, header.as_slice());
        if has_assets {
            let assets = self.asset_bytes();
            write_at(&mut buf, nro_size as usize, assets.as_slice());
        }
        buf
    }
}

/// `x` rounded up to a multiple of 0x1000.
fn round_up_4k(x: u128) -> (r: u128)
    requires
        x <= u64::MAX,
    ensures
        r == round_up(x as int, 0x1000),
{
    if x % 0x1000 == 0 {
        x
    } else {
        x - x % 0x1000 + 0x1000
    }
}


/// Length of an optional buffer, zero when absent.
fn opt_vec_len(o: &Option<Vec<u8>>) -> (r: usize)
    ensures
        r as int == opt_len(opt_bytes(*o)),
{
    match o {
        Some(v) => v.len(),
        None => 0,
    }
}

/// Appends an optional buffer's contents.
fn push_opt(out: &mut Vec<u8>, o: &Option<Vec<u8>>)
    ensures
        final(out)@ == old(out)@ + opt_or_empty(opt_bytes(*o)),
{
    match o {
        Some(v) => push_all(out, v.as_slice()),
        None => {
            assert(old(out)@ + Seq::<u8>::empty() =~= old(out)@);
        },
    }
}

/// Appends an asset descriptor.
fn push_asset_section(out: &mut Vec<u8>, present: bool, off: u64, len: u64)
    ensures
        final(out)@ == old(out)@ + asset_section(present, off as int, len as int),
{
    if present {
        push_u64(out, off);
        push_u64(out, len);
    } else {
        push_u64(out, 0);
        push_u64(out, 0);
    }
}

impl Default for NroBuilder {
    fn default() -> (r: Self)
        ensures
            r@ == nro_builder_empty(),
    {
        Self::new()
    }
}


/// Writing `w` at `off` keeps the length, puts `w` there, and leaves every
/// range before or after it as it was.
proof fn lemma_splice(s: Seq<u8>, off: int, w: Seq<u8>)
    requires
        0 <= off,
        off + w.len() <= s.len(),
    ensures
        splice(s, off, w).len() == s.len(),
        splice(s, off, w).subrange(off, off + w.len()) == w,
        forall|a: int, c: int|
            0 <= a <= c <= off ==> #[trigger] splice(s, off, w).subrange(a, c) == s.subrange(a, c),
        forall|a: int, c: int|
            off + w.len() <= a <= c <= s.len() ==> #[trigger] splice(s, off, w).subrange(a, c)
                == s.subrange(a, c),
{
    let t = splice(s, off, w);
    assert(t.subrange(off, off + w.len()) =~= w);
    assert forall|a: int, c: int| 0 <= a <= c <= off implies #[trigger] t.subrange(a, c) == s.subrange(a, c) by {
        assert(t.subrange(a, c) =~= s.subrange(a, c));
    }
    assert forall|a: int, c: int| off + w.len() <= a <= c <= s.len() implies #[trigger] t.subrange(a, c)
        == s.subrange(a, c) by {
        assert(t.subrange(a, c) =~= s.subrange(a, c));
    }
}

/// Segments written at their addresses into a zeroed buffer, then a 0x70-byte
/// header at 0x10, then maybe the assets at or after 0x80: the header stands
/// at 0x10..0x80, and a text written at 0 keeps its first 0x10 bytes when
/// the next segments start at or after 0x10.
proof fn lemma_nro_layout(
    total: int,
    segs: (int, Seq<u8>, int, Seq<u8>, int, Seq<u8>),
    h: Seq<u8>,
    assets: Option<(int, Seq<u8>)>,
)
    requires
        ({
            let (tv, tp, rv, rp, dv, dp) = segs;
            &&& 0 <= tv && tv + tp.len() <= total
            &&& 0 <= rv && rv + rp.len() <= total
            &&& 0x80 <= dv && dv + dp.len() <= total
            &&& h.len() == 0x70
            &&& assets matches Some((at, a)) ==> 0x80 <= at && at + a.len() <= total
        }),
    ensures
        ({
            let (tv, tp, rv, rp, dv, dp) = segs;
            let b1 = splice(zeros(total as nat), tv, tp);
            let b2 = splice(b1, rv, rp);
            let b3 = splice(b2, dv, dp);
            let b4 = splice(b3, 0x10, h);
            let b = match assets {
                Some((at, a)) => splice(b4, at, a),
                None => b4,
            };
            &&& b.subrange(0x10, 0x80) == h
            &&& tv == 0 && tp.len() >= 0x10 && rv >= 0x10 ==> b.subrange(0, 0x10) == tp.subrange(0, 0x10)
        }),
{
    let (tv, tp, rv, rp, dv, dp) = segs;
    let b0 = zeros(total as nat);
    let b1 = splice(b0, tv, tp);
    let b2 = splice(b1, rv, rp);
    let b3 = splice(b2, dv, dp);
    let b4 = splice(b3, 0x10, h);
    lemma_splice(b0, tv, tp);
    lemma_splice(b1, rv, rp);
    lemma_splice(b2, dv, dp);
    lemma_splice(b3, 0x10, h);
    match assets {
        Some((at, a)) => {
            lemma_splice(b4, at, a);
            assert(splice(b4, at, a).subrange(0x10, 0x80) == b4.subrange(0x10, 0x80));
            assert(splice(b4, at, a).subrange(0, 0x10) == b4.subrange(0, 0x10));
        },
        None => {},
    }
    assert(b4.subrange(0, 0x10) == b3.subrange(0, 0x10));
    if tv == 0 && tp.len() >= 0x10 && rv >= 0x10 {
        assert(b3.subrange(0, 0x10) == b2.subrange(0, 0x10));
        assert(b2.subrange(0, 0x10) == b1.subrange(0, 0x10));
        assert(b1.subrange(0, 0x10) =~= b1.subrange(0, tp.len() as int).subrange(0, 0x10));
    }
}

/// A padded segment is its length rounded up to the alignment.
proof fn lemma_padded_len(d: Seq<u8>)
    ensures
        padded(d, 0x1000).len() == round_up(d.len() as int, 0x1000),
        padded(d, 0x1000).len() >= d.len(),
{
}

/// A built NRO holds its header at 0x10..0x80; and where the text segment
/// starts the file, the bytes before the header are the text's first 0x10
/// bytes (its entry branch and MOD0 offset), never ones the builder makes up.
pub proof fn lemma_nro_header_and_entry(v: NroBuilderView)
    requires
        v.text is Some,
        v.rodata is Some,
        v.data is Some,
        v.build_id matches Some(id) ==> id.len() == 32,
        nro_layout_ok(v),
        v.data_vaddr >= 0x80,
    ensures
        nro_image(v).subrange(0x10, 0x80) == nro_header(v),
        v.text_vaddr == 0 && v.text.unwrap().len() >= 0x10 && v.rodata_vaddr >= 0x10 ==> nro_image(
            v,
        ).subrange(0, 0x10) == v.text.unwrap().subrange(0, 0x10),
{
    let tp = padded(v.text.unwrap(), 0x1000);
    let rp = padded(v.rodata.unwrap(), 0x1000);
    let dp = padded(v.data.unwrap(), 0x1000);
    lemma_nro_lens(v);
    lemma_padded_len(v.text.unwrap());
    lemma_padded_len(v.rodata.unwrap());
    lemma_padded_len(v.data.unwrap());
    let assets = if nro_has_assets(v) {
        Some((nro_size(v), nro_assets(v)))
    } else {
        None
    };
    lemma_nro_layout(
        nro_total_size(v),
        (v.text_vaddr as int, tp, v.rodata_vaddr as int, rp, v.data_vaddr as int, dp),
        nro_header(v),
        assets,
    );
    if v.text.unwrap().len() >= 0x10 {
        assert(tp.subrange(0, 0x10) =~= v.text.unwrap().subrange(0, 0x10));
    }
}

} // verus!
