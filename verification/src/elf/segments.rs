//! ELF segment extraction for NRO and NSO generation.
//!
//! The `object` crate parses the ELF image; what this module reads of it is
//! carried as plain values: the program headers with their segments, and the
//! sections. From those it picks the loadable segments in address order as
//! text, rodata and data, derives the BSS size, and finds the GNU build ID
//! note and the MOD0 offset.

use object::read::elf::ProgramHeader;
use object::{Object, ObjectSection, ObjectSegment};
use vstd::prelude::*;

use crate::bytes::{bytes_eq, push_all, read_u32, round_up, u32_of, zeros};
use crate::write::nro::{nro_builder_empty, NroBuilder, NroBuilderView};
use crate::write::nso::{nso_builder_empty, NsoBuilder, NsoBuilderView};

verus! {

/// Program header type of a loadable segment.
pub const PT_LOAD: u32 = 1;

/// Note type of a GNU build ID.
pub const NT_GNU_BUILD_ID: u32 = 3;

/// Page size the BSS size is rounded to.
pub const PAGE_SIZE: u64 = 0x1000;

#[verifier::external_type_specification]
#[verifier::external_body]
pub struct ExObjectReadError(object::read::Error);

/// A program header with its segment, as the ELF parser reports them.
pub struct ElfProgramSegment {
    /// Program header type
    pub p_type: u32,
    /// Virtual address
    pub address: u64,
    /// Size in memory
    pub memsz: u64,
    /// Size in the file
    pub filesz: u64,
    /// The segment's bytes in the file, when they can be read
    pub data: Option<Vec<u8>>,
}

/// An [`ElfProgramSegment`] as the specifications see it.
pub struct ElfProgramSegmentView {
    pub p_type: u32,
    pub address: u64,
    pub memsz: u64,
    pub filesz: u64,
    pub data: Option<Seq<u8>>,
}

/// The bytes held by an optional buffer.
pub open spec fn opt_seq(o: Option<Vec<u8>>) -> Option<Seq<u8>> {
    match o {
        Some(v) => Some(v@),
        None => None,
    }
}

impl View for ElfProgramSegment {
    type V = ElfProgramSegmentView;

    open spec fn view(&self) -> ElfProgramSegmentView {
        ElfProgramSegmentView {
            p_type: self.p_type,
            address: self.address,
            memsz: self.memsz,
            filesz: self.filesz,
            data: opt_seq(self.data),
        }
    }
}

/// A section, as the ELF parser reports it.
pub struct ElfSectionRecord {
    /// The name, when it can be read
    pub name: Option<String>,
    /// Virtual address
    pub address: u64,
    /// Size in bytes
    pub size: u64,
    /// Whether it is a note section
    pub is_note: bool,
    /// The section's bytes, when they can be read
    pub data: Option<Vec<u8>>,
}

/// An [`ElfSectionRecord`] as the specifications see it.
pub struct ElfSectionView {
    pub name: Option<Seq<char>>,
    pub address: u64,
    pub size: u64,
    pub is_note: bool,
    pub data: Option<Seq<u8>>,
}

impl View for ElfSectionRecord {
    type V = ElfSectionView;

    open spec fn view(&self) -> ElfSectionView {
        ElfSectionView {
            name: match self.name {
                Some(n) => Some(n@),
                None => None,
            },
            address: self.address,
            size: self.size,
            is_note: self.is_note,
            data: opt_seq(self.data),
        }
    }
}

/// What the `object` crate parses out of an ELF64 image: `None` when it
/// rejects the image, else whether the machine is AArch64 and the program
/// headers paired with their segments.
pub uninterp spec fn elf_load_of(data: Seq<u8>) -> Option<(bool, Seq<ElfProgramSegmentView>)>;

/// The sections the `object` crate lists for an ELF64 image (none when it
/// rejects the image).
pub uninterp spec fn elf_sections_of(data: Seq<u8>) -> Seq<ElfSectionView>;

/// `ElfFile64::<Endianness>::parse` from the `object` crate, read out: the
/// error when parsing fails; otherwise whether `architecture()` is
/// `Aarch64`, and `elf_program_headers()` zipped with `segments()` (which
/// yields the loadable segments only): the `k`-th program header's `p_type`
/// with the `k`-th loadable segment's `address()`, `size()` (memory size),
/// the second half of `file_range()` (file size) and `data()` when that
/// succeeds. The contract names this result; what the parser accepts is not
/// stated.
#[verifier::external_body]
fn elf_load(data: &[u8]) -> (r: Result<(bool, Vec<ElfProgramSegment>), object::read::Error>)
    ensures
        match (r, elf_load_of(data@)) {
            (Ok((arch, segs)), Some((a, s))) => arch == a && segs@.map_values(
                |p: ElfProgramSegment| p@,
            ) == s,
            (Err(_), None) => true,
            _ => false,
        },
{
    let elf = object::read::elf::ElfFile64::<object::Endianness>::parse(data)?;
    let e = elf.endianness();
    let segs = elf.elf_program_headers().iter().zip(elf.segments()).map(|(h, s)| ElfProgramSegment {
        p_type: h.p_type(e),
        address: s.address(),
        memsz: s.size(),
        filesz: s.file_range().1,
        data: s.data().ok().map(|d| d.to_vec()),
    });
    Ok((elf.architecture() == object::Architecture::Aarch64, segs.collect()))
}

/// The sections of `ElfFile64::<Endianness>::parse` from the `object`
/// crate (`sections()`), read out: `name()` when it succeeds, `address()`,
/// `size()`, whether `kind()` is `SectionKind::Note`, and `data()` when it
/// succeeds; no sections when parsing fails. The contract names this
/// result.
#[verifier::external_body]
fn elf_section_records(data: &[u8]) -> (r: Vec<ElfSectionRecord>)
    ensures
        r@.map_values(|s: ElfSectionRecord| s@) == elf_sections_of(data@),
{
    let Ok(elf) = object::read::elf::ElfFile64::<object::Endianness>::parse(data) else {
        return Vec::new();
    };
    elf.sections().map(|s| ElfSectionRecord {
        name: s.name().ok().map(|n| n.to_string()),
        address: s.address(),
        size: s.size(),
        is_note: s.kind() == object::SectionKind::Note,
        data: s.data().ok().map(|d| d.to_vec()),
    }).collect()
}

/// Address and size of a section.
#[derive(Debug, Clone, Copy, PartialEq, Eq, Structural)]
pub struct SectionInfo {
    /// Virtual address of the section.
    pub addr: u64,
    /// Size of the section in bytes.
    pub size: u64,
}

/// Errors of [`ElfSegments::parse`].
#[derive(Debug)]
pub enum ParseError {
    /// The ELF parser rejected the image.
    InvalidElf(object::read::Error),
    /// The machine is not AArch64.
    UnsupportedArch,
    /// There is no loadable segment.
    MissingText,
    /// There is only one loadable segment.
    MissingRodata,
    /// There are only two loadable segments.
    MissingData,
    /// The loadable segment at this address cannot be read.
    UnreadableSegment(u64),
}

/// A loadable segment: its address, bytes, memory size and file size.
struct LoadSegment {
    address: u64,
    data: Vec<u8>,
    memsz: u64,
    filesz: u64,
}

/// A [`LoadSegment`] as the specifications see it.
pub type LoadSegmentView = (u64, Seq<u8>, u64, u64);

spec fn load_view(s: LoadSegment) -> LoadSegmentView {
    (s.address, s.data@, s.memsz, s.filesz)
}

/// Segments extracted from an ELF image, ready for NRO or NSO generation.
pub struct ElfSegments {
    text: Vec<u8>,
    text_vaddr: u64,
    rodata: Vec<u8>,
    rodata_vaddr: u64,
    data: Vec<u8>,
    data_vaddr: u64,
    bss_size: u64,
    build_id: Option<[u8; 32]>,
    mod0_offset: Option<u32>,
    dynamic: Option<SectionInfo>,
    dynstr: Option<SectionInfo>,
    dynsym: Option<SectionInfo>,
    eh_frame_hdr: Option<SectionInfo>,
}

/// What an [`ElfSegments`] holds.
pub struct ElfSegmentsView {
    pub text: Seq<u8>,
    pub text_vaddr: u64,
    pub rodata: Seq<u8>,
    pub rodata_vaddr: u64,
    pub data: Seq<u8>,
    pub data_vaddr: u64,
    pub bss_size: u64,
    pub build_id: Option<Seq<u8>>,
    pub mod0_offset: Option<u32>,
    pub dynamic: Option<SectionInfo>,
    pub dynstr: Option<SectionInfo>,
    pub dynsym: Option<SectionInfo>,
    pub eh_frame_hdr: Option<SectionInfo>,
}

impl View for ElfSegments {
    type V = ElfSegmentsView;

    closed spec fn view(&self) -> ElfSegmentsView {
        ElfSegmentsView {
            text: self.text@,
            text_vaddr: self.text_vaddr,
            rodata: self.rodata@,
            rodata_vaddr: self.rodata_vaddr,
            data: self.data@,
            data_vaddr: self.data_vaddr,
            bss_size: self.bss_size,
            build_id: match self.build_id {
                Some(id) => Some(id@),
                None => None,
            },
            mod0_offset: self.mod0_offset,
            dynamic: self.dynamic,
            dynstr: self.dynstr,
            dynsym: self.dynsym,
            eh_frame_hdr: self.eh_frame_hdr,
        }
    }
}

/// The loadable segments of the program headers, in header order.
pub open spec fn load_segments(ps: Seq<ElfProgramSegmentView>) -> Seq<ElfProgramSegmentView>
    decreases ps.len(),
{
    if ps.len() == 0 {
        Seq::empty()
    } else if ps.last().p_type == PT_LOAD {
        load_segments(ps.drop_last()).push(ps.last())
    } else {
        load_segments(ps.drop_last())
    }
}

/// The address of the first of `ls` whose bytes cannot be read.
pub open spec fn first_unreadable(ls: Seq<ElfProgramSegmentView>) -> Option<u64>
    decreases ls.len(),
{
    if ls.len() == 0 {
        None
    } else if ls[0].data is None {
        Some(ls[0].address)
    } else {
        first_unreadable(ls.drop_first())
    }
}

/// Readable segments as address, bytes, memory size and file size.
pub open spec fn as_loaded(ls: Seq<ElfProgramSegmentView>) -> Seq<LoadSegmentView> {
    ls.map_values(|p: ElfProgramSegmentView| (p.address, p.data.unwrap(), p.memsz, p.filesz))
}

/// Where a segment goes in a sequence sorted by address: after every
/// segment at its address or below.
pub open spec fn addr_insert_pos(s: Seq<LoadSegmentView>, a: u64) -> int
    decreases s.len(),
{
    if s.len() == 0 || a < s[0].0 {
        0
    } else {
        1 + addr_insert_pos(s.drop_first(), a)
    }
}

/// The segments sorted by address, equal addresses in their original order.
pub open spec fn sort_by_address(s: Seq<LoadSegmentView>) -> Seq<LoadSegmentView>
    decreases s.len(),
{
    if s.len() == 0 {
        Seq::empty()
    } else {
        let t = sort_by_address(s.drop_last());
        t.insert(addr_insert_pos(t, s.last().0), s.last())
    }
}

/// `x` rounded up to a whole page.
pub open spec fn page_align(x: u64) -> int {
    round_up(x as int, 0x1000)
}

/// The BSS size: with a fourth segment, its memory size rounded to a page;
/// otherwise what the data segment's memory size exceeds its file size
/// rounded to a page, itself rounded to a page (zero when it does not).
pub open spec fn bss_size_spec(s: Seq<LoadSegmentView>) -> int {
    if s.len() >= 4 {
        page_align(s[3].2)
    } else {
        let (memsz, filesz) = (s[2].2, s[2].3);
        if memsz > filesz && memsz > page_align(filesz) {
            page_align((memsz - page_align(filesz)) as u64)
        } else {
            0
        }
    }
}

/// Whether the page rounding of the BSS computation stays within 64 bits.
pub open spec fn bss_fits(s: Seq<LoadSegmentView>) -> bool {
    if s.len() >= 4 {
        s[3].2 + 0xFFF <= u64::MAX
    } else if s.len() == 3 {
        &&& s[2].3 + 0xFFF <= u64::MAX
        &&& s[2].2 > page_align(s[2].3) ==> s[2].2 - page_align(s[2].3) + 0xFFF <= u64::MAX
    } else {
        true
    }
}

/// The GNU build ID of a note section's bytes: a note header (name size,
/// descriptor size, type), the name "GNU\0", then the descriptor, of which
/// the first 0x20 bytes (zero-padded) are the ID.
pub open spec fn note_build_id(d: Seq<u8>) -> Option<Seq<u8>> {
    if d.len() < 16 {
        None
    } else if u32_of(d, 8) != NT_GNU_BUILD_ID || u32_of(d, 0) != 4 {
        None
    } else if d.subrange(12, 16) != seq![0x47u8, 0x4Eu8, 0x55u8, 0u8] {
        None
    } else {
        let n = if u32_of(d, 4) < 0x20 {
            u32_of(d, 4) as int
        } else {
            0x20
        };
        let copy = if n < d.len() - 16 {
            n
        } else {
            d.len() - 16
        };
        Some(d.subrange(16, 16 + copy) + zeros((0x20 - copy) as nat))
    }
}

/// The build ID of the first note section that holds one.
pub open spec fn build_id_spec(ss: Seq<ElfSectionView>) -> Option<Seq<u8>>
    decreases ss.len(),
{
    if ss.len() == 0 {
        None
    } else if ss[0].is_note && ss[0].data is Some && note_build_id(ss[0].data.unwrap()) is Some {
        note_build_id(ss[0].data.unwrap())
    } else {
        build_id_spec(ss.drop_first())
    }
}

/// The MOD0 offset the text segment records at bytes 4..8, when it lies
/// strictly inside the segment.
pub open spec fn mod0_offset_spec(text: Seq<u8>) -> Option<u32> {
    if text.len() >= 8 && 0 < u32_of(text, 4) && u32_of(text, 4) < (text.len() as u32) {
        Some(u32_of(text, 4))
    } else {
        None
    }
}

/// The address and size of the last section named `name`.
pub open spec fn section_info(ss: Seq<ElfSectionView>, name: Seq<char>) -> Option<SectionInfo>
    decreases ss.len(),
{
    if ss.len() == 0 {
        None
    } else if ss.last().name == Some(name) {
        Some(SectionInfo { addr: ss.last().address, size: ss.last().size })
    } else {
        section_info(ss.drop_last(), name)
    }
}

/// What [`ElfSegments::from_parts`] gives for what the ELF parser reported.
pub open spec fn elf_segments_spec(
    is_aarch64: bool,
    ps: Seq<ElfProgramSegmentView>,
    ss: Seq<ElfSectionView>,
) -> Result<ElfSegmentsView, int> {
    let ls = load_segments(ps);
    if !is_aarch64 {
        Err(1)
    } else if first_unreadable(ls) is Some {
        Err(2)
    } else {
        let s = sort_by_address(as_loaded(ls));
        if s.len() == 0 {
            Err(3)
        } else if s.len() == 1 {
            Err(4)
        } else if s.len() == 2 {
            Err(5)
        } else {
            Ok(
                ElfSegmentsView {
                    text: s[0].1,
                    text_vaddr: s[0].0,
                    rodata: s[1].1,
                    rodata_vaddr: s[1].0,
                    data: s[2].1,
                    data_vaddr: s[2].0,
                    bss_size: bss_size_spec(s) as u64,
                    build_id: build_id_spec(ss),
                    mod0_offset: mod0_offset_spec(s[0].1),
                    dynamic: section_info(ss, ".dynamic"@),
                    dynstr: section_info(ss, ".dynstr"@),
                    dynsym: section_info(ss, ".dynsym"@),
                    eh_frame_hdr: section_info(ss, ".eh_frame_hdr"@),
                },
            )
        }
    }
}

/// Whether a parse error is the one code `c` of [`elf_segments_spec`] stands
/// for (`1` architecture, `2` unreadable segment at the address the program
/// headers give, `3`-`5` a missing text, rodata or data segment).
pub open spec fn parse_error_is(e: ParseError, c: int, ps: Seq<ElfProgramSegmentView>) -> bool {
    match e {
        ParseError::InvalidElf(_) => false,
        ParseError::UnsupportedArch => c == 1,
        ParseError::UnreadableSegment(a) => c == 2 && first_unreadable(load_segments(ps)) == Some(a),
        ParseError::MissingText => c == 3,
        ParseError::MissingRodata => c == 4,
        ParseError::MissingData => c == 5,
    }
}

/// Whether the BSS computation on what the parser reported stays within 64
/// bits (it does not only for sizes within a page of `u64::MAX`).
pub open spec fn parts_fit(ps: Seq<ElfProgramSegmentView>) -> bool {
    first_unreadable(load_segments(ps)) is None ==> bss_fits(
        sort_by_address(as_loaded(load_segments(ps))),
    )
}

proof fn lemma_load_segments_step(ps: Seq<ElfProgramSegmentView>, i: int)
    requires
        0 <= i < ps.len(),
    ensures
        load_segments(ps.take(i + 1)) == if ps[i].p_type == PT_LOAD {
            load_segments(ps.take(i)).push(ps[i])
        } else {
            load_segments(ps.take(i))
        },
{
    assert(ps.take(i + 1).drop_last() =~= ps.take(i));
}

proof fn lemma_addr_insert_pos_range(s: Seq<LoadSegmentView>, a: u64)
    ensures
        0 <= addr_insert_pos(s, a) <= s.len(),
    decreases s.len(),
{
    if s.len() > 0 && !(a < s[0].0) {
        lemma_addr_insert_pos_range(s.drop_first(), a);
    }
}

proof fn lemma_sort_by_address_len(s: Seq<LoadSegmentView>)
    ensures
        sort_by_address(s).len() == s.len(),
    decreases s.len(),
{
    if s.len() > 0 {
        lemma_sort_by_address_len(s.drop_last());
        lemma_addr_insert_pos_range(sort_by_address(s.drop_last()), s.last().0);
    }
}

/// Where a segment at address `a` goes among `sorted`.
fn find_addr_pos(sorted: &Vec<LoadSegment>, a: u64) -> (r: usize)
    ensures
        r == addr_insert_pos(sorted@.map_values(|s: LoadSegment| load_view(s)), a),
{
    let ghost sv = sorted@.map_values(|s: LoadSegment| load_view(s));
    let mut k: usize = 0;
    assert(sv.skip(0) =~= sv);
    while k < sorted.len() && !(a < sorted[k].address)
        invariant
            k <= sorted@.len(),
            sv == sorted@.map_values(|s: LoadSegment| load_view(s)),
            addr_insert_pos(sv, a) == k + addr_insert_pos(sv.skip(k as int), a),
        decreases sorted.len() - k,
    {
        assert(sv.skip(k as int)[0] == sv[k as int]);
        assert(sv.skip(k as int).drop_first() =~= sv.skip(k + 1));
        k = k + 1;
    }
    if k < sorted.len() {
        assert(sv.skip(k as int)[0] == sv[k as int]);
    }
    k
}

/// The readable loadable segments, in program header order, or the address
/// of the first that cannot be read.
fn collect_loads(segs: Vec<ElfProgramSegment>) -> (r: Result<Vec<LoadSegment>, u64>)
    ensures
        ({
            let ls = load_segments(segs@.map_values(|p: ElfProgramSegment| p@));
            match first_unreadable(ls) {
                Some(a) => r == Err::<Vec<LoadSegment>, u64>(a),
                None => r matches Ok(v) && v@.map_values(|s: LoadSegment| load_view(s))
                    == as_loaded(ls),
            }
        }),
{
    let ghost pv = segs@.map_values(|p: ElfProgramSegment| p@);
    let mut rest = segs;
    let mut out: Vec<LoadSegment> = Vec::new();
    let ghost mut i: int = 0;
    assert(pv.take(0) =~= Seq::<ElfProgramSegmentView>::empty());
    assert(pv.skip(0) =~= pv);
    while rest.len() > 0
        invariant
            0 <= i <= pv.len(),
            rest@.len() + i == pv.len(),
            pv == segs@.map_values(|p: ElfProgramSegment| p@),
            rest@.map_values(|p: ElfProgramSegment| p@) == pv.skip(i),
            first_unreadable(load_segments(pv.take(i))) is None,
            out@.map_values(|s: LoadSegment| load_view(s)) == as_loaded(load_segments(pv.take(i))),
        decreases rest.len(),
    {
        assert(rest@.map_values(|p: ElfProgramSegment| p@)[0] == pv[i]);
        let ghost old_rest = rest@;
        let p = rest.remove(0);
        let ghost pview = p@;
        assert(pview == pv[i]);
        proof {
            lemma_load_segments_step(pv, i);
            assert(rest@.map_values(|q: ElfProgramSegment| q@) =~= old_rest.map_values(
                |q: ElfProgramSegment| q@,
            ).drop_first());
            assert(pv.skip(i).drop_first() =~= pv.skip(i + 1));
        }
        if p.p_type == PT_LOAD {
            match p.data {
                Some(d) => {
                    assert(pview.data == Some(d@));
                    proof {
                        lemma_first_unreadable_push(load_segments(pv.take(i)), pv[i]);
                    }
                    let ghost old_out = out@.map_values(|s: LoadSegment| load_view(s));
                    out.push(LoadSegment { address: p.address, data: d, memsz: p.memsz, filesz: p.filesz });
                    proof {
                        let ls0 = load_segments(pv.take(i));
                        assert(load_segments(pv.take(i + 1)) == ls0.push(pv[i]));
                        assert(out@.map_values(|s: LoadSegment| load_view(s)) =~= old_out.push(
                            (pview.address, pview.data.unwrap(), pview.memsz, pview.filesz),
                        ));
                        assert(as_loaded(ls0.push(pv[i])) =~= as_loaded(ls0).push(
                            (pview.address, pview.data.unwrap(), pview.memsz, pview.filesz),
                        ));
                        assert(out@.map_values(|s: LoadSegment| load_view(s)) =~= as_loaded(
                            load_segments(pv.take(i + 1)),
                        ));
                    }
                },
                None => {
                    proof {
                        lemma_first_unreadable_push(load_segments(pv.take(i)), pv[i]);
                        lemma_first_unreadable_prefix(pv, i + 1);
                    }
                    return Err(p.address);
                },
            }
        }
        proof {
            i = i + 1;
        }
    }
    assert(pv.take(i) =~= pv);
    Ok(out)
}

proof fn lemma_first_unreadable_push(ls: Seq<ElfProgramSegmentView>, p: ElfProgramSegmentView)
    requires
        first_unreadable(ls) is None,
    ensures
        first_unreadable(ls.push(p)) == if p.data is None {
            Some(p.address)
        } else {
            None::<u64>
        },
    decreases ls.len(),
{
    if ls.len() > 0 {
        assert(ls[0].data is Some);
        assert(first_unreadable(ls.drop_first()) is None);
        lemma_first_unreadable_push(ls.drop_first(), p);
        assert(ls.push(p)[0] == ls[0]);
        assert(ls.push(p).drop_first() =~= ls.drop_first().push(p));
        assert(first_unreadable(ls.push(p)) == first_unreadable(ls.drop_first().push(p)));
    } else {
        assert(ls.push(p)[0] == p);
        assert(ls.push(p).drop_first() =~= Seq::<ElfProgramSegmentView>::empty());
        assert(first_unreadable(Seq::<ElfProgramSegmentView>::empty()) is None);
    }
}

/// Once a prefix's loadable segments hold an unreadable one, the whole
/// sequence's first unreadable segment is that one.
proof fn lemma_first_unreadable_prefix(ps: Seq<ElfProgramSegmentView>, k: int)
    requires
        0 <= k <= ps.len(),
        first_unreadable(load_segments(ps.take(k))) is Some,
    ensures
        first_unreadable(load_segments(ps)) == first_unreadable(load_segments(ps.take(k))),
    decreases ps.len() - k,
{
    if k < ps.len() {
        lemma_load_segments_step(ps, k);
        lemma_first_unreadable_keeps(load_segments(ps.take(k)), ps[k]);
        lemma_first_unreadable_prefix(ps, k + 1);
    } else {
        assert(ps.take(k) =~= ps);
    }
}

proof fn lemma_first_unreadable_keeps(ls: Seq<ElfProgramSegmentView>, p: ElfProgramSegmentView)
    requires
        first_unreadable(ls) is Some,
    ensures
        first_unreadable(ls.push(p)) == first_unreadable(ls),
    decreases ls.len(),
{
    if ls[0].data is Some {
        lemma_first_unreadable_keeps(ls.drop_first(), p);
        assert(ls.push(p).drop_first() =~= ls.drop_first().push(p));
    }
}

/// The segments sorted by address, equal addresses in their original order.
fn sort_loads(segs: Vec<LoadSegment>) -> (r: Vec<LoadSegment>)
    ensures
        r@.map_values(|s: LoadSegment| load_view(s)) == sort_by_address(
            segs@.map_values(|s: LoadSegment| load_view(s)),
        ),
{
    let ghost sv = segs@.map_values(|s: LoadSegment| load_view(s));
    let mut rest = segs;
    let mut sorted: Vec<LoadSegment> = Vec::new();
    let ghost mut i: int = 0;
    assert(sv.skip(0) =~= sv);
    assert(sv.take(0) =~= Seq::<LoadSegmentView>::empty());
    while rest.len() > 0
        invariant
            0 <= i <= sv.len(),
            rest@.len() + i == sv.len(),
            rest@.map_values(|s: LoadSegment| load_view(s)) == sv.skip(i),
            sorted@.map_values(|s: LoadSegment| load_view(s)) == sort_by_address(sv.take(i)),
        decreases rest.len(),
    {
        assert(rest@.map_values(|s: LoadSegment| load_view(s))[0] == sv[i]);
        let ghost old_rest = rest@;
        let s = rest.remove(0);
        let pos = find_addr_pos(&sorted, s.address);
        proof {
            lemma_addr_insert_pos_range(sorted@.map_values(|t: LoadSegment| load_view(t)), s.address);
        }
        sorted.insert(pos, s);
        proof {
            assert(rest@.map_values(|t: LoadSegment| load_view(t)) =~= old_rest.map_values(
                |t: LoadSegment| load_view(t),
            ).drop_first());
            assert(sv.skip(i).drop_first() =~= sv.skip(i + 1));
            assert(sv.take(i + 1).drop_last() =~= sv.take(i));
            assert(sorted@.map_values(|t: LoadSegment| load_view(t)) =~= sort_by_address(
                sv.take(i + 1),
            ));
            i = i + 1;
        }
    }
    assert(sv.take(i) =~= sv);
    sorted
}

/// `x` rounded up to a whole page.
fn align_page(x: u64) -> (r: u64)
    requires
        x + 0xFFF <= u64::MAX,
    ensures
        r == page_align(x),
{
    let y = x + 0xFFF;
    let r = y & !0xFFFu64;
    assert(r == y - y % 0x1000) by (bit_vector)
        requires
            r == y & !0xFFFu64,
    ;
    r
}

/// The BSS size of segments sorted by address.
fn bss_size_of(s: &Vec<LoadSegment>) -> (r: u64)
    requires
        s@.len() >= 3,
        bss_fits(s@.map_values(|t: LoadSegment| load_view(t))),
    ensures
        r == bss_size_spec(s@.map_values(|t: LoadSegment| load_view(t))),
{
    let ghost sv = s@.map_values(|t: LoadSegment| load_view(t));
    if s.len() >= 4 {
        // A fourth segment is pure BSS: its memory size counts, not its
        // (empty) file contents.
        assert(sv[3].2 == s@[3].memsz);
        align_page(s[3].memsz)
    } else {
        assert(sv[2].2 == s@[2].memsz && sv[2].3 == s@[2].filesz);
        let memsz = s[2].memsz;
        let filesz = s[2].filesz;
        if memsz > filesz {
            let aligned_filesz = align_page(filesz);
            if memsz > aligned_filesz {
                align_page(memsz - aligned_filesz)
            } else {
                0
            }
        } else {
            0
        }
    }
}

/// The build ID of a note section's bytes, if they hold one.
fn note_build_id_of(d: &[u8]) -> (r: Option<[u8; 32]>)
    ensures
        match note_build_id(d@) {
            Some(id) => r matches Some(a) && a@ == id,
            None => r is None,
        },
{
    if d.len() < 12 {
        return None;
    }
    let namesz = read_u32(d, 0);
    let descsz = read_u32(d, 4);
    let note_type = read_u32(d, 8);
    if note_type != NT_GNU_BUILD_ID || namesz != 4 {
        return None;
    }
    if d.len() < 16 {
        return None;
    }
    if !(d[12] == 0x47 && d[13] == 0x4E && d[14] == 0x55 && d[15] == 0) {
        assert(d@.subrange(12, 16) != seq![0x47u8, 0x4Eu8, 0x55u8, 0u8]) by {
            if d@.subrange(12, 16) == seq![0x47u8, 0x4Eu8, 0x55u8, 0u8] {
                assert(d@.subrange(12, 16)[0] == d@[12]);
                assert(d@.subrange(12, 16)[1] == d@[13]);
                assert(d@.subrange(12, 16)[2] == d@[14]);
                assert(d@.subrange(12, 16)[3] == d@[15]);
            }
        }
        return None;
    }
    assert(d@.subrange(12, 16) =~= seq![0x47u8, 0x4Eu8, 0x55u8, 0u8]);
    // The descriptor follows the header and the 4-byte-aligned name.
    let desc_offset: usize = 16;
    let n: usize = if descsz < 0x20 {
        descsz as usize
    } else {
        0x20
    };
    let copy_size = if n < d.len() - desc_offset {
        n
    } else {
        d.len() - desc_offset
    };
    let mut id = [0u8; 32];
    let mut i: usize = 0;
    while i < copy_size
        invariant
            i <= copy_size <= 0x20,
            desc_offset + copy_size <= d@.len(),
            desc_offset == 16,
            id@.len() == 32,
            forall|j: int| 0 <= j < i ==> id@[j] == d@[16 + j],
            forall|j: int| i <= j < 32 ==> id@[j] == 0,
        decreases copy_size - i,
    {
        id.set(i, d[desc_offset + i]);
        i = i + 1;
    }
    assert(id@ =~= d@.subrange(16, 16 + copy_size) + zeros((0x20 - copy_size) as nat));
    Some(id)
}

/// The build ID of the first note section holding one.
fn extract_build_id(sections: &Vec<ElfSectionRecord>) -> (r: Option<[u8; 32]>)
    ensures
        match build_id_spec(sections@.map_values(|s: ElfSectionRecord| s@)) {
            Some(id) => r matches Some(a) && a@ == id,
            None => r is None,
        },
{
    let ghost sv = sections@.map_values(|s: ElfSectionRecord| s@);
    let mut i: usize = 0;
    assert(sv.skip(0) =~= sv);
    while i < sections.len()
        invariant
            i <= sections@.len(),
            sv == sections@.map_values(|s: ElfSectionRecord| s@),
            build_id_spec(sv) == build_id_spec(sv.skip(i as int)),
        decreases sections.len() - i,
    {
        assert(sv.skip(i as int)[0] == sv[i as int]);
        assert(sv.skip(i as int).drop_first() =~= sv.skip(i + 1));
        let section = &sections[i];
        if section.is_note {
            if let Some(d) = &section.data {
                if let Some(id) = note_build_id_of(d.as_slice()) {
                    return Some(id);
                }
            }
        }
        i = i + 1;
    }
    None
}

/// The MOD0 offset recorded at bytes 4..8 of the text segment, when it lies
/// strictly inside the segment.
fn mod0_offset_of(text: &Vec<u8>) -> (r: Option<u32>)
    ensures
        r == mod0_offset_spec(text@),
{
    if text.len() >= 8 {
        let offset = read_u32(text.as_slice(), 4);
        if offset > 0 && offset < text.len() as u32 {
            Some(offset)
        } else {
            None
        }
    } else {
        None
    }
}

/// The address and size of the last section named `name`.
fn find_section(sections: &Vec<ElfSectionRecord>, name: &str) -> (r: Option<SectionInfo>)
    ensures
        r == section_info(sections@.map_values(|s: ElfSectionRecord| s@), name@),
{
    let ghost sv = sections@.map_values(|s: ElfSectionRecord| s@);
    let mut found: Option<SectionInfo> = None;
    let mut i: usize = 0;
    assert(sv.take(0) =~= Seq::<ElfSectionView>::empty());
    while i < sections.len()
        invariant
            i <= sections@.len(),
            sv == sections@.map_values(|s: ElfSectionRecord| s@),
            found == section_info(sv.take(i as int), name@),
        decreases sections.len() - i,
    {
        assert(sv.take(i + 1).drop_last() =~= sv.take(i as int));
        let section = &sections[i];
        if let Some(n) = &section.name {
            if bytes_eq(n.as_str().as_bytes(), name.as_bytes()) {
                proof {
                    vstd::utf8::encode_utf8_decode_utf8(n@);
                    vstd::utf8::encode_utf8_decode_utf8(name@);
                }
                found = Some(SectionInfo { addr: section.address, size: section.size });
            } else {
                assert(n@ != name@);
            }
        }
        i = i + 1;
    }
    assert(sv.take(i as int) =~= sv);
    found
}

impl ElfSegments {
    /// Build the segments from what the ELF parser reported: the loadable
    /// program headers' segments (each must be readable) sorted by address
    /// give text, rodata and data, the BSS size follows from the last of
    /// them, the first note section with a GNU build ID gives the build ID,
    /// and the text segment the MOD0 offset. The machine must be AArch64.
    pub fn from_parts(is_aarch64: bool, segments: Vec<ElfProgramSegment>, sections: Vec<ElfSectionRecord>) -> (r: Result<Self, ParseError>)
        requires
            parts_fit(segments@.map_values(|p: ElfProgramSegment| p@)),
        ensures
            match elf_segments_spec(
                is_aarch64,
                segments@.map_values(|p: ElfProgramSegment| p@),
                sections@.map_values(|s: ElfSectionRecord| s@),
            ) {
                Ok(v) => r matches Ok(e) && e@ == v,
                Err(c) => r matches Err(e) && parse_error_is(
                    e,
                    c,
                    segments@.map_values(|p: ElfProgramSegment| p@),
                ),
            },
    {
        let ghost pv = segments@.map_values(|p: ElfProgramSegment| p@);
        let ghost sv = sections@.map_values(|s: ElfSectionRecord| s@);
        if !is_aarch64 {
            return Err(ParseError::UnsupportedArch);
        }
        let loads = match collect_loads(segments) {
            Ok(l) => l,
            Err(address) => {
                return Err(ParseError::UnreadableSegment(address));
            },
        };
        let mut sorted = sort_loads(loads);
        proof {
            lemma_sort_by_address_len(as_loaded(load_segments(pv)));
        }
        if sorted.len() == 0 {
            return Err(ParseError::MissingText);
        }
        if sorted.len() == 1 {
            return Err(ParseError::MissingRodata);
        }
        if sorted.len() == 2 {
            return Err(ParseError::MissingData);
        }
        let ghost s = sorted@.map_values(|t: LoadSegment| load_view(t));
        let bss_size = bss_size_of(&sorted);
        let build_id = extract_build_id(&sections);
        let dynamic = find_section(&sections, ".dynamic");
        let dynstr = find_section(&sections, ".dynstr");
        let dynsym = find_section(&sections, ".dynsym");
        let eh_frame_hdr = find_section(&sections, ".eh_frame_hdr");
        assert(s[0] == load_view(sorted@[0]) && s[1] == load_view(sorted@[1]) && s[2] == load_view(
            sorted@[2],
        ));
        let data_seg = sorted.remove(2);
        let rodata_seg = sorted.remove(1);
        let text_seg = sorted.remove(0);
        let mod0_offset = mod0_offset_of(&text_seg.data);
        Ok(
            ElfSegments {
                text: text_seg.data,
                text_vaddr: text_seg.address,
                rodata: rodata_seg.data,
                rodata_vaddr: rodata_seg.address,
                data: data_seg.data,
                data_vaddr: data_seg.address,
                bss_size,
                build_id,
                mod0_offset,
                dynamic,
                dynstr,
                dynsym,
                eh_frame_hdr,
            },
        )
    }

    /// Parse an ELF image and extract its segments for NRO or NSO
    /// generation; see [`ElfSegments::from_parts`].
    pub fn parse(data: &[u8]) -> (r: Result<Self, ParseError>)
        requires
            elf_load_of(data@) matches Some((_, ps)) ==> parts_fit(ps),
        ensures
            match elf_load_of(data@) {
                None => r matches Err(ParseError::InvalidElf(_)),
                Some((arch, ps)) => match elf_segments_spec(arch, ps, elf_sections_of(data@)) {
                    Ok(v) => r matches Ok(e) && e@ == v,
                    Err(c) => r matches Err(e) && parse_error_is(e, c, ps),
                },
            },
    {
        let (is_aarch64, segments) = match elf_load(data) {
            Ok(x) => x,
            Err(e) => {
                return Err(ParseError::InvalidElf(e));
            },
        };
        let sections = elf_section_records(data);
        Self::from_parts(is_aarch64, segments, sections)
    }

    /// [`ElfSegments::parse`], or `None` when a segment size lies within a
    /// page of `u64::MAX`, where rounding the BSS size up would overflow.
    pub fn try_parse(data: &[u8]) -> (r: Option<Result<Self, ParseError>>)
        ensures
            match elf_load_of(data@) {
                None => r matches Some(Err(ParseError::InvalidElf(_))),
                Some((arch, ps)) => if parts_fit(ps) {
                    match elf_segments_spec(arch, ps, elf_sections_of(data@)) {
                        Ok(v) => r matches Some(Ok(e)) && e@ == v,
                        Err(c) => r matches Some(Err(e)) && parse_error_is(e, c, ps),
                    }
                } else {
                    r is None
                },
            },
    {
        let (_, segments) = match elf_load(data) {
            Ok(x) => x,
            Err(e) => {
                return Some(Err(ParseError::InvalidElf(e)));
            },
        };
        if !parts_fit_exec(&segments) {
            return None;
        }
        Some(Self::parse(data))
    }

    /// The text (code) segment.
    pub fn text(&self) -> (r: &[u8])
        ensures
            r@ == self@.text,
    {
        self.text.as_slice()
    }

    /// The rodata (read-only data) segment.
    pub fn rodata(&self) -> (r: &[u8])
        ensures
            r@ == self@.rodata,
    {
        self.rodata.as_slice()
    }

    /// The data (read-write data) segment.
    pub fn data(&self) -> (r: &[u8])
        ensures
            r@ == self@.data,
    {
        self.data.as_slice()
    }

    /// The BSS size in bytes.
    pub fn bss_size(&self) -> (r: u64)
        ensures
            r == self@.bss_size,
    {
        self.bss_size
    }

    /// The 32-byte build ID, if the image carries one.
    pub fn build_id(&self) -> (r: Option<&[u8; 32]>)
        ensures
            match self@.build_id {
                Some(id) => r matches Some(a) && a@ == id,
                None => r is None,
            },
    {
        match &self.build_id {
            Some(id) => Some(id),
            None => None,
        }
    }

    /// The MOD0 offset relative to the start of the text segment.
    pub fn mod0_offset(&self) -> (r: Option<u32>)
        ensures
            r == self@.mod0_offset,
    {
        self.mod0_offset
    }

    /// The text segment's virtual address.
    pub fn text_vaddr(&self) -> (r: u64)
        ensures
            r == self@.text_vaddr,
    {
        self.text_vaddr
    }

    /// The rodata segment's virtual address.
    pub fn rodata_vaddr(&self) -> (r: u64)
        ensures
            r == self@.rodata_vaddr,
    {
        self.rodata_vaddr
    }

    /// The data segment's virtual address.
    pub fn data_vaddr(&self) -> (r: u64)
        ensures
            r == self@.data_vaddr,
    {
        self.data_vaddr
    }

    /// An [`NroBuilder`] holding the segments, their addresses and the BSS
    /// size (each truncated to 32 bits), and the build ID when there is one.
    pub fn into_nro_builder(self) -> (r: NroBuilder)
        ensures
            r@ == (NroBuilderView {
                text: Some(self@.text),
                text_vaddr: self@.text_vaddr as u32,
                rodata: Some(self@.rodata),
                rodata_vaddr: self@.rodata_vaddr as u32,
                data: Some(self@.data),
                data_vaddr: self@.data_vaddr as u32,
                bss_size: self@.bss_size as u32,
                build_id: self@.build_id,
                ..nro_builder_empty()
            }),
    {
        let mut builder = NroBuilder::new().text(self.text).text_vaddr(self.text_vaddr as u32).rodata(
            self.rodata,
        ).rodata_vaddr(self.rodata_vaddr as u32).data(self.data).data_vaddr(
            self.data_vaddr as u32,
        ).bss_size(self.bss_size as u32);
        if let Some(build_id) = self.build_id {
            builder = builder.build_id(build_id);
        }
        builder
    }

    /// An [`NsoBuilder`] holding the segments, their addresses and the BSS
    /// size (each truncated to 32 bits), and the build ID as module ID when
    /// there is one.
    pub fn into_nso_builder(self) -> (r: NsoBuilder)
        ensures
            r@ == (NsoBuilderView {
                text: Some(self@.text),
                text_vaddr: self@.text_vaddr as u32,
                rodata: Some(self@.rodata),
                rodata_vaddr: self@.rodata_vaddr as u32,
                data: Some(self@.data),
                data_vaddr: self@.data_vaddr as u32,
                bss_size: self@.bss_size as u32,
                module_id: self@.build_id,
                ..nso_builder_empty()
            }),
    {
        let mut builder = NsoBuilder::new().text(self.text).text_vaddr(self.text_vaddr as u32).rodata(
            self.rodata,
        ).rodata_vaddr(self.rodata_vaddr as u32).data(self.data).data_vaddr(
            self.data_vaddr as u32,
        ).bss_size(self.bss_size as u32);
        if let Some(build_id) = self.build_id {
            builder = builder.module_id(build_id);
        }
        builder
    }
}

/// Whether the BSS computation on these program headers stays within 64
/// bits.
fn parts_fit_exec(segments: &Vec<ElfProgramSegment>) -> (r: bool)
    ensures
        r == parts_fit(segments@.map_values(|p: ElfProgramSegment| p@)),
{
    let ghost pv = segments@.map_values(|p: ElfProgramSegment| p@);
    // Gather the loadable segments' addresses and sizes, in order, as the
    // parse would.
    let mut loads: Vec<LoadSegment> = Vec::new();
    let mut i: usize = 0;
    assert(pv.take(0) =~= Seq::<ElfProgramSegmentView>::empty());
    while i < segments.len()
        invariant
            i <= segments@.len(),
            pv == segments@.map_values(|p: ElfProgramSegment| p@),
            first_unreadable(load_segments(pv.take(i as int))) is None ==> loads@.map_values(
                |s: LoadSegment| load_view(s),
            ) == as_loaded(load_segments(pv.take(i as int))),
        decreases segments.len() - i,
    {
        proof {
            lemma_load_segments_step(pv, i as int);
        }
        let p = &segments[i];
        if p.p_type == PT_LOAD {
            match &p.data {
                Some(d) => {
                    assert(pv[i as int].data == Some(d@));
                    let mut copy: Vec<u8> = Vec::new();
                    push_all(&mut copy, d.as_slice());
                    assert(copy@ =~= d@);
                    let ghost old_loads = loads@.map_values(|s: LoadSegment| load_view(s));
                    loads.push(
                        LoadSegment { address: p.address, data: copy, memsz: p.memsz, filesz: p.filesz },
                    );
                    proof {
                        if first_unreadable(load_segments(pv.take(i + 1))) is None {
                            if first_unreadable(load_segments(pv.take(i as int))) is Some {
                                lemma_first_unreadable_keeps(load_segments(pv.take(i as int)), pv[i as int]);
                            } else {
                                let ls0 = load_segments(pv.take(i as int));
                                let pi = pv[i as int];
                                assert(load_segments(pv.take(i + 1)) == ls0.push(pi));
                                assert(loads@.map_values(|s: LoadSegment| load_view(s)) =~= old_loads.push(
                                    (pi.address, pi.data.unwrap(), pi.memsz, pi.filesz),
                                ));
                                assert(as_loaded(ls0.push(pi)) =~= as_loaded(ls0).push(
                                    (pi.address, pi.data.unwrap(), pi.memsz, pi.filesz),
                                ));
                            }
                        }
                    }
                },
                None => {
                    proof {
                        if first_unreadable(load_segments(pv.take(i as int))) is None {
                            lemma_first_unreadable_push(load_segments(pv.take(i as int)), pv[i as int]);
                        } else {
                            lemma_first_unreadable_keeps(load_segments(pv.take(i as int)), pv[i as int]);
                        }
                    }
                },
            }
        }
        i = i + 1;
    }
    assert(pv.take(i as int) =~= pv);
    if !first_unreadable_exec(segments) {
        return true;
    }
    let sorted = sort_loads(loads);
    proof {
        lemma_sort_by_address_len(as_loaded(load_segments(pv)));
    }
    let ghost s = sorted@.map_values(|t: LoadSegment| load_view(t));
    if sorted.len() >= 4 {
        assert(s[3].2 == sorted@[3].memsz);
        sorted[3].memsz <= u64::MAX - 0xFFF
    } else if sorted.len() == 3 {
        assert(s[2].3 == sorted@[2].filesz && s[2].2 == sorted@[2].memsz);
        let memsz = sorted[2].memsz;
        let filesz = sorted[2].filesz;
        if filesz > u64::MAX - 0xFFF {
            return false;
        }
        let aligned = align_page(filesz);
        !(memsz > aligned) || memsz - aligned <= u64::MAX - 0xFFF
    } else {
        true
    }
}

/// Whether every loadable segment can be read.
fn first_unreadable_exec(segments: &Vec<ElfProgramSegment>) -> (r: bool)
    ensures
        r == (first_unreadable(load_segments(segments@.map_values(|p: ElfProgramSegment| p@))) is None),
{
    let ghost pv = segments@.map_values(|p: ElfProgramSegment| p@);
    let mut i: usize = 0;
    assert(pv.take(0) =~= Seq::<ElfProgramSegmentView>::empty());
    while i < segments.len()
        invariant
            i <= segments@.len(),
            pv == segments@.map_values(|p: ElfProgramSegment| p@),
            first_unreadable(load_segments(pv.take(i as int))) is None,
        decreases segments.len() - i,
    {
        proof {
            lemma_load_segments_step(pv, i as int);
        }
        if segments[i].p_type == PT_LOAD && segments[i].data.is_none() {
            proof {
                lemma_first_unreadable_push(load_segments(pv.take(i as int)), pv[i as int]);
                lemma_first_unreadable_prefix(pv, i + 1);
            }
            return false;
        }
        proof {
            if pv[i as int].p_type == PT_LOAD {
                lemma_first_unreadable_push(load_segments(pv.take(i as int)), pv[i as int]);
            }
        }
        i = i + 1;
    }
    assert(pv.take(i as int) =~= pv);
    true
}

} // verus!
