use nx_object::elf::segments::{ElfProgramSegment, ElfSectionRecord, PT_LOAD};
use nx_object::elf::{ElfSegments, ParseError, SectionInfo};

fn seg(address: u64, data: Vec<u8>, memsz: u64) -> ElfProgramSegment {
    ElfProgramSegment {
        p_type: PT_LOAD,
        address,
        memsz,
        filesz: data.len() as u64,
        data: Some(data),
    }
}

fn note(desc: &[u8]) -> Vec<u8> {
    let mut d = Vec::new();
    d.extend_from_slice(&4u32.to_le_bytes());
    d.extend_from_slice(&(desc.len() as u32).to_le_bytes());
    d.extend_from_slice(&3u32.to_le_bytes());
    d.extend_from_slice(b"GNU\0");
    d.extend_from_slice(desc);
    d
}

fn section(name: &str, address: u64, size: u64) -> ElfSectionRecord {
    ElfSectionRecord { name: Some(name.to_string()), address, size, is_note: false, data: None }
}

/// A little-endian ELF64 AArch64 executable with three loadable segments
/// and no section headers.
fn tiny_elf(machine: u16) -> Vec<u8> {
    let mut b = vec![0u8; 0x110];
    b[0..4].copy_from_slice(b"\x7fELF");
    b[4] = 2;
    b[5] = 1;
    b[6] = 1;
    b[16..18].copy_from_slice(&2u16.to_le_bytes());
    b[18..20].copy_from_slice(&machine.to_le_bytes());
    b[20..24].copy_from_slice(&1u32.to_le_bytes());
    b[32..40].copy_from_slice(&64u64.to_le_bytes());
    b[52..54].copy_from_slice(&64u16.to_le_bytes());
    b[54..56].copy_from_slice(&56u16.to_le_bytes());
    b[56..58].copy_from_slice(&3u16.to_le_bytes());
    b[58..60].copy_from_slice(&64u16.to_le_bytes());
    let phdrs = [(0x100u64, 8u64, 0u64, 8u64), (0x108, 4, 0x1000, 4), (0x10C, 4, 0x2000, 0x3000)];
    for (i, (off, filesz, vaddr, memsz)) in phdrs.iter().enumerate() {
        let p = 64 + i * 56;
        b[p..p + 4].copy_from_slice(&1u32.to_le_bytes());
        b[p + 4..p + 8].copy_from_slice(&5u32.to_le_bytes());
        b[p + 8..p + 16].copy_from_slice(&off.to_le_bytes());
        b[p + 16..p + 24].copy_from_slice(&vaddr.to_le_bytes());
        b[p + 24..p + 32].copy_from_slice(&vaddr.to_le_bytes());
        b[p + 32..p + 40].copy_from_slice(&filesz.to_le_bytes());
        b[p + 40..p + 48].copy_from_slice(&memsz.to_le_bytes());
        b[p + 48..p + 56].copy_from_slice(&0x1000u64.to_le_bytes());
    }
    b[0x100..0x108].copy_from_slice(&[1, 2, 3, 4, 4, 0, 0, 0]);
    b[0x108..0x10C].copy_from_slice(&[5, 6, 7, 8]);
    b[0x10C..0x110].copy_from_slice(&[9, 10, 11, 12]);
    b
}

#[test]
fn from_parts_sorts_segments_by_address() {
    let segs = vec![
        seg(0x2000, vec![3; 4], 4),
        seg(0, vec![1, 0, 0, 0, 6, 0, 0, 0], 8),
        seg(0x1000, vec![2; 4], 4),
    ];
    let e = ElfSegments::from_parts(true, segs, Vec::new()).expect("three segments");
    assert_eq!(e.text(), &[1, 0, 0, 0, 6, 0, 0, 0]);
    assert_eq!(e.text_vaddr(), 0);
    assert_eq!(e.rodata(), &[2u8; 4]);
    assert_eq!(e.rodata_vaddr(), 0x1000);
    assert_eq!(e.data(), &[3u8; 4]);
    assert_eq!(e.data_vaddr(), 0x2000);
    assert_eq!(e.bss_size(), 0);
    assert_eq!(e.mod0_offset(), Some(6));
    assert_eq!(e.build_id(), None);
}

#[test]
fn from_parts_bss_from_the_fourth_segment_or_the_data_tail() {
    let four = vec![
        seg(0, vec![0; 8], 8),
        seg(0x1000, vec![0; 4], 4),
        seg(0x2000, vec![0; 4], 4),
        seg(0x3000, Vec::new(), 0x1801),
    ];
    let e = ElfSegments::from_parts(true, four, Vec::new()).unwrap();
    assert_eq!(e.bss_size(), 0x2000);
    let three = vec![seg(0, vec![0; 8], 8), seg(0x1000, vec![0; 4], 4), seg(0x2000, vec![0; 4], 0x3000)];
    let e = ElfSegments::from_parts(true, three, Vec::new()).unwrap();
    assert_eq!(e.bss_size(), 0x2000);
}

#[test]
fn from_parts_errors() {
    let segs = || vec![seg(0, vec![0; 8], 8), seg(0x1000, vec![0; 4], 4), seg(0x2000, vec![0; 4], 4)];
    assert!(matches!(
        ElfSegments::from_parts(false, segs(), Vec::new()),
        Err(ParseError::UnsupportedArch)
    ));
    assert!(matches!(ElfSegments::from_parts(true, Vec::new(), Vec::new()), Err(ParseError::MissingText)));
    assert!(matches!(
        ElfSegments::from_parts(true, vec![seg(0, vec![0; 8], 8)], Vec::new()),
        Err(ParseError::MissingRodata)
    ));
    let mut two = segs();
    two.pop();
    assert!(matches!(ElfSegments::from_parts(true, two, Vec::new()), Err(ParseError::MissingData)));
    let mut unreadable = segs();
    unreadable[1].data = None;
    assert!(matches!(
        ElfSegments::from_parts(true, unreadable, Vec::new()),
        Err(ParseError::UnreadableSegment(0x1000))
    ));
    let mut other = segs();
    other.push(ElfProgramSegment { p_type: 2, address: 0x9000, memsz: 0, filesz: 0, data: None });
    assert!(ElfSegments::from_parts(true, other, Vec::new()).is_ok());
}

#[test]
fn from_parts_reads_the_build_id_and_sections() {
    let segs = vec![seg(0, vec![0; 8], 8), seg(0x1000, vec![0; 4], 4), seg(0x2000, vec![0; 4], 4)];
    let id: Vec<u8> = (1..=20).collect();
    let sections = vec![
        ElfSectionRecord {
            name: Some(".note.gnu.build-id".to_string()),
            address: 0x100,
            size: 36,
            is_note: true,
            data: Some(note(&id)),
        },
        section(".dynamic", 0x2000, 0x80),
        section(".dynstr", 0x1100, 0x40),
    ];
    let e = ElfSegments::from_parts(true, segs, sections).unwrap();
    let mut expected = [0u8; 32];
    expected[..20].copy_from_slice(&id);
    assert_eq!(e.build_id(), Some(&expected));
    assert_eq!(e.mod0_offset(), None);
    let b = e.into_nro_builder().build().unwrap();
    assert_eq!(&b[0x40..0x60], &expected);
}

#[test]
fn parse_reads_a_tiny_aarch64_executable() {
    let bytes = tiny_elf(183);
    let e = ElfSegments::parse(&bytes).expect("a well-formed ELF parses");
    assert_eq!(e.text(), &[1, 2, 3, 4, 4, 0, 0, 0]);
    assert_eq!(e.rodata(), &[5, 6, 7, 8]);
    assert_eq!(e.data(), &[9, 10, 11, 12]);
    assert_eq!(e.rodata_vaddr(), 0x1000);
    assert_eq!(e.data_vaddr(), 0x2000);
    assert_eq!(e.bss_size(), 0x2000);
    assert_eq!(e.mod0_offset(), Some(4));
    let nso = e.into_nso_builder().build().unwrap();
    assert_eq!(&nso[0..4], b"NSO0");
}

#[test]
fn parse_rejects_another_machine_and_garbage() {
    assert!(matches!(ElfSegments::parse(&tiny_elf(62)), Err(ParseError::UnsupportedArch)));
    assert!(matches!(ElfSegments::parse(b"not an elf"), Err(ParseError::InvalidElf(_))));
}

#[test]
fn section_info_is_plain_data() {
    let s = SectionInfo { addr: 1, size: 2 };
    assert_eq!(s, SectionInfo { addr: 1, size: 2 });
}

/// The tiny executable with section headers: a `.shstrtab` and a GNU
/// build-ID note.
fn tiny_elf_with_note() -> Vec<u8> {
    let mut b = tiny_elf(183);
    b.resize(0x208, 0);
    // The note: name size 4, descriptor size 8, type 3, "GNU\0", descriptor.
    let mut note = Vec::new();
    note.extend_from_slice(&4u32.to_le_bytes());
    note.extend_from_slice(&8u32.to_le_bytes());
    note.extend_from_slice(&3u32.to_le_bytes());
    note.extend_from_slice(b"GNU\0");
    note.extend_from_slice(&[0xA1, 0xA2, 0xA3, 0xA4, 0xA5, 0xA6, 0xA7, 0xA8]);
    b[0x110..0x128].copy_from_slice(&note);
    let strtab = b"\0.shstrtab\0.note.gnu.build-id\0";
    b[0x128..0x128 + strtab.len()].copy_from_slice(strtab);
    b[40..48].copy_from_slice(&0x148u64.to_le_bytes());
    b[60..62].copy_from_slice(&3u16.to_le_bytes());
    b[62..64].copy_from_slice(&1u16.to_le_bytes());
    let sections: [(u32, u32, u64, u64, u64, u64); 2] = [
        (1, 3, 0, 0, 0x128, strtab.len() as u64),
        (11, 7, 2, 0x110, 0x110, 24),
    ];
    for (i, (name, kind, flags, addr, off, size)) in sections.iter().enumerate() {
        let s = 0x148 + (i + 1) * 64;
        b[s..s + 4].copy_from_slice(&name.to_le_bytes());
        b[s + 4..s + 8].copy_from_slice(&kind.to_le_bytes());
        b[s + 8..s + 16].copy_from_slice(&flags.to_le_bytes());
        b[s + 16..s + 24].copy_from_slice(&addr.to_le_bytes());
        b[s + 24..s + 32].copy_from_slice(&off.to_le_bytes());
        b[s + 32..s + 40].copy_from_slice(&size.to_le_bytes());
        b[s + 48..s + 56].copy_from_slice(&4u64.to_le_bytes());
    }
    b
}

#[test]
fn parse_reads_the_build_id_note() {
    let bytes = tiny_elf_with_note();
    let e = ElfSegments::parse(&bytes).expect("a well-formed ELF with sections parses");
    let mut expected = [0u8; 32];
    expected[..8].copy_from_slice(&[0xA1, 0xA2, 0xA3, 0xA4, 0xA5, 0xA6, 0xA7, 0xA8]);
    assert_eq!(e.build_id(), Some(&expected));
    assert_eq!(e.text(), &[1, 2, 3, 4, 4, 0, 0, 0]);
}
