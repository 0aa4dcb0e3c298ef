use nx_object::read::mod0::{FromBytesError as Mod0Error, Mod0};
use nx_object::read::romfs::{FromBytesError as RomFsError, RomFs};
use nx_object::read::{Npdm, NpdmFromBytesError};
use nx_object::write::npdm::NpdmMetadata;
use nx_object::write::{NpdmBuilder, RomFsBuilder};

fn mod0_bytes(words: [u32; 7]) -> Vec<u8> {
    words.iter().flat_map(|w| w.to_le_bytes()).collect()
}

#[test]
fn mod0_reads_every_offset() {
    let bytes = mod0_bytes([0x30444f4d, 8, 0x100, 0x200, (-4i32) as u32, 0x300, 0x400]);
    let m = Mod0::try_from_bytes(&bytes).expect("a MOD0 header parses");
    assert_eq!(m.dynamic_offset(), 8);
    assert_eq!(m.bss_start_offset(), 0x100);
    assert_eq!(m.bss_end_offset(), 0x200);
    assert_eq!(m.eh_frame_hdr_start(), -4);
    assert_eq!(m.eh_frame_hdr_end(), 0x300);
    assert_eq!(m.module_object_offset(), 0x400);
    assert_eq!(m.header().magic, 0x30444f4d);
}

#[test]
fn mod0_rejects_short_and_bad_magic() {
    assert!(matches!(
        Mod0::try_from_bytes(&[0u8; 0x1B]),
        Err(Mod0Error::BufferTooSmall { required: 0x1C, available: 0x1B })
    ));
    let bytes = mod0_bytes([0x12345678, 0, 0, 0, 0, 0, 0]);
    assert!(matches!(
        Mod0::try_from_bytes(&bytes),
        Err(Mod0Error::InvalidMagic { found: 0x12345678 })
    ));
}

fn romfs_image() -> Vec<u8> {
    RomFsBuilder::new()
        .add_file("/a".to_string(), vec![1, 2, 3])
        .unwrap()
        .build()
        .unwrap()
}

fn set_u64(b: &mut [u8], at: usize, v: u64) {
    b[at..at + 8].copy_from_slice(&v.to_le_bytes());
}

#[test]
fn romfs_reader_checks_each_table_in_order() {
    let good = romfs_image();
    let len = good.len();

    let mut b = good.clone();
    set_u64(&mut b, 0x20, len as u64);
    assert!(matches!(RomFs::try_from_bytes(&b), Err(RomFsError::DirMetaTableOutOfBounds { .. })));

    let mut b = good.clone();
    set_u64(&mut b, 0x18, u64::MAX);
    assert!(matches!(RomFs::try_from_bytes(&b), Err(RomFsError::DirMetaTableBoundsOverflow { .. })));

    let mut b = good.clone();
    set_u64(&mut b, 0x10, len as u64);
    assert!(matches!(RomFs::try_from_bytes(&b), Err(RomFsError::DirHashTableOutOfBounds { .. })));

    let mut b = good.clone();
    set_u64(&mut b, 0x40, len as u64);
    assert!(matches!(RomFs::try_from_bytes(&b), Err(RomFsError::FileMetaTableOutOfBounds { .. })));

    let mut b = good.clone();
    set_u64(&mut b, 0x30, len as u64);
    assert!(matches!(RomFs::try_from_bytes(&b), Err(RomFsError::FileHashTableOutOfBounds { .. })));

    let mut b = good.clone();
    set_u64(&mut b, 0x48, len as u64 + 1);
    match RomFs::try_from_bytes(&b) {
        Err(RomFsError::FileDataOffsetOutOfBounds { offset, available }) => {
            assert_eq!(offset, len + 1);
            assert_eq!(available, len);
        }
        _ => panic!("a data region past the end must be refused"),
    }

    assert!(RomFs::try_from_bytes(&good).is_ok());
}

#[test]
fn romfs_file_data_beyond_the_image_is_refused() {
    let image = romfs_image();
    let mut cut = image.clone();
    // Point the file data far away: the file opens, its data does not.
    set_u64(&mut cut, 0x48, image.len() as u64 - 1);
    let romfs = RomFs::try_from_bytes(&cut).unwrap();
    let f = romfs.open("/a").expect("the entry is still there");
    assert!(matches!(f.data(), Err(RomFsError::FileDataOutOfBounds { .. })));
}

fn npdm() -> Vec<u8> {
    NpdmBuilder::new(NpdmMetadata {
        name: "A".to_string(),
        title_id: 1,
        version: 0,
        main_thread_priority: 44,
        default_cpu_id: 0,
        main_thread_stack_size: 0x1000,
        flags: 0,
    })
    .build()
}

#[test]
fn npdm_reader_checks_acid_and_aci0() {
    let good = npdm();
    let mut b = good.clone();
    b[0x80 + 0x200] = 0;
    assert!(matches!(Npdm::try_from_bytes(&b), Err(NpdmFromBytesError::InvalidAcidMagic { .. })));

    let mut b = good.clone();
    b[0x7C..0x80].copy_from_slice(&0x10u32.to_le_bytes());
    assert!(matches!(
        Npdm::try_from_bytes(&b),
        Err(NpdmFromBytesError::InvalidAcidSize { found: 0x10 })
    ));

    let aci_off = u32::from_le_bytes(good[0x70..0x74].try_into().unwrap()) as usize;
    let mut b = good.clone();
    b[aci_off] = 0;
    assert!(matches!(Npdm::try_from_bytes(&b), Err(NpdmFromBytesError::InvalidAci0Magic { .. })));

    let mut b = good.clone();
    b[0x74..0x78].copy_from_slice(&0x20u32.to_le_bytes());
    assert!(matches!(
        Npdm::try_from_bytes(&b),
        Err(NpdmFromBytesError::InvalidAci0Size { found: 0x20 })
    ));

    let mut b = good.clone();
    b[0x74..0x78].copy_from_slice(&0x10000u32.to_le_bytes());
    assert!(matches!(Npdm::try_from_bytes(&b), Err(NpdmFromBytesError::BufferTooSmall { .. })));

    let mut b = good.clone();
    b[aci_off + 0x34..aci_off + 0x38].copy_from_slice(&0x1000u32.to_le_bytes());
    let n = Npdm::try_from_bytes(&b).expect("the headers still check out");
    match n.aci0_kc_data() {
        Err(NpdmFromBytesError::Aci0InnerSectionOutOfBounds { section, size, .. }) => {
            assert_eq!(section, "KC");
            assert_eq!(size, 0x1000);
        }
        _ => panic!("a KC section past the end must be refused"),
    }
}
