use nx_object::write::nro::{pad_to_alignment, BuildError};
use nx_object::write::NroBuilder;

fn u32_at(b: &[u8], at: usize) -> u32 {
    u32::from_le_bytes(b[at..at + 4].try_into().unwrap())
}

fn u64_at(b: &[u8], at: usize) -> u64 {
    u64::from_le_bytes(b[at..at + 8].try_into().unwrap())
}

fn complete() -> NroBuilder {
    NroBuilder::new()
        .text(vec![1u8; 0x10])
        .text_vaddr(0)
        .rodata(vec![2u8; 4])
        .rodata_vaddr(0x1000)
        .data(vec![3u8; 4])
        .data_vaddr(0x2000)
        .bss_size(0x800)
}

#[test]
fn pad_to_alignment_pads_with_zeros() {
    assert_eq!(pad_to_alignment(&[1, 2, 3], 4), vec![1, 2, 3, 0]);
    assert_eq!(pad_to_alignment(&[1, 2, 3, 4], 4), vec![1, 2, 3, 4]);
    assert_eq!(pad_to_alignment(&[], 4), Vec::<u8>::new());
}

#[test]
fn nro_build_missing_segments_fail() {
    assert!(matches!(NroBuilder::new().build(), Err(BuildError::MissingText)));
    assert!(matches!(NroBuilder::new().text(vec![1]).build(), Err(BuildError::MissingRodata)));
    assert!(matches!(
        NroBuilder::new().text(vec![1]).rodata(vec![1]).build(),
        Err(BuildError::MissingData)
    ));
}

#[test]
fn nro_build_places_segments_at_their_vaddrs() {
    let image = complete().build_id([0xAB; 32]).flags(5).build().expect("complete builder");
    assert_eq!(image.len(), 0x3000);
    assert_eq!(&image[0..0x10], &[1u8; 0x10], "the text's first bytes stay");
    assert_eq!(&image[0x10..0x14], b"NRO0");
    assert_eq!(u32_at(&image, 0x18), 0x3000, "size ends with the data segment");
    assert_eq!(u32_at(&image, 0x1C), 5);
    assert_eq!((u32_at(&image, 0x20), u32_at(&image, 0x24)), (0, 0x1000));
    assert_eq!((u32_at(&image, 0x28), u32_at(&image, 0x2C)), (0x1000, 0x1000));
    assert_eq!((u32_at(&image, 0x30), u32_at(&image, 0x34)), (0x2000, 0x1000));
    assert_eq!(u32_at(&image, 0x38), 0x800);
    assert_eq!(&image[0x40..0x60], &[0xABu8; 32]);
    assert_eq!(&image[0x1000..0x1004], &[2u8; 4]);
    assert_eq!(&image[0x2000..0x2004], &[3u8; 4]);
    assert!(image[0x2004..].iter().all(|&b| b == 0));
}

#[test]
fn nro_build_appends_the_asset_section() {
    let image = complete()
        .asset_icon(vec![9, 9])
        .asset_nacp(vec![8; 3])
        .asset_romfs(vec![7])
        .build()
        .unwrap();
    assert_eq!(image.len(), 0x3000 + 0x38 + 2 + 3 + 1);
    assert_eq!(&image[0x3000..0x3004], b"ASET");
    assert_eq!((u64_at(&image, 0x3008), u64_at(&image, 0x3010)), (0x38, 2));
    assert_eq!((u64_at(&image, 0x3018), u64_at(&image, 0x3020)), (0x3A, 3));
    assert_eq!((u64_at(&image, 0x3028), u64_at(&image, 0x3030)), (0x3D, 1));
    assert_eq!(&image[0x3038..], &[9, 9, 8, 8, 8, 7]);
}

#[test]
fn nro_build_without_some_assets_records_zero_sections() {
    let image = complete().asset_nacp(vec![8; 3]).build().unwrap();
    assert_eq!(image.len(), 0x3000 + 0x38 + 3);
    assert_eq!((u64_at(&image, 0x3008), u64_at(&image, 0x3010)), (0, 0));
    assert_eq!((u64_at(&image, 0x3018), u64_at(&image, 0x3020)), (0x38, 3));
    assert_eq!((u64_at(&image, 0x3028), u64_at(&image, 0x3030)), (0, 0));
}

#[test]
fn nro_header_decodes_from_a_build() {
    let image = complete().build().expect("complete builder");
    let h = nx_object::raw::nro::read_nro_header(&image);
    assert_eq!(h.magic, 0x304f524e);
    assert_eq!(h.size, 0x3000);
    assert_eq!(h.segments[1].file_off, 0x1000);
    assert_eq!(h.segments[1].size, 0x1000);
    assert_eq!(h.bss_size, 0x800);
    let start = nx_object::raw::nro::read_nro_start(&image);
    assert_eq!(start.unused, 0x0101_0101);
}

#[test]
fn nro_try_build_checks_the_layout() {
    assert!(complete().layout_fits());
    assert!(matches!(complete().try_build(), Some(Ok(_))));
    // A segment placed beyond the 32-bit size field is refused.
    assert!(complete().data_vaddr(0xFFFF_F000).try_build().is_none());
}
