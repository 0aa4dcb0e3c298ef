use nx_object::blz::compress;
use nx_object::write::kip::BuildError;
use nx_object::write::Kip1Builder;

fn u32_at(b: &[u8], at: usize) -> u32 {
    u32::from_le_bytes(b[at..at + 4].try_into().unwrap())
}

fn complete() -> Kip1Builder {
    Kip1Builder::new()
        .name("abcdefghijklmno".to_string())
        .title_id(0x0100_0000_0000_1234)
        .process_category(1)
        .main_thread_priority(44)
        .default_cpu_id(3)
        .text(vec![1, 2, 3])
        .text_vaddr(0x10)
        .rodata(Vec::new())
        .rodata_vaddr(0x1000)
        .rodata_attributes(7)
        .data(vec![9])
        .data_vaddr(0x2000)
        .kernel_capabilities(vec![0x1234])
}

#[test]
fn kip_build_lays_out_header_and_segments() {
    let image = complete().build().expect("complete builder");
    assert_eq!(image.len(), 0x100 + 8 + 4 + 8);
    assert_eq!(&image[0..4], b"KIP1");
    assert_eq!(&image[4..16], b"abcdefghijk\0");
    assert_eq!(u64::from_le_bytes(image[0x10..0x18].try_into().unwrap()), 0x0100_0000_0000_1234);
    assert_eq!(u32_at(&image, 0x18), 1);
    assert_eq!(image[0x1C], 44);
    assert_eq!(image[0x1D], 3);
    assert_eq!(image[0x1F], 0x3F, "default flags");
    // text segment
    assert_eq!(u32_at(&image, 0x20), 0x10);
    assert_eq!(u32_at(&image, 0x24), 3);
    assert_eq!(u32_at(&image, 0x28), 8);
    assert_eq!(u32_at(&image, 0x2C), 0);
    // rodata segment
    assert_eq!(u32_at(&image, 0x30), 0x1000);
    assert_eq!(u32_at(&image, 0x34), 0);
    assert_eq!(u32_at(&image, 0x38), 4);
    assert_eq!(u32_at(&image, 0x3C), 7);
    // no bss segment
    assert_eq!(&image[0x50..0x60], &[0u8; 16]);
    // capabilities: the one given, then 0xFF padding
    assert_eq!(u32_at(&image, 0x80), 0x1234);
    assert!(image[0x84..0x100].iter().all(|&b| b == 0xFF));
    // compressed segments follow the header
    assert_eq!(&image[0x100..0x108], &compress(&[1, 2, 3])[..]);
    assert_eq!(&image[0x108..0x10C], &[0u8, 0, 0, 0]);
    assert_eq!(&image[0x10C..0x114], &[9u8, 0, 0, 0, 0, 0, 0, 0]);
}

#[test]
fn kip_build_with_bss_and_explicit_flags() {
    let image = complete().bss_vaddr(0x3000).bss_size(0x500).flags(0x7F).build().unwrap();
    assert_eq!(image[0x1F], 0x7F);
    assert_eq!(u32_at(&image, 0x50), 0x3000);
    assert_eq!(u32_at(&image, 0x54), 0x500);
    assert_eq!(u32_at(&image, 0x58), 0);
}

#[test]
fn kip_build_missing_fields_fail_in_order() {
    assert!(matches!(Kip1Builder::new().build(), Err(BuildError::MissingName)));
    assert!(matches!(
        Kip1Builder::new().name("a".to_string()).build(),
        Err(BuildError::MissingText)
    ));
    assert!(matches!(
        Kip1Builder::new().name("a".to_string()).text(vec![1]).build(),
        Err(BuildError::MissingRodata)
    ));
    assert!(matches!(
        Kip1Builder::new().name("a".to_string()).text(vec![1]).rodata(vec![1]).build(),
        Err(BuildError::MissingData)
    ));
}

#[test]
fn kip_build_rejects_half_a_bss_configuration() {
    assert!(matches!(
        complete().bss_vaddr(0x3000).build(),
        Err(BuildError::IncompleteBssConfiguration { has_vaddr: true, has_size: false })
    ));
    assert!(matches!(
        complete().bss_size(0x10).build(),
        Err(BuildError::IncompleteBssConfiguration { has_vaddr: false, has_size: true })
    ));
}

#[test]
fn kip_build_rejects_too_many_capabilities() {
    // The builder already holds one capability; these add to it.
    let r = complete().kernel_capabilities(vec![0; 32]).build();
    assert!(matches!(r, Err(BuildError::TooManyKernelCapabilities { count: 33 })));
    assert!(complete().kernel_capabilities(vec![0; 31]).build().is_ok());
}

#[test]
fn kip_header_decodes_from_a_build() {
    let image = complete().build().expect("complete builder");
    let h = nx_object::raw::kip::read_kip1_header(&image);
    assert_eq!(h.magic, 0x3150494b);
    assert_eq!(&h.name, b"abcdefghijk\0");
    assert_eq!(h.title_id, 0x0100_0000_0000_1234);
    assert_eq!(h.main_thread_priority, 44);
    assert_eq!(h.default_cpu_id, 3);
    assert_eq!(h.segments[0].dst_addr, 0x10);
    assert_eq!(h.segments[0].decomp_size, 3);
    assert_eq!(h.segments[1].attributes, 7);
    assert_eq!(u32::from_le_bytes(h.capabilities[0..4].try_into().unwrap()), 0x1234);
}

#[test]
fn kip_try_build_checks_the_segments() {
    assert!(complete().segments_fit());
    assert!(matches!(complete().try_build(), Some(Ok(_))));
}
