use nx_object::read::{Npdm, NpdmFromBytesError};
use nx_object::write::npdm::{
    AciData, AcidData, FilesystemAccess, KernelCapability, MapRegionDescriptor, NpdmMetadata,
    ServiceAccess,
};
use nx_object::write::NpdmBuilder;

fn metadata() -> NpdmMetadata {
    NpdmMetadata {
        name: "MyApp".to_string(),
        title_id: 0x0100_0000_0001_0000,
        version: 0,
        main_thread_priority: 44,
        default_cpu_id: 0,
        main_thread_stack_size: 0x10_0000,
        flags: 0,
    }
}

fn words(b: &[u8]) -> Vec<u32> {
    b.chunks(4).map(|c| u32::from_le_bytes(c.try_into().unwrap())).collect()
}

#[test]
fn encode_kernel_flags() {
    let c = KernelCapability::KernelFlags {
        highest_thread_priority: 59,
        lowest_thread_priority: 28,
        highest_cpu_id: 3,
        lowest_cpu_id: 0,
    };
    assert_eq!(c.encode(), vec![0x0300_EDC7]);
}

#[test]
fn encode_syscalls_keeps_only_the_used_groups() {
    let c = KernelCapability::Syscalls(vec![("svcA".to_string(), 1), ("svcB".to_string(), 0x1F)]);
    assert_eq!(c.encode(), vec![0x4F, 0x2000_100F]);
    assert_eq!(KernelCapability::Syscalls(Vec::new()).encode(), Vec::<u32>::new());
}

#[test]
fn encode_syscalls_counts_a_name_once_with_its_last_number() {
    let c = KernelCapability::Syscalls(vec![("svcA".to_string(), 1), ("svcA".to_string(), 30)]);
    assert_eq!(c.encode(), vec![0x0F | (1 << 29) | (1 << 11)]);
}

#[test]
fn encode_syscalls_orders_groups_and_drops_numbers_from_192() {
    let c = KernelCapability::Syscalls(vec![
        ("svcHigh".to_string(), 191),
        ("svcOut".to_string(), 192),
        ("svcLow".to_string(), 0),
        ("svcMid".to_string(), 50),
    ]);
    let w = c.encode();
    assert_eq!(w, vec![0x0000_002F, 0x4000_008F, 0xE000_000F | (1 << 28)]);
    for x in &w {
        assert_eq!(x & 0x1F, 0x0F);
    }
}

#[test]
fn encode_single_descriptor_kinds() {
    assert_eq!(KernelCapability::MapPage(0x12345).encode(), vec![0x0123_457F]);
    assert_eq!(KernelCapability::IrqPair([1, 2]).encode(), vec![0x0080_17FF]);
    assert_eq!(KernelCapability::ApplicationType(1).encode(), vec![0x5FFF]);
    assert_eq!(KernelCapability::MinKernelVersion(0x30).encode(), vec![0x0018_3FFF]);
    assert_eq!(KernelCapability::HandleTableSize(0x200).encode(), vec![0x0200_7FFF]);
    assert_eq!(
        KernelCapability::DebugFlags { allow_debug: true, force_debug_prod: false, force_debug: false }
            .encode(),
        vec![0x0002_FFFF]
    );
    assert_eq!(
        KernelCapability::MapRegion(vec![MapRegionDescriptor { region_type: 1, is_ro: true }]).encode(),
        vec![0x3FF | (0x41 << 11)]
    );
}

#[test]
fn encode_memory_map_gives_two_descriptors() {
    let c = KernelCapability::MemoryMap { address: 0x1000, size: 0x10, is_ro: false, is_io: true };
    assert_eq!(c.encode(), vec![0x8003F, 0x83F]);
    let c = KernelCapability::MemoryMap { address: 0x1000, size: 0x10, is_ro: true, is_io: false };
    assert_eq!(c.encode(), vec![0x8003F | (1 << 31), 0x83F | (1 << 31)]);
}

#[test]
fn npdm_build_reads_back() {
    let aci = AciData {
        program_id: 0x0100_0000_0001_0000,
        kernel_capabilities: vec![
            KernelCapability::MapPage(0x12345),
            KernelCapability::HandleTableSize(0x200),
        ],
        ..Default::default()
    };
    let acid = AcidData { program_id_min: 0x10, program_id_max: 0x20, ..Default::default() };
    let image = NpdmBuilder::new(metadata()).with_aci(aci).with_acid(acid).build();
    assert_eq!(&image[0..4], b"META");
    let npdm = Npdm::try_from_bytes(&image).expect("the built NPDM parses");
    assert_eq!(npdm.name(), "MyApp");
    assert_eq!(npdm.main_thread_priority(), 44);
    assert_eq!(npdm.main_thread_stack_size(), 0x10_0000);
    assert_eq!(npdm.program_id(), 0x0100_0000_0001_0000);
    assert_eq!(npdm.program_id_range(), (0x10, 0x20));
    let kc = npdm.aci0_kc_data().expect("the KC section lies within the image");
    assert_eq!(words(kc), vec![0x0123_457F, 0x0200_7FFF]);
    assert!(npdm.aci0_fac_data().is_ok());
    assert!(npdm.aci0_sac_data().is_ok());
}

#[test]
fn npdm_build_reads_back_header_fields_and_access_data() {
    let mut m = metadata();
    m.version = 7;
    m.flags = 0x3;
    m.default_cpu_id = 2;
    let aci = AciData {
        program_id: 0x42,
        filesystem_access: FilesystemAccess { permissions: 0x8000_0000_0000_0001, ..Default::default() },
        service_access: ServiceAccess {
            services: vec![("fsp-srv".to_string(), false), ("sm:".to_string(), true)],
        },
        ..Default::default()
    };
    let acid = AcidData { flags: 0x5, ..Default::default() };
    let image = NpdmBuilder::new(m).with_aci(aci).with_acid(acid).build();
    let npdm = Npdm::try_from_bytes(&image).unwrap();
    let h = npdm.header();
    assert_eq!(h.version, 7);
    assert_eq!(h.flags, 0x3);
    assert_eq!(h.main_thread_core_number, 2);
    assert_eq!(npdm.acid().flags, 0x5);
    let sac = npdm.aci0_sac_data().unwrap();
    let mut expected = vec![0x06u8];
    expected.extend_from_slice(b"fsp-srv");
    expected.push(0x82);
    expected.extend_from_slice(b"sm:");
    assert_eq!(sac, &expected[..]);
    let fac = npdm.aci0_fac_data().unwrap();
    assert_eq!(&fac[0..4], &1u32.to_le_bytes());
    assert_eq!(&fac[4..12], &0x8000_0000_0000_0001u64.to_le_bytes());
}

#[test]
fn npdm_default_aci_takes_the_title_id() {
    let image = NpdmBuilder::new(metadata()).build();
    let npdm = Npdm::try_from_bytes(&image).unwrap();
    assert_eq!(npdm.program_id(), 0x0100_0000_0001_0000);
    assert_eq!(npdm.aci0_kc_data().unwrap().len(), 0);
}

#[test]
fn npdm_default_acid_is_the_header_alone() {
    let image = NpdmBuilder::new(metadata()).build();
    let acid_size = u32::from_le_bytes([image[0x7C], image[0x7D], image[0x7E], image[0x7F]]);
    assert_eq!(acid_size, 0x240);
    let aci0_offset = u32::from_le_bytes([image[0x70], image[0x71], image[0x72], image[0x73]]);
    assert_eq!(aci0_offset, 0x80 + 0x240);
}

#[test]
fn npdm_reader_rejects_bad_input() {
    assert!(matches!(
        Npdm::try_from_bytes(&[0u8; 8]),
        Err(NpdmFromBytesError::BufferTooSmall { required: 0x80, available: 8 })
    ));
    let zero = vec![0u8; 0x80];
    assert!(matches!(
        Npdm::try_from_bytes(&zero),
        Err(NpdmFromBytesError::InvalidMetaMagic { found: 0 })
    ));
}

#[test]
fn npdm_try_build_agrees_with_build() {
    assert!(NpdmBuilder::new(metadata()).layout_fits());
    assert_eq!(NpdmBuilder::new(metadata()).try_build(), Some(NpdmBuilder::new(metadata()).build()));
}

#[test]
fn encoded_descriptors_carry_their_kind_trailer() {
    let caps = [
        (KernelCapability::KernelFlags { highest_thread_priority: 63, lowest_thread_priority: 63, highest_cpu_id: 3, lowest_cpu_id: 0 }, 3),
        (KernelCapability::Syscalls(vec![("a".to_string(), 0), ("b".to_string(), 100), ("c".to_string(), 191)]), 4),
        (KernelCapability::MemoryMap { address: 0xFFFF_FFFF, size: 0xFFFF_FFFF, is_ro: true, is_io: false }, 6),
        (KernelCapability::MapPage(0xFF_FFFF), 7),
        (KernelCapability::MapRegion(vec![MapRegionDescriptor { region_type: 63, is_ro: true }; 3]), 10),
        (KernelCapability::IrqPair([0x3FF, 0x3FF]), 11),
        (KernelCapability::ApplicationType(7), 13),
        (KernelCapability::MinKernelVersion(0x1_FFFF), 14),
        (KernelCapability::HandleTableSize(0x3FF), 15),
        (KernelCapability::DebugFlags { allow_debug: true, force_debug_prod: true, force_debug: true }, 16),
    ];
    for (cap, ones) in caps {
        let words = cap.encode();
        assert!(!words.is_empty());
        for w in words {
            assert_eq!(w.trailing_ones(), ones, "{:#x}", w);
        }
    }
}
