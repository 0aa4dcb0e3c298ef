use nx_object::read::nacp::{cstr_to_str, FromBytesError, NACP_LEN};
use nx_object::read::{Nacp, SetLanguage};
use nx_object::write::nacp::{language_to_index, BuildError};
use nx_object::write::NacpBuilder;

fn u64_at(b: &[u8], at: usize) -> u64 {
    u64::from_le_bytes(b[at..at + 8].try_into().unwrap())
}

#[test]
fn nacp_default_image_has_the_fixed_fields() {
    let image = NacpBuilder::new().build().expect("an empty builder builds");
    assert_eq!(image.len(), 0x4000);
    assert!(image[..0x3000].iter().all(|&b| b == 0));
    assert_eq!(image[0x3025], 1, "startup user account");
    assert_eq!(u32::from_le_bytes(image[0x302C..0x3030].try_into().unwrap()), 0xFFFF);
    assert_eq!(image[0x3036], 1, "data loss confirmation");
    assert!(image[0x3040..0x3060].iter().all(|&b| b == 0xFF), "unrated everywhere");
    assert_eq!(u64_at(&image, 0x3080), 0x3e0_0000);
    assert_eq!(u64_at(&image, 0x3088), 0x18_0000);
    assert_eq!(image[0x30F0], 2);
    assert_eq!(image[0x30F1], 1);
    assert_eq!(u64_at(&image, 0x3070), 0);
}

#[test]
fn nacp_round_trips_names_authors_and_version() {
    let image = NacpBuilder::new()
        .name("App".to_string())
        .author("Me".to_string())
        .version("1.0.0".to_string())
        .name_for_language(SetLanguage::FR, "Appli".to_string())
        .build()
        .unwrap();
    let nacp = Nacp::try_from_bytes(&image).expect("0x4000 bytes parse");
    assert_eq!(nacp.display_version(), "1.0.0");
    let en = nacp.language_entry_for(SetLanguage::ENUS).unwrap();
    assert_eq!(cstr_to_str(en.name), "App");
    assert_eq!(cstr_to_str(en.author), "Me");
    assert_eq!(en.name.len(), 0x200);
    assert_eq!(en.author.len(), 0x100);
    let fr = nacp.language_entry_for(SetLanguage::FR).unwrap();
    assert_eq!(cstr_to_str(fr.name), "Appli");
    assert_eq!(cstr_to_str(fr.author), "Me");
    let last = nacp.language_entry(15).unwrap();
    assert_eq!(cstr_to_str(last.name), "App");
    assert!(nacp.language_entry(16).is_none());
    assert_eq!(nacp.bytes().len(), NACP_LEN);
}

#[test]
fn nacp_application_id_fills_the_title_fields() {
    let id = 0x0100_0000_0001_0000u64;
    let image = NacpBuilder::new().application_id(id).build().unwrap();
    assert_eq!(u64_at(&image, 0x3038), id, "presence group");
    assert_eq!(u64_at(&image, 0x3070), id + 0x1000, "add-on content base");
    assert_eq!(u64_at(&image, 0x3078), id, "save data owner");
    assert_eq!(u64_at(&image, 0x30B0), id);
    assert_eq!(u64_at(&image, 0x30B8), id);
    assert_eq!(u64_at(&image, 0x30F8), id, "pseudo device id seed");
}

#[test]
fn nacp_explicit_fields_override_the_defaults() {
    let image = NacpBuilder::new()
        .application_id(0x10)
        .save_data_owner_id(0x20)
        .user_account_save_data_size(0x30)
        .user_account_save_data_journal_size(0x40)
        .build()
        .unwrap();
    assert_eq!(u64_at(&image, 0x3078), 0x20);
    assert_eq!(u64_at(&image, 0x3080), 0x30);
    assert_eq!(u64_at(&image, 0x3088), 0x40);
}

#[test]
fn nacp_too_long_fields_fail() {
    let r = NacpBuilder::new().name("x".repeat(0x200)).build();
    assert!(matches!(r, Err(BuildError::NameTooLong { language_index: 0, len: 0x200 })));
    let r = NacpBuilder::new()
        .author_for_language(SetLanguage::JA, "y".repeat(0x100))
        .build();
    assert!(matches!(r, Err(BuildError::AuthorTooLong { language_index: 2, len: 0x100 })));
    let r = NacpBuilder::new().version("z".repeat(0x10)).build();
    assert!(matches!(r, Err(BuildError::VersionTooLong { len: 0x10 })));
    assert!(NacpBuilder::new().name("x".repeat(0x1FF)).build().is_ok());
}

#[test]
fn nacp_language_slots() {
    assert_eq!(language_to_index(SetLanguage::ENUS), Some(0));
    assert_eq!(language_to_index(SetLanguage::JA), Some(2));
    assert_eq!(language_to_index(SetLanguage::ZHHANS), Some(14));
    assert_eq!(language_to_index(SetLanguage::PTBR), Some(15));
}

#[test]
fn nacp_reader_rejects_a_short_buffer() {
    let short = vec![0u8; 0x3FFF];
    match Nacp::try_from_bytes(&short) {
        Err(FromBytesError { required, available }) => {
            assert_eq!(required, 0x4000);
            assert_eq!(available, 0x3FFF);
        }
        Ok(_) => panic!("a short buffer must be refused"),
    }
}

#[test]
fn cstr_to_str_stops_at_the_first_zero() {
    assert_eq!(cstr_to_str(b"abc\0def"), "abc");
    assert_eq!(cstr_to_str(b"abc"), "abc");
    assert_eq!(cstr_to_str(b"\0"), "");
}

#[test]
fn nacp_raw_structure_decodes_each_field() {
    let id = 0x0100_0000_0002_0000u64;
    let image = NacpBuilder::new()
        .name("App".to_string())
        .author("Me".to_string())
        .version("2.1".to_string())
        .application_id(id)
        .build()
        .unwrap();
    let raw = Nacp::try_from_bytes(&image).unwrap().raw();
    assert_eq!(&raw.lang[0].name[..3], b"App");
    assert_eq!(raw.lang[0].name[3], 0);
    assert_eq!(&raw.lang[15].author[..2], b"Me");
    assert_eq!(&raw.display_version[..3], b"2.1");
    assert_eq!(raw.presence_group_id, id);
    assert_eq!(raw.add_on_content_base_id, id + 0x1000);
    assert_eq!(raw.save_data_owner_id, id);
    assert_eq!(raw.local_communication_id[0], id);
    assert_eq!(raw.local_communication_id[1], id);
    assert_eq!(raw.local_communication_id[7], u64_at(&image, 0x30E8));
    assert_eq!(raw.pseudo_device_id_seed, id);
    assert_eq!(raw.attribute_flag, u32::from_le_bytes(image[0x3028..0x302C].try_into().unwrap()));
    assert_eq!(raw.supported_language_flag, u32::from_le_bytes(image[0x302C..0x3030].try_into().unwrap()));
    assert_eq!(raw.user_account_save_data_size, u64_at(&image, 0x3080));
    assert_eq!(raw.cache_storage_index_max, u16::from_le_bytes([image[0x3188], image[0x3189]]));
    assert_eq!(raw.rating_age[0], image[0x3040] as i8);
    assert_eq!(raw.jit_configuration.memory_size, u64_at(&image, 0x33B8));
    assert_eq!(
        raw.neighbor_detection_client_config.receivable_group_configs[15].group_id,
        u64_at(&image, 0x3218 + 0x18 + 0x18 * 15)
    );
}
