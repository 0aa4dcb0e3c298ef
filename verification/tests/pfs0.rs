use nx_object::write::pfs0::AddFileError;
use nx_object::write::Pfs0Builder;

fn read_u32(image: &[u8], offset: usize) -> u32 {
    u32::from_le_bytes(image[offset..offset + 4].try_into().expect("a 4-byte slice"))
}

fn read_u64(image: &[u8], offset: usize) -> u64 {
    u64::from_le_bytes(image[offset..offset + 8].try_into().expect("an 8-byte slice"))
}

#[test]
fn build_with_no_files_produces_a_header_only_archive() {
    let builder = Pfs0Builder::new();
    let image = builder.build();
    assert_eq!(image.len(), 0x10, "an empty archive is the header alone");
    assert_eq!(read_u32(&image, 4), 0, "file count should be zero");
}

#[test]
fn build_sorts_entries_by_name_regardless_of_insertion_order() {
    let builder = Pfs0Builder::new()
        .add_file("main.npdm".to_string(), b"npdm".to_vec())
        .expect("adding main.npdm should succeed")
        .add_file("main".to_string(), b"nso".to_vec())
        .expect("adding main should succeed");
    let image = builder.build();
    let string_table = 0x10 + 2 * 0x18;
    assert_eq!(
        &image[string_table..string_table + 5],
        b"main\0",
        "the alphabetically first name should head the string table"
    );
    assert_eq!(
        read_u64(&image, 0x10 + 8),
        3,
        "the first entry should be `main`, whose data is 3 bytes"
    );
}

#[test]
fn build_pads_the_string_table_to_its_alignment() {
    let builder = Pfs0Builder::new()
        .add_file("a".to_string(), b"x".to_vec())
        .expect("adding a should succeed");
    let image = builder.build();
    assert_eq!(
        read_u32(&image, 8),
        0x20,
        "the recorded string table size should be the padded one"
    );
    assert_eq!(
        image.len(),
        0x10 + 0x18 + 0x20 + 1,
        "header, one entry, padded string table, then the file data"
    );
}

#[test]
fn add_file_with_an_empty_name_fails() {
    let builder = Pfs0Builder::new();
    let result = builder.add_file("".to_string(), b"data".to_vec());
    assert!(
        matches!(result, Err(AddFileError::EmptyFileName)),
        "an unnamed entry could not be addressed once written"
    );
}

#[test]
fn add_file_with_a_path_separator_fails() {
    let builder = Pfs0Builder::new();
    let result = builder.add_file("dir/file".to_string(), b"data".to_vec());
    assert!(
        matches!(result, Err(AddFileError::InvalidFileName { .. })),
        "PFS0 names carry no path structure, so a separator must be refused"
    );
}

#[test]
fn add_file_with_a_duplicate_name_fails() {
    let builder = Pfs0Builder::new()
        .add_file("main".to_string(), b"first".to_vec())
        .expect("adding main should succeed");
    let result = builder.add_file("main".to_string(), b"second".to_vec());
    assert!(
        matches!(result, Err(AddFileError::DuplicateFile { .. })),
        "two entries with one name cannot both be addressed"
    );
}

#[test]
fn add_file_with_a_null_byte_fails() {
    let result = Pfs0Builder::new().add_file("a\0b".to_string(), vec![1]);
    match result {
        Err(AddFileError::InvalidFileName { name, reason }) => {
            assert_eq!(name, "a\0b");
            assert_eq!(reason, "filename contains null byte");
        }
        _ => panic!("a null byte must be refused"),
    }
}

#[test]
fn add_file_with_a_backslash_fails() {
    let result = Pfs0Builder::new().add_file("a\\b".to_string(), vec![1]);
    match result {
        Err(AddFileError::InvalidFileName { reason, .. }) => {
            assert_eq!(reason, "filename contains path separator");
        }
        _ => panic!("a backslash must be refused"),
    }
}

#[test]
fn build_lays_out_two_files_exactly() {
    let image = Pfs0Builder::new()
        .add_file("b".to_string(), vec![0xBB, 0xBB])
        .unwrap()
        .add_file("a".to_string(), vec![0xAA])
        .unwrap()
        .build();
    assert_eq!(&image[0..4], b"PFS0");
    assert_eq!(read_u32(&image, 4), 2);
    assert_eq!(read_u32(&image, 8), 0x20);
    assert_eq!(read_u32(&image, 12), 0);
    // Entry for "a": data offset 0, size 1, name offset 0.
    assert_eq!(read_u64(&image, 0x10), 0);
    assert_eq!(read_u64(&image, 0x18), 1);
    assert_eq!(read_u32(&image, 0x20), 0);
    // Entry for "b": data offset 1, size 2, name offset 2.
    assert_eq!(read_u64(&image, 0x28), 1);
    assert_eq!(read_u64(&image, 0x30), 2);
    assert_eq!(read_u32(&image, 0x38), 2);
    let strings = 0x10 + 2 * 0x18;
    assert_eq!(&image[strings..strings + 4], b"a\0b\0");
    let data = strings + 0x20;
    assert_eq!(&image[data..], &[0xAA, 0xBB, 0xBB]);
}

#[test]
fn from_scanned_files_adds_in_name_order() {
    let files = vec![("b".to_string(), vec![2u8]), ("a".to_string(), vec![1u8])];
    let image = Pfs0Builder::from_scanned_files(files).expect("distinct valid names").build();
    assert_eq!(read_u32(&image, 4), 2);
    let strings = 0x10 + 2 * 0x18;
    assert_eq!(&image[strings..strings + 4], b"a\0b\0");
    assert_eq!(&image[strings + 0x20..], &[1, 2]);
}

#[test]
fn from_scanned_files_reports_the_first_refusal_in_name_order() {
    let files = vec![
        ("z/z".to_string(), vec![]),
        ("m".to_string(), vec![1]),
        ("m".to_string(), vec![2]),
    ];
    match Pfs0Builder::from_scanned_files(files) {
        Err(AddFileError::DuplicateFile { name }) => assert_eq!(name, "m"),
        _ => panic!("the duplicate sorts before the bad name"),
    }
}

#[test]
fn pfs0_header_and_entries_decode_from_a_build() {
    let image = Pfs0Builder::new()
        .add_file("b".to_string(), vec![1, 2, 3])
        .unwrap()
        .add_file("a".to_string(), vec![4])
        .unwrap()
        .build();
    let h = nx_object::raw::pfs0::read_pfs0_header(&image);
    assert_eq!(h.magic, 0x30534650);
    assert_eq!(h.file_count, 2);
    assert_eq!(h.string_table_size, 0x20);
    let e0 = nx_object::raw::pfs0::read_pfs0_file_entry(&image, 0x10);
    let e1 = nx_object::raw::pfs0::read_pfs0_file_entry(&image, 0x28);
    assert_eq!((e0.offset, e0.size, e0.string_table_offset), (0, 1, 0));
    assert_eq!((e1.offset, e1.size, e1.string_table_offset), (1, 3, 2));
    let data_at = 0x10 + 0x18 * 2 + 0x20;
    assert_eq!(&image[data_at..], &[4, 1, 2, 3]);
}

#[test]
fn build_writes_the_same_bytes_for_any_insertion_order() {
    let a = Pfs0Builder::new()
        .add_file("b.bin".to_string(), vec![2, 2])
        .unwrap()
        .add_file("a.bin".to_string(), vec![1])
        .unwrap()
        .add_file("c.bin".to_string(), vec![3, 3, 3])
        .unwrap()
        .build();
    let b = Pfs0Builder::new()
        .add_file("c.bin".to_string(), vec![3, 3, 3])
        .unwrap()
        .add_file("a.bin".to_string(), vec![1])
        .unwrap()
        .add_file("b.bin".to_string(), vec![2, 2])
        .unwrap()
        .build();
    assert_eq!(a, b);
    assert_eq!(read_u32(&a, 4), 3);
}
