use nx_object::read::romfs::{FromBytesError, OpenError, RomFs, RomFsEntry};
use nx_object::write::romfs::BuildError;
use nx_object::write::RomFsBuilder;

fn u64_at(b: &[u8], at: usize) -> u64 {
    u64::from_le_bytes(b[at..at + 8].try_into().unwrap())
}

fn sample() -> Vec<u8> {
    RomFsBuilder::new()
        .add_file("/dir/b.bin".to_string(), vec![4u8; 20])
        .unwrap()
        .add_file("/a.txt".to_string(), vec![1, 2, 3])
        .unwrap()
        .add_file("/dir/sub/c".to_string(), Vec::new())
        .unwrap()
        .build()
        .expect("a builder with files builds")
}

#[test]
fn romfs_build_of_an_empty_builder_fails() {
    assert!(matches!(RomFsBuilder::new().build(), Err(BuildError::Empty)));
}

#[test]
fn romfs_add_file_rejects_a_relative_path() {
    match RomFsBuilder::new().add_file("a.txt".to_string(), vec![1]) {
        Err(BuildError::InvalidPath { path }) => assert_eq!(path, "a.txt"),
        _ => panic!("a relative path must be refused"),
    }
    assert!(matches!(
        RomFsBuilder::new().add_file("/".to_string(), vec![1]),
        Err(BuildError::InvalidPath { .. })
    ));
}

#[test]
fn romfs_add_file_rejects_a_duplicate_path() {
    let b = RomFsBuilder::new().add_file("/x/y".to_string(), vec![1]).unwrap();
    match b.add_file("/x/y".to_string(), vec![2]) {
        Err(BuildError::DuplicateEntry { path }) => assert_eq!(path, "/x/y"),
        _ => panic!("a second file at one path must be refused"),
    }
}

#[test]
fn romfs_add_file_rejects_empty_components() {
    for p in ["/a//b", "/a/", "//a", "/"] {
        match RomFsBuilder::new().add_file(p.to_string(), vec![1]) {
            Err(BuildError::InvalidPath { path }) => assert_eq!(path, p),
            _ => panic!("{} has an empty component", p),
        }
    }
}

#[test]
fn romfs_add_file_rejects_a_file_and_a_directory_at_one_path() {
    let b = RomFsBuilder::new().add_file("/x/y".to_string(), vec![1]).unwrap();
    // A directory already stands at /x.
    assert!(matches!(b.add_file("/x".to_string(), vec![2]), Err(BuildError::DuplicateEntry { .. })));
    let b = RomFsBuilder::new().add_file("/x/y".to_string(), vec![1]).unwrap();
    // A file already stands at /x/y, a parent path of /x/y/z.
    assert!(matches!(b.add_file("/x/y/z".to_string(), vec![2]), Err(BuildError::DuplicateEntry { .. })));
}

#[test]
fn romfs_header_and_layout() {
    let image = sample();
    assert_eq!(u64_at(&image, 0), 0x50);
    assert_eq!(u64_at(&image, 0x48), 0x200, "file data starts at 0x200");
    assert!(image[0x50..0x200].iter().all(|&b| b == 0));
    let dir_hash_off = u64_at(&image, 0x08);
    assert_eq!(dir_hash_off % 4, 0);
    // dir hash, dir meta, file hash, file meta follow one another
    assert_eq!(u64_at(&image, 0x18), dir_hash_off + u64_at(&image, 0x10));
    assert_eq!(u64_at(&image, 0x28), u64_at(&image, 0x18) + u64_at(&image, 0x20));
    assert_eq!(u64_at(&image, 0x38), u64_at(&image, 0x28) + u64_at(&image, 0x30));
    assert_eq!(image.len() as u64, u64_at(&image, 0x38) + u64_at(&image, 0x40));
    // three directories (root, dir, sub) and three files, each name
    // padded to 4 bytes
    assert_eq!(u64_at(&image, 0x20), 3 * 0x18 + 4 + 4);
    assert_eq!(u64_at(&image, 0x40), 3 * 0x20 + 8 + 8 + 4);
}

#[test]
fn romfs_built_image_opens_every_file() {
    let image = sample();
    let romfs = RomFs::try_from_bytes(&image).expect("the built image parses");
    let a = romfs.open("/a.txt").expect("a.txt is there");
    assert_eq!(a.name(), "a.txt");
    assert_eq!(a.size(), 3);
    assert_eq!(a.data().unwrap(), &[1, 2, 3]);
    let b = romfs.open("/dir/b.bin").expect("dir/b.bin is there");
    assert_eq!(b.data().unwrap(), &[4u8; 20][..]);
    let c = romfs.open("dir/sub/c").expect("a leading slash is optional");
    assert_eq!(c.size(), 0);
    assert!(matches!(romfs.open("/nope"), Err(OpenError::FileNotFound)));
    assert!(matches!(romfs.open("/nodir/x"), Err(OpenError::DirNotFound)));
    assert!(matches!(romfs.open("/"), Err(OpenError::PathNotFound)));
}

#[test]
fn romfs_root_lists_directories_then_files() {
    let image = sample();
    let romfs = RomFs::try_from_bytes(&image).unwrap();
    let root = romfs.root_dir().expect("the root entry fits");
    assert_eq!(root.name(), "");
    let mut it = root.entries();
    let mut names = Vec::new();
    while let Some(e) = it.next() {
        match e {
            RomFsEntry::File(f) => names.push(format!("f:{}", f.name())),
            RomFsEntry::Dir(d) => names.push(format!("d:{}", d.name())),
        }
    }
    assert_eq!(names, vec!["d:dir".to_string(), "f:a.txt".to_string()]);
}

#[test]
fn romfs_file_data_starts_on_a_16_byte_boundary() {
    let image = sample();
    // The data region follows the order the files were added in.
    assert_eq!(&image[0x200..0x200 + 20], &[4u8; 20][..]);
    assert_eq!(&image[0x200 + 32..0x200 + 35], &[1, 2, 3]);
}

#[test]
fn romfs_reader_rejects_bad_headers() {
    assert!(matches!(
        RomFs::try_from_bytes(&[0u8; 0x10]),
        Err(FromBytesError::BufferTooSmall { required: 0x50, available: 0x10 })
    ));
    let zero = vec![0u8; 0x50];
    assert!(matches!(
        RomFs::try_from_bytes(&zero),
        Err(FromBytesError::InvalidHeaderSize { found: 0 })
    ));
}

#[test]
fn romfs_try_build_agrees_with_build() {
    let b = || RomFsBuilder::new().add_file("/dir/x".to_string(), vec![7u8; 5]).unwrap();
    assert!(b().layout_fits());
    assert_eq!(b().try_build().unwrap().unwrap(), b().build().unwrap());
    assert!(matches!(RomFsBuilder::new().try_build(), Some(Err(BuildError::Empty))));
}
