use nx_object::read::{Nso, NsoFromBytesError};
use nx_object::write::nso::{
    BuildError, NSO_DATA_COMPRESS, NSO_DATA_HASH, NSO_RODATA_COMPRESS, NSO_RODATA_HASH,
    NSO_TEXT_COMPRESS, NSO_TEXT_HASH,
};
use nx_object::write::NsoBuilder;
use sha2::{Digest, Sha256};

fn padded(data: &[u8]) -> Vec<u8> {
    let mut v = data.to_vec();
    let len = (data.len() + 0xFFF) / 0x1000 * 0x1000;
    v.resize(len, 0);
    v
}

fn digest(data: &[u8]) -> [u8; 32] {
    let mut h = Sha256::new();
    h.update(data);
    h.finalize().into()
}

fn builder() -> NsoBuilder {
    NsoBuilder::new()
        .text(vec![1, 2, 3])
        .text_vaddr(0)
        .rodata(vec![4, 5])
        .rodata_vaddr(0x1000)
        .data(vec![6])
        .data_vaddr(0x2000)
        .bss_size(0x40)
        .compressed(false)
}

#[test]
fn nso_build_without_text_fails() {
    let r = NsoBuilder::new().rodata(vec![1]).data(vec![1]).build();
    assert!(matches!(r, Err(BuildError::MissingText)));
}

#[test]
fn nso_build_without_rodata_fails() {
    let r = NsoBuilder::new().text(vec![1]).data(vec![1]).build();
    assert!(matches!(r, Err(BuildError::MissingRodata)));
}

#[test]
fn nso_build_without_data_fails() {
    let r = NsoBuilder::new().text(vec![1]).rodata(vec![1]).build();
    assert!(matches!(r, Err(BuildError::MissingData)));
}

#[test]
fn nso_uncompressed_image_reads_back() {
    let image = builder().module_id([7u8; 32]).build().expect("complete builder");
    assert_eq!(image.len(), 0x100 + 3 * 0x1000);
    assert_eq!(&image[0..4], b"NSO0");
    let nso = Nso::try_from_bytes(&image).expect("the built NSO parses");
    assert_eq!(nso.flags(), NSO_TEXT_HASH | NSO_RODATA_HASH | NSO_DATA_HASH);
    assert_eq!(nso.text_compressed(), &padded(&[1, 2, 3])[..]);
    assert_eq!(nso.rodata_compressed(), &padded(&[4, 5])[..]);
    assert_eq!(nso.data_compressed(), &padded(&[6])[..]);
    assert_eq!(nso.module_id(), &[7u8; 32]);
    let h = nso.header();
    assert_eq!(h.text.file_offset, 0x100);
    assert_eq!(h.rodata.file_offset, 0x1100);
    assert_eq!(h.data.file_offset, 0x2100);
    assert_eq!(h.rodata.memory_offset, 0x1000);
    assert_eq!(h.data.memory_offset, 0x2000);
    assert_eq!(h.text.size, 0x1000);
    assert_eq!(h.bss_size, 0x40);
    assert_eq!(h.module_name_offset, 1);
    assert_eq!(h.module_name_size, 1);
}

#[test]
fn nso_header_holds_the_sha256_of_each_padded_segment() {
    let image = builder().build().unwrap();
    let nso = Nso::try_from_bytes(&image).unwrap();
    let h = nso.header();
    assert_eq!(h.text_hash, digest(&padded(&[1, 2, 3])));
    assert_eq!(h.rodata_hash, digest(&padded(&[4, 5])));
    assert_eq!(h.data_hash, digest(&padded(&[6])));
    assert_ne!(h.text_hash, h.rodata_hash);
}

#[test]
fn nso_compressed_segments_are_lz4_blocks() {
    let image = builder().compressed(true).build().unwrap();
    assert!(image.len() < 0x100 + 3 * 0x1000);
    let nso = Nso::try_from_bytes(&image).unwrap();
    assert_eq!(
        nso.flags(),
        NSO_TEXT_COMPRESS
            | NSO_RODATA_COMPRESS
            | NSO_DATA_COMPRESS
            | NSO_TEXT_HASH
            | NSO_RODATA_HASH
            | NSO_DATA_HASH
    );
    let text = lz4_flex::compress(&padded(&[1, 2, 3]));
    assert_eq!(nso.text_compressed(), &text[..]);
    assert!(text.len() < 0x1000);
    assert_eq!(nso.header().text.size, 0x1000);
    assert_eq!(nso.header().text_file_size as usize, text.len());
    assert_eq!(
        lz4_flex::decompress(nso.rodata_compressed(), 0x1000).unwrap(),
        padded(&[4, 5])
    );
}

#[test]
fn nso_builder_compresses_by_default() {
    let image = NsoBuilder::new().text(vec![1]).rodata(vec![2]).data(vec![3]).build().unwrap();
    let nso = Nso::try_from_bytes(&image).unwrap();
    assert_eq!(nso.flags() & 7, 7);
    assert_eq!(nso.flags(), 0x3F);
    assert_eq!(nso.module_id(), &[0u8; 32]);
    let h = nso.header();
    assert_eq!(h.bss_size, 0);
    assert_eq!(h.text.file_offset, 0x100);
    assert_eq!(h.text.memory_offset, 0);
    assert_eq!(h.text_file_size as usize, lz4_flex::compress(&padded(&[1])).len());
    assert_eq!(h.text_hash, digest(&padded(&[1])));
}

#[test]
fn nso_try_build_succeeds_on_a_small_builder() {
    let r = builder().try_build();
    assert!(matches!(r, Some(Ok(_))));
}

#[test]
fn nso_reader_rejects_short_and_bad_magic() {
    let short = [0u8; 0x10];
    assert!(matches!(
        Nso::try_from_bytes(&short),
        Err(NsoFromBytesError::BufferTooSmall { .. })
    ));
    let zero = vec![0u8; 0x100];
    assert!(matches!(
        Nso::try_from_bytes(&zero),
        Err(NsoFromBytesError::InvalidMagic { found: 0 })
    ));
}

#[test]
fn nso_reader_rejects_a_segment_out_of_bounds() {
    let mut image = builder().build().unwrap();
    image.truncate(0x1800);
    match Nso::try_from_bytes(&image) {
        Err(NsoFromBytesError::SegmentOutOfBounds { segment, offset, size, buffer_len }) => {
            assert_eq!(segment, "rodata");
            assert_eq!(offset, 0x1100);
            assert_eq!(size, 0x1000);
            assert_eq!(buffer_len, 0x1800);
        }
        _ => panic!("a cut rodata segment must be refused"),
    }
}
