use gbam_tools::fields::{Fields, FIELDS_NUM};
use gbam_tools::meta::{append, BlockMeta, Codecs, FileInfo, FileMeta, FILE_INFO_SIZE};

#[test]
fn preamble_has_its_layout() {
    let info = FileInfo::new([1, 0], 0x0102030405060708, 0xa1b2c3d4);
    let bytes = info.to_bytes();
    assert_eq!(bytes.len(), FILE_INFO_SIZE);
    assert_eq!(FILE_INFO_SIZE, 26);
    assert_eq!(
        bytes,
        vec![
            1, 0, 0, 0, // version
            8, 7, 6, 5, 4, 3, 2, 1, // place of the metadata
            0xd4, 0xc3, 0xb2, 0xa1, // checksum
            0, 0, 0, 0, 0, 0, 0, 0, 0, 0,
        ]
    );
}

#[test]
fn preamble_round_trips() {
    for (version, seekpos, crc32) in [
        ([1u16, 0u16], 26u64, 0u32),
        ([0xffff, 0x1234], u64::MAX, u32::MAX),
        ([0, 0], 0, 0x80000000),
        ([2, 7], 1 << 40, 12345),
    ] {
        let info = FileInfo::new(version, seekpos, crc32);
        let back = FileInfo::from_bytes(&info.to_bytes()).unwrap();
        assert_eq!(back.gbam_version, version);
        assert_eq!(back.seekpos, seekpos);
        assert_eq!(back.crc32, crc32);
    }
}

#[test]
fn preamble_needs_all_its_bytes() {
    let bytes = FileInfo::new([1, 0], 26, 7).to_bytes();
    assert!(FileInfo::from_bytes(&bytes[..FILE_INFO_SIZE - 1]).is_none());
    assert!(FileInfo::from_bytes(&[]).is_none());
    let mut longer = bytes.clone();
    longer.extend_from_slice(b"blocks follow");
    let info = FileInfo::from_bytes(&longer).unwrap();
    assert_eq!(info.seekpos, 26);
    assert_eq!(info.crc32, 7);
}

#[test]
fn checksum_is_crc32() {
    let info = FileInfo::new([1, 0], 26, 0xcbf43926);
    assert!(info.matches_meta(b"123456789"));
    let empty = FileInfo::new([1, 0], 26, 0);
    assert!(empty.matches_meta(b""));
    assert!(!empty.matches_meta(b"123456789"));
}

#[test]
fn block_statistics_decode_as_signed_integers() {
    let meta = BlockMeta {
        seekpos: 0,
        numitems: 3,
        max_value: Some(7i32.to_le_bytes().to_vec()),
        min_value: Some((-1i32).to_le_bytes().to_vec()),
    };
    assert_eq!(meta.stats(), Some((-1, 7)));
    let none = BlockMeta::default();
    assert_eq!(none.stats(), None);
    assert_eq!(none.seekpos, 0);
    assert_eq!(none.numitems, 0);
    let short = BlockMeta {
        seekpos: 0,
        numitems: 1,
        max_value: Some(vec![1, 2]),
        min_value: Some(vec![1, 2, 3, 4]),
    };
    assert_eq!(short.stats(), None);
    let half = BlockMeta { seekpos: 0, numitems: 1, max_value: None, min_value: Some(vec![0; 4]) };
    assert_eq!(half.stats(), None);
    let wide = BlockMeta {
        seekpos: 0,
        numitems: 1,
        max_value: Some(vec![0x78, 0x56, 0x34, 0x12, 9]),
        min_value: Some(vec![0, 0, 0, 0x80]),
    };
    assert_eq!(wide.stats(), Some((i32::MIN, 0x12345678)));
}

#[test]
fn new_metadata_is_empty() {
    let refs = vec![("chrA".to_string(), 100), ("chrB".to_string(), 50)];
    let meta = FileMeta::new(Codecs::Zstd, refs.clone());
    assert_eq!(meta.codecs.len(), FIELDS_NUM);
    assert_eq!(meta.fields.len(), FIELDS_NUM);
    assert!(meta.codecs.iter().all(|c| *c == Codecs::Zstd));
    assert!(meta.fields.iter().all(|f| f.blocks.is_empty() && f.block_sizes.is_empty()));
    assert_eq!(*meta.get_field_codec(&Fields::RawQual), Codecs::Zstd);
    assert!(meta.view_blocks(&Fields::RefID).is_empty());
    assert_eq!(meta.get_ref_seqs(), &refs);
}

#[test]
fn append_adds_bytes_at_the_end() {
    let mut out = vec![1u8, 2];
    append(&mut out, &[3, 4, 5]);
    append(&mut out, &[]);
    assert_eq!(out, vec![1, 2, 3, 4, 5]);
}
