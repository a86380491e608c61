use gbam_tools::fields::{Fields, FIELDS_NUM};
use gbam_tools::meta::{BlockMeta, Codecs, FileMeta};
use gbam_tools::reader::{
    locate, read_fixed, read_index, read_variable, total_items, GbamRecord, ParsingTemplate,
    Reader,
};

/// Metadata of blocks with the given counts.
fn counted(counts: &[u32]) -> Vec<BlockMeta> {
    counts
        .iter()
        .map(|n| BlockMeta { seekpos: 0, numitems: *n, max_value: None, min_value: None })
        .collect()
}

#[test]
fn values_are_located_by_the_counts() {
    let blocks = counted(&[3, 0, 2, 1]);
    assert_eq!(locate(&blocks, 0), Some((0, 0)));
    assert_eq!(locate(&blocks, 2), Some((0, 2)));
    assert_eq!(locate(&blocks, 3), Some((2, 0)));
    assert_eq!(locate(&blocks, 4), Some((2, 1)));
    assert_eq!(locate(&blocks, 5), Some((3, 0)));
    assert_eq!(locate(&blocks, 6), None);
    assert_eq!(locate(&blocks, usize::MAX), None);
    assert_eq!(locate(&Vec::new(), 0), None);
    assert_eq!(total_items(&blocks), Some(6));
    assert_eq!(total_items(&Vec::new()), Some(0));
    assert_eq!(total_items(&counted(&[u32::MAX, u32::MAX])), Some(2 * u32::MAX as usize));
}

#[test]
fn fixed_values_lie_at_multiples_of_the_width() {
    let blocks = counted(&[2, 3]);
    let data = vec![vec![1u8, 2, 3, 4], vec![5, 6, 7, 8, 9, 10]];
    assert_eq!(read_fixed(&blocks, &data, 0, 2), Some(&[1u8, 2][..]));
    assert_eq!(read_fixed(&blocks, &data, 1, 2), Some(&[3u8, 4][..]));
    assert_eq!(read_fixed(&blocks, &data, 2, 2), Some(&[5u8, 6][..]));
    assert_eq!(read_fixed(&blocks, &data, 4, 2), Some(&[9u8, 10][..]));
    assert_eq!(read_fixed(&blocks, &data, 5, 2), None);
    assert_eq!(read_fixed(&blocks, &data, 1, 1), Some(&[2u8][..]));
    assert_eq!(read_fixed(&blocks, &data, 0, 4), Some(&[1u8, 2, 3, 4][..]));
    assert_eq!(read_fixed(&blocks, &data, 1, 4), None);
    assert_eq!(read_fixed(&blocks, &data, 3, 4), None);
    assert_eq!(read_fixed(&blocks, &data, 1, usize::MAX), None);
    assert_eq!(read_fixed(&blocks, &data, 1, 0), Some(&[][..]));
    let short = vec![vec![1u8, 2, 3, 4]];
    assert_eq!(read_fixed(&blocks, &short, 2, 2), None);
    assert_eq!(read_fixed(&blocks, &short, 1, 2), Some(&[3u8, 4][..]));
    assert_eq!(read_index(&counted(&[1]), &vec![vec![0x78, 0x56, 0x34, 0x12]], 0), Some(0x12345678));
    assert_eq!(read_index(&counted(&[1]), &vec![vec![0x78, 0x56, 0x34]], 0), None);
}

#[test]
fn variable_values_lie_between_the_offsets() {
    // Values "ab", "", "cde" in the first block, "f" in the second.
    let blocks = counted(&[3, 1]);
    let data = vec![b"abcde".to_vec(), b"f".to_vec()];
    let index_blocks = counted(&[2, 2]);
    let ends = |v: &[u32]| -> Vec<u8> { v.iter().flat_map(|e| e.to_le_bytes()).collect() };
    let index_data = vec![ends(&[2, 2]), ends(&[5, 1])];
    let read = |i: usize| read_variable(&blocks, &data, &index_blocks, &index_data, i);
    assert_eq!(read(0), Some(&b"ab"[..]));
    assert_eq!(read(1), Some(&b""[..]));
    assert_eq!(read(2), Some(&b"cde"[..]));
    assert_eq!(read(3), Some(&b"f"[..]));
    assert_eq!(read(4), None);
    // A block of the index that is not there hides the values it describes,
    // but not the first value of a block that follows.
    let partial = vec![Vec::new(), ends(&[5, 1])];
    let read = |i: usize| read_variable(&blocks, &data, &index_blocks, &partial, i);
    assert_eq!(read(0), None);
    assert_eq!(read(1), None);
    assert_eq!(read(2), None);
    assert_eq!(read(3), Some(&b"f"[..]));
    // Offsets that do not fit the block are refused.
    let wrong = vec![ends(&[2, 1]), ends(&[9, 1])];
    let read = |i: usize| read_variable(&blocks, &data, &index_blocks, &wrong, i);
    assert_eq!(read(0), Some(&b"ab"[..]));
    assert_eq!(read(1), None);
    assert_eq!(read(2), None);
}

#[test]
fn template_selects_fields() {
    let none = ParsingTemplate::new();
    assert_eq!(none.active, vec![false; FIELDS_NUM]);
    let some = ParsingTemplate::new_with(&[Fields::RefID, Fields::RawCigar, Fields::RefID]);
    for i in 0..FIELDS_NUM {
        let expected = i == Fields::RefID.index() || i == Fields::RawCigar.index();
        assert_eq!(some.active[i], expected);
    }
    let mut all = ParsingTemplate::new_with(&[]);
    assert_eq!(all.active, vec![false; FIELDS_NUM]);
    all.set_all();
    assert_eq!(all.active, vec![true; FIELDS_NUM]);
}

#[test]
fn reader_brings_back_only_what_was_asked_for() {
    let mut meta = FileMeta::new(Codecs::Gzip, Vec::new());
    for f in [Fields::RefID, Fields::Mapq] {
        meta.fields[f.index()].blocks = counted(&[2]);
        meta.fields[f.index()].block_sizes = vec![0];
    }
    let template = ParsingTemplate::new_with(&[Fields::Mapq, Fields::LName]);
    let mut reader = Reader::new_with_meta(template, meta).unwrap();
    assert_eq!(reader.amount, 2);
    let mut rec = GbamRecord::default();
    assert!(rec.get(&Fields::Mapq).is_none());
    assert!(!reader.fill_record(0, &mut rec));
    reader.load_block(&Fields::Mapq, 0, vec![11, 22]);
    assert!(reader.fill_record(1, &mut rec));
    assert_eq!(rec.get(&Fields::Mapq), Some(&[22u8][..]));
    assert!(rec.get(&Fields::RefID).is_none());
    assert!(rec.get(&Fields::LName).is_none());
    assert_eq!(reader.read_field(&Fields::Mapq, 0), Some(&[11u8][..]));
    assert_eq!(reader.read_field(&Fields::RefID, 0), None);
    reader.load_block(&Fields::RefID, 0, vec![1, 0, 0, 0, 2, 0, 0, 0]);
    assert_eq!(reader.read_field(&Fields::RefID, 1), Some(&[2u8, 0, 0, 0][..]));
    assert!(!reader.fill_record(2, &mut rec));
    // A block can be handed over before the ones in front of it.
    reader.load_block(&Fields::Pos, 3, vec![9]);
    assert_eq!(reader.data[Fields::Pos.index()], vec![vec![], vec![], vec![], vec![9]]);
    reader.load_block(&Fields::Pos, 1, vec![8]);
    assert_eq!(reader.data[Fields::Pos.index()], vec![vec![], vec![8], vec![], vec![9]]);
}

#[test]
fn reader_needs_whole_metadata() {
    let mut meta = FileMeta::new(Codecs::Gzip, Vec::new());
    meta.fields.pop();
    assert!(Reader::new_with_meta(ParsingTemplate::new(), meta).is_none());
    let mut meta = FileMeta::new(Codecs::Gzip, Vec::new());
    meta.codecs.clear();
    assert!(Reader::new_with_meta(ParsingTemplate::new(), meta).is_none());
}
