use gbam_tools::fields::{field_item_size, is_data_field, Fields, FIELDS_NUM};
use gbam_tools::meta::{Codecs, FileInfo, FileMeta, FILE_INFO_SIZE};
use gbam_tools::reader::{GbamRecord, ParsingTemplate, Reader};
use gbam_tools::record::RawRecord;
use gbam_tools::writer::{CompressTask, Inner, Writer, WriterError};
use gbam_tools::SIZE_LIMIT;

/// Places the blocks of the tasks in the file, as they are.
fn place_all(writer: &mut Writer, file: &mut Vec<u8>, tasks: &[CompressTask]) {
    for task in tasks {
        let seekpos = writer.write_data_and_update_meta(task).unwrap();
        assert_eq!(seekpos as usize, file.len());
        file.extend_from_slice(&task.buf);
    }
}

/// Hands every block of the file to the reader.
fn load_all(reader: &mut Reader, file: &[u8]) {
    for i in 0..FIELDS_NUM {
        let field = Fields::from_index(i).unwrap();
        let blocks = reader.file_meta.fields[i].blocks.len();
        for j in 0..blocks {
            let start = reader.file_meta.fields[i].blocks[j].seekpos as usize;
            let size = reader.file_meta.fields[i].block_sizes[j] as usize;
            reader.load_block(&field, j, file[start..start + size].to_vec());
        }
    }
}

#[test]
fn test_writer() {
    let raw_records = vec![RawRecord::default(), RawRecord::default()];
    let mut writer = Writer::new(Codecs::Gzip, Vec::new());
    let mut file: Vec<u8> = vec![0; FILE_INFO_SIZE];
    for rec in raw_records.iter() {
        let tasks = writer.push_record(rec).unwrap();
        place_all(&mut writer, &mut file, &tasks);
    }
    let tasks = writer.flush_all();
    place_all(&mut writer, &mut file, &tasks);
    let footer = b"footer".to_vec();
    let (preamble, total_bytes_written) = writer.finish(&footer).unwrap();
    file.extend_from_slice(&footer);
    file[..FILE_INFO_SIZE].copy_from_slice(&preamble);
    assert_eq!(total_bytes_written as usize, file.len());

    let info = FileInfo::from_bytes(&file).unwrap();
    assert_eq!(info.gbam_version, [1, 0]);
    assert!(info.matches_meta(&file[info.seekpos as usize..]));

    let mut parsing_template = ParsingTemplate::new();
    parsing_template.set_all();
    let mut reader = Reader::new_with_meta(parsing_template, writer.file_meta).unwrap();
    assert_eq!(reader.amount, 2);
    load_all(&mut reader, &file);
    let mut rec = GbamRecord::default();
    for (i, rec_orig) in raw_records.iter().enumerate() {
        assert!(reader.fill_record(i, &mut rec));
        let orig_map_q = rec_orig.get_bytes(&Fields::Mapq)[0];
        let orig_pos = i32::from_le_bytes(rec_orig.get_bytes(&Fields::Pos).try_into().unwrap());
        let pos = i32::from_le_bytes(rec.get(&Fields::Pos).unwrap().try_into().unwrap());
        let mapq = rec.get(&Fields::Mapq).unwrap()[0];
        assert_eq!(pos, orig_pos);
        assert_eq!(mapq, orig_map_q);
    }
    assert!(!reader.fill_record(2, &mut rec));
}

/// A record with a name, one CIGAR operation, two bases and tags.
fn full_record(refid: i32, pos: i32, mapq: u8, name: &[u8], tags: &[u8]) -> RawRecord {
    let mut b: Vec<u8> = Vec::new();
    b.extend_from_slice(&refid.to_le_bytes());
    b.extend_from_slice(&pos.to_le_bytes());
    b.push(name.len() as u8);
    b.push(mapq);
    b.extend_from_slice(&4680u16.to_le_bytes());
    b.extend_from_slice(&1u16.to_le_bytes());
    b.extend_from_slice(&((pos % 7) as u16).to_le_bytes());
    b.extend_from_slice(&2u32.to_le_bytes());
    b.extend_from_slice(&(refid + 1).to_le_bytes());
    b.extend_from_slice(&(pos + 1).to_le_bytes());
    b.extend_from_slice(&(pos - refid).to_le_bytes());
    b.extend_from_slice(name);
    b.extend_from_slice(&((30u32 << 4) | (pos as u32 % 3)).to_le_bytes());
    b.push((pos % 251) as u8);
    b.push((pos % 13) as u8);
    b.push((pos % 17) as u8);
    b.extend_from_slice(tags);
    RawRecord::from(b)
}

/// The data fields of the catalog.
fn data_fields() -> Vec<Fields> {
    (0..FIELDS_NUM)
        .map(|i| Fields::from_index(i).unwrap())
        .filter(|f| is_data_field(f))
        .collect()
}

#[test]
fn empty_file_is_preamble_and_footer() {
    let mut writer = Writer::new(Codecs::Zstd, vec![("chrA".to_string(), 10)]);
    assert_eq!(writer.cursor, FILE_INFO_SIZE as u64);
    let tasks = writer.flush_all();
    assert!(tasks.is_empty());
    let footer = b"{\"fields\":{}}".to_vec();
    let (preamble, total) = writer.finish(&footer).unwrap();
    assert_eq!(total, (FILE_INFO_SIZE + footer.len()) as u64);
    assert_eq!(preamble.len(), FILE_INFO_SIZE);
    let info = FileInfo::from_bytes(&preamble).unwrap();
    assert_eq!(info.gbam_version, [1, 0]);
    assert_eq!(info.seekpos, FILE_INFO_SIZE as u64);
    assert!(info.matches_meta(&footer));
    let reader = Reader::new_with_meta(ParsingTemplate::new(), writer.file_meta).unwrap();
    assert_eq!(reader.amount, 0);
    let mut rec = GbamRecord::default();
    assert!(reader.fill_record(0, &mut rec));
    let mut all = ParsingTemplate::new();
    all.set_all();
    let meta = FileMeta::new(Codecs::Zstd, Vec::new());
    let reader = Reader::new_with_meta(all, meta).unwrap();
    assert!(!reader.fill_record(0, &mut rec));
}

#[test]
fn preamble_vouches_for_the_footer() {
    let mut writer = Writer::new(Codecs::Gzip, Vec::new());
    let footer = b"{\"codec_per_field\":{},\"ref_seqs\":[],\"fields\":{}}".to_vec();
    let (preamble, _) = writer.finish(&footer).unwrap();
    let info = FileInfo::from_bytes(&preamble).unwrap();
    assert!(info.matches_meta(&footer));
    for at in 0..footer.len() {
        for flip in [1u8, 0x80, 0xff] {
            let mut changed = footer.clone();
            changed[at] ^= flip;
            assert!(!info.matches_meta(&changed));
        }
    }
    let mut longer = footer.clone();
    longer.push(b' ');
    assert!(!info.matches_meta(&longer));
    assert!(!info.matches_meta(&footer[..footer.len() - 1]));
    let mut known = Writer::new(Codecs::Gzip, Vec::new());
    let (preamble, total) = known.finish(b"123456789").unwrap();
    assert_eq!(total, 35);
    assert_eq!(&preamble[12..16], &0xcbf43926u32.to_le_bytes());
    assert_eq!(&preamble[..4], &[1, 0, 0, 0]);
    assert_eq!(&preamble[4..12], &26u64.to_le_bytes());
}

#[test]
fn block_closes_before_the_value_that_does_not_fit() {
    let mut column = Inner::new(Fields::RawTags, Codecs::Lz4, false);
    assert!(column.write_data(&vec![1; SIZE_LIMIT - 10]).is_none());
    assert!(column.write_data(&vec![2; 10]).is_none());
    assert_eq!(column.buffer.len(), SIZE_LIMIT);
    assert_eq!(column.rec_count, 2);
    assert!(column.write_data(&[]).is_none());
    assert_eq!(column.rec_count, 3);
    let task = column.write_data(&[3]).unwrap();
    assert_eq!(task.ordering_key, 0);
    assert_eq!(task.num_items, 3);
    assert_eq!(task.uncompr_size, SIZE_LIMIT);
    assert_eq!(task.buf.len(), SIZE_LIMIT);
    assert_eq!(task.field, Fields::RawTags);
    assert_eq!(task.codec, Codecs::Lz4);
    assert_eq!(task.min_value, None);
    assert_eq!(column.buffer, vec![3]);
    assert_eq!(column.rec_count, 1);
    assert_eq!(column.block_num, 1);
    let info = column.block_info();
    assert_eq!((info.numitems, info.block_size, info.uncompr_size), (1, 0, 1));
    assert_eq!(info.field, Fields::RawTags);
    let last = column.flush().unwrap();
    assert_eq!(last.ordering_key, 1);
    assert_eq!(last.buf, vec![3]);
    assert!(column.flush().is_none());
    assert_eq!(column.block_num, 2);
}

#[test]
fn oversized_value_gets_a_block_of_its_own() {
    let mut column = Inner::new(Fields::RawQual, Codecs::Gzip, false);
    assert!(column.write_data(&vec![7; 3 * SIZE_LIMIT]).is_none());
    assert_eq!(column.rec_count, 1);
    let task = column.write_data(&[1, 2]).unwrap();
    assert_eq!(task.num_items, 1);
    assert_eq!(task.buf.len(), 3 * SIZE_LIMIT);
    assert!(column.write_data(&vec![9; SIZE_LIMIT - 2]).is_none());
    let task = column.write_data(&vec![7; SIZE_LIMIT + 1]).unwrap();
    assert_eq!(task.num_items, 2);
    assert_eq!(task.ordering_key, 1);
    assert_eq!(column.buffer.len(), SIZE_LIMIT + 1);
    let empty_first = Inner::new(Fields::RawQual, Codecs::Gzip, false).write_data(&[]).is_none();
    assert!(empty_first);
}

#[test]
fn statistics_are_least_and_greatest_of_the_block() {
    let mut column = Inner::new(Fields::RefID, Codecs::Gzip, true);
    assert_eq!(column.block_info().min_value, None);
    for v in [5i32, -1, 12, 3] {
        assert!(column.write_data(&v.to_le_bytes()).is_none());
    }
    assert_eq!(column.range, Some((-1, 12)));
    let info = column.block_info();
    assert_eq!(info.min_value, Some((-1i32).to_le_bytes().to_vec()));
    assert_eq!(info.max_value, Some(12i32.to_le_bytes().to_vec()));
    let task = column.flush().unwrap();
    assert_eq!(task.min_value, Some(vec![0xff, 0xff, 0xff, 0xff]));
    assert_eq!(task.max_value, Some(vec![12, 0, 0, 0]));
    assert_eq!(task.num_items, 4);
    assert_eq!(column.range, None);
    column.write_data(&i32::MIN.to_le_bytes());
    column.write_data(&i32::MAX.to_le_bytes());
    let task = column.flush().unwrap();
    assert_eq!(task.min_value, Some(vec![0, 0, 0, 0x80]));
    assert_eq!(task.max_value, Some(vec![0xff, 0xff, 0xff, 0x7f]));
    let mut rec_column = Inner::new(Fields::RefID, Codecs::Gzip, true);
    assert!(rec_column.write_record_field(&full_record(9, 1, 0, b"a\0", b"")).is_none());
    assert_eq!(rec_column.range, Some((9, 9)));
    assert_eq!(rec_column.buffer, vec![9, 0, 0, 0]);
}

#[test]
fn index_column_holds_the_ends_of_the_values() {
    let mut writer = Writer::new(Codecs::Gzip, Vec::new());
    let names: [&[u8]; 4] = [b"first\0", b"b\0", b"\0", b"longer name\0"];
    for (i, name) in names.iter().enumerate() {
        let tasks = writer.push_record(&full_record(0, i as i32, 0, name, b"TG")).unwrap();
        assert!(tasks.is_empty());
    }
    assert_eq!(writer.amount, 4);
    let tasks = writer.flush_all();
    let fields: Vec<Fields> = tasks.iter().map(|t| t.field).collect();
    let catalog: Vec<Fields> = (0..FIELDS_NUM).map(|i| Fields::from_index(i).unwrap()).collect();
    assert_eq!(fields, catalog);
    let of = |f: Fields| tasks.iter().find(|t| t.field == f).unwrap();
    assert_eq!(of(Fields::ReadName).buf, b"first\0b\0\0longer name\0".to_vec());
    let ends: Vec<u8> = [6u32, 8, 9, 21].iter().flat_map(|e| e.to_le_bytes()).collect();
    assert_eq!(of(Fields::LName).buf, ends);
    let ends: Vec<u8> = [4u32, 8, 12, 16].iter().flat_map(|e| e.to_le_bytes()).collect();
    assert_eq!(of(Fields::NCigar).buf, ends);
    let ends: Vec<u8> = [1u32, 2, 3, 4].iter().flat_map(|e| e.to_le_bytes()).collect();
    assert_eq!(of(Fields::RawSeqLen).buf, ends);
    let ends: Vec<u8> = [2u32, 4, 6, 8].iter().flat_map(|e| e.to_le_bytes()).collect();
    assert_eq!(of(Fields::SequenceLength).buf, ends);
    assert_eq!(of(Fields::RawTagsLen).buf, ends);
    assert_eq!(of(Fields::RawTags).buf, b"TGTGTGTG".to_vec());
    assert_eq!(of(Fields::Mapq).buf, vec![0, 0, 0, 0]);
    assert_eq!(of(Fields::Pos).buf.len(), 16);
    for task in &tasks {
        assert_eq!(task.num_items, 4);
        assert_eq!(task.ordering_key, 0);
        assert_eq!(task.uncompr_size, task.buf.len());
        assert_eq!(task.codec, Codecs::Gzip);
    }
    assert_eq!(of(Fields::RefID).min_value, Some(vec![0, 0, 0, 0]));
    assert_eq!(of(Fields::Pos).min_value, None);
    assert!(writer.flush_all().is_empty());
}

#[test]
fn metadata_goes_by_ordering_key() {
    let mut writer = Writer::new(Codecs::Gzip, Vec::new());
    let task = |key: usize, field: Fields, size: usize| CompressTask {
        ordering_key: key,
        field,
        num_items: 10 + key as u32,
        uncompr_size: 99,
        buf: vec![key as u8; size],
        codec: Codecs::Gzip,
        max_value: Some(vec![key as u8, 0, 0, 0]),
        min_value: None,
    };
    assert_eq!(writer.write_data_and_update_meta(&task(2, Fields::Pos, 5)), Ok(26));
    assert_eq!(writer.write_data_and_update_meta(&task(0, Fields::Pos, 7)), Ok(31));
    assert_eq!(writer.write_data_and_update_meta(&task(0, Fields::Mapq, 1)), Ok(38));
    assert_eq!(writer.write_data_and_update_meta(&task(1, Fields::Pos, 0)), Ok(39));
    assert_eq!(writer.cursor, 39);
    let pos = &writer.file_meta.fields[Fields::Pos.index()];
    assert_eq!(pos.block_sizes, vec![7, 0, 5]);
    let places: Vec<(u64, u32)> = pos.blocks.iter().map(|b| (b.seekpos, b.numitems)).collect();
    assert_eq!(places, vec![(31, 10), (39, 11), (26, 12)]);
    assert_eq!(pos.blocks[2].max_value, Some(vec![2, 0, 0, 0]));
    assert_eq!(pos.blocks[2].min_value, None);
    let mapq = &writer.file_meta.fields[Fields::Mapq.index()];
    assert_eq!(mapq.block_sizes, vec![1]);
    assert_eq!(mapq.blocks[0].seekpos, 38);
    let mut sparse = Writer::new(Codecs::Gzip, Vec::new());
    assert_eq!(sparse.write_data_and_update_meta(&task(2, Fields::Bin, 3)), Ok(26));
    let bin = &sparse.file_meta.fields[Fields::Bin.index()];
    assert_eq!(bin.block_sizes, vec![0, 0, 3]);
    assert_eq!(bin.blocks.len(), 3);
    assert_eq!((bin.blocks[0].seekpos, bin.blocks[0].numitems), (0, 0));
    assert_eq!(bin.blocks[1].max_value, None);
    assert_eq!(sparse.write_data_and_update_meta(&task(2, Fields::Bin, 4)), Ok(29));
    let bin = &sparse.file_meta.fields[Fields::Bin.index()];
    assert_eq!(bin.block_sizes, vec![0, 0, 4]);
    assert_eq!(bin.blocks[2].seekpos, 29);
}

#[test]
fn writer_refuses_what_it_cannot_take() {
    let mut writer = Writer::new(Codecs::Gzip, Vec::new());
    writer.push_record(&RawRecord::default()).unwrap();
    let mut cut = RawRecord::default();
    cut.resize(33);
    assert_eq!(writer.push_record(&cut).unwrap_err(), WriterError::MalformedRecord(1));
    assert_eq!(
        writer.push_record(&RawRecord::from(Vec::new())).unwrap_err(),
        WriterError::MalformedRecord(1)
    );
    assert_eq!(writer.amount, 1);
    assert_eq!(writer.columns[Fields::Mapq.index()].rec_count, 1);
    writer.push_record(&RawRecord::default()).unwrap();
    assert_eq!(writer.amount, 2);

    let mut full = Writer::new(Codecs::Gzip, Vec::new());
    full.amount = u64::MAX;
    assert_eq!(full.push_record(&RawRecord::default()).unwrap_err(), WriterError::TooManyRecords);
    assert_eq!(full.push_record(&cut).unwrap_err(), WriterError::MalformedRecord(u64::MAX));

    let bad_key = CompressTask {
        ordering_key: usize::MAX,
        field: Fields::Pos,
        num_items: 1,
        uncompr_size: 4,
        buf: vec![0; 4],
        codec: Codecs::Gzip,
        max_value: None,
        min_value: None,
    };
    let mut writer = Writer::new(Codecs::Gzip, Vec::new());
    assert_eq!(writer.write_data_and_update_meta(&bad_key), Err(WriterError::BlockOutOfRange));
    assert_eq!(writer.cursor, 26);
    assert!(writer.file_meta.fields[Fields::Pos.index()].blocks.is_empty());
    writer.cursor = u64::MAX - 3;
    let ok_key = CompressTask { ordering_key: 0, ..bad_key };
    assert_eq!(writer.write_data_and_update_meta(&ok_key), Err(WriterError::BlockOutOfRange));
    assert_eq!(writer.finish(b"1234"), Err(WriterError::FileTooLarge));
    assert_eq!(writer.cursor, u64::MAX - 3);
    let (_, total) = writer.finish(b"123").unwrap();
    assert_eq!(total, u64::MAX);
}

#[test]
fn block_boundary_span() {
    let n = 2 * SIZE_LIMIT + 1;
    let mut writer = Writer::new(Codecs::Gzip, vec![("chrA".to_string(), 1000)]);
    let mut file: Vec<u8> = vec![0; FILE_INFO_SIZE];
    let mut pushed: Vec<RawRecord> = Vec::with_capacity(n);
    let mut pending: Vec<CompressTask> = Vec::new();
    for i in 0..n {
        let name: &[u8] = if i % 3 == 0 { b"ab\0" } else { b"c\0" };
        let rec = full_record((i / 50000) as i32, i as i32, (i % 200) as u8, name, b"Z");
        pending.extend(writer.push_record(&rec).unwrap());
        // Blocks come back from compression late and out of order.
        if pending.len() >= 3 {
            pending.reverse();
            place_all(&mut writer, &mut file, &pending);
            pending.clear();
        }
        pushed.push(rec);
    }
    pending.extend(writer.flush_all());
    place_all(&mut writer, &mut file, &pending);
    assert_eq!(writer.cursor as usize, file.len());

    for f in data_fields() {
        let meta = &writer.file_meta.fields[f.index()];
        assert!(meta.blocks.len() >= 3);
        assert_eq!(meta.blocks.len(), meta.block_sizes.len());
        let total: usize = meta.blocks.iter().map(|b| b.numitems as usize).sum();
        assert_eq!(total, n);
        if let Some(width) = field_item_size(&f) {
            for b in &meta.blocks[..meta.blocks.len() - 1] {
                assert_eq!(b.numitems as usize, SIZE_LIMIT / width);
            }
        }
    }
    // Fields of one width are cut into the same blocks.
    let counts = |f: Fields| -> Vec<u32> {
        writer.file_meta.fields[f.index()].blocks.iter().map(|b| b.numitems).collect()
    };
    assert_eq!(counts(Fields::RefID), counts(Fields::Pos));
    assert_eq!(counts(Fields::RefID), counts(Fields::TemplateLength));
    assert_eq!(counts(Fields::RefID), counts(Fields::RawCigar));
    assert_eq!(counts(Fields::Bin), counts(Fields::Flags));
    assert_eq!(counts(Fields::Mapq), counts(Fields::RawTags));
    assert_ne!(counts(Fields::RefID), counts(Fields::Mapq));
    // The statistics of each block of reference ids hold its records.
    let mut at = 0usize;
    for b in &writer.file_meta.fields[Fields::RefID.index()].blocks {
        let (lo, hi) = b.stats().unwrap();
        for i in at..at + b.numitems as usize {
            let refid = (i / 50000) as i32;
            assert!(lo <= refid && refid <= hi);
        }
        assert_eq!(lo, (at / 50000) as i32);
        assert_eq!(hi, ((at + b.numitems as usize - 1) / 50000) as i32);
        at += b.numitems as usize;
    }

    let mut parsing_template = ParsingTemplate::new();
    parsing_template.set_all();
    let mut reader = Reader::new_with_meta(parsing_template, writer.file_meta).unwrap();
    assert_eq!(reader.amount, n);
    load_all(&mut reader, &file);
    let first_block = reader.file_meta.fields[Fields::RefID.index()].blocks[0].numitems as usize;
    let mut probes = vec![0, 1, first_block - 1, first_block, first_block + 1, n - 2, n - 1];
    probes.extend((0..n).step_by(997));
    probes.extend([SIZE_LIMIT - 1, SIZE_LIMIT, SIZE_LIMIT / 2 - 1, SIZE_LIMIT / 2]);
    let mut rec = GbamRecord::default();
    for i in probes {
        assert!(reader.fill_record(i, &mut rec));
        for f in data_fields() {
            assert_eq!(rec.get(&f).unwrap(), pushed[i].get_bytes(&f));
        }
        assert!(rec.get(&Fields::LName).is_none());
    }
    assert!(!reader.fill_record(n, &mut rec));
}
