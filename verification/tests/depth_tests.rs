use gbam_tools::fields::{Fields, FIELDS_NUM};
use gbam_tools::meta::{BlockMeta, Codecs, FileMeta, FILE_INFO_SIZE};
use gbam_tools::query::cigar::base_coverage;
use gbam_tools::query::coverage::accumulate;
use gbam_tools::query::depth::{
    calc_depth, find_leftmost_block, find_ref_id, find_rightmost_block, get_chr_name_mapping,
    process_range, records_before, scan_range, stats_are_usable, DepthError,
};
use gbam_tools::query::printer::ConsolePrinter;
use gbam_tools::query::regions::{write_reference, QuerySet};
use gbam_tools::query::ring::Ring;
use gbam_tools::reader::{ParsingTemplate, Reader};
use gbam_tools::record::RawRecord;
use gbam_tools::writer::Writer;

/// An aligned record: reference, position and CIGAR operations, with a
/// short name and no bases.
fn aligned(refid: i32, pos: i32, cigar: &[u32]) -> RawRecord {
    let mut b: Vec<u8> = Vec::new();
    b.extend_from_slice(&refid.to_le_bytes());
    b.extend_from_slice(&pos.to_le_bytes());
    b.push(2);
    b.push(60);
    b.extend_from_slice(&0u16.to_le_bytes());
    b.extend_from_slice(&(cigar.len() as u16).to_le_bytes());
    b.extend_from_slice(&0u16.to_le_bytes());
    b.extend_from_slice(&0u32.to_le_bytes());
    b.extend_from_slice(&(-1i32).to_le_bytes());
    b.extend_from_slice(&(-1i32).to_le_bytes());
    b.extend_from_slice(&0i32.to_le_bytes());
    b.extend_from_slice(b"r\0");
    for op in cigar {
        b.extend_from_slice(&op.to_le_bytes());
    }
    RawRecord::from(b)
}

/// A match of `len` bases.
fn m(len: u32) -> u32 {
    len << 4
}

/// Writes the records to a file in memory, blocks left as they are.
fn write_file(records: &[RawRecord], ref_seqs: Vec<(String, i32)>) -> (Vec<u8>, FileMeta) {
    let mut writer = Writer::new(Codecs::Lz4, ref_seqs);
    let mut file: Vec<u8> = vec![0; FILE_INFO_SIZE];
    for rec in records {
        for task in writer.push_record(rec).unwrap() {
            writer.write_data_and_update_meta(&task).unwrap();
            file.extend_from_slice(&task.buf);
        }
    }
    for task in writer.flush_all() {
        writer.write_data_and_update_meta(&task).unwrap();
        file.extend_from_slice(&task.buf);
    }
    (file, writer.file_meta)
}

/// A reader for the depth query with the given blocks handed over.
fn depth_reader(file: &[u8], meta: FileMeta, wanted: impl Fn(Fields, usize) -> bool) -> Reader {
    let template = ParsingTemplate::new_with(&[Fields::RefID, Fields::Pos, Fields::RawCigar]);
    let mut reader = Reader::new_with_meta(template, meta).unwrap();
    for i in 0..FIELDS_NUM {
        let field = Fields::from_index(i).unwrap();
        for j in 0..reader.file_meta.fields[i].blocks.len() {
            if wanted(field, j) {
                let start = reader.file_meta.fields[i].blocks[j].seekpos as usize;
                let size = reader.file_meta.fields[i].block_sizes[j] as usize;
                reader.load_block(&field, j, file[start..start + size].to_vec());
            }
        }
    }
    reader
}

/// The whole depth output of a file for a query, through a ring of the
/// given size.
fn depth_output(reader: &Reader, queries: &QuerySet, threads: Option<usize>) -> String {
    let refs = reader.file_meta.get_ref_seqs().clone();
    let names: Vec<String> = refs.iter().map(|(n, _)| n.clone()).collect();
    let ids = get_chr_name_mapping(&names, &refs);
    let mut ring = Ring::new(threads, refs.len());
    let mut in_flight: Vec<Option<Vec<i32>>> = vec![None; ring.capacity()];
    let mut printer = ConsolePrinter::new();
    let mut out = Vec::new();
    loop {
        let step = ring.step();
        if let Some((slot, reference)) = step.join {
            let coverage = in_flight[slot].take().unwrap();
            write_reference(&mut printer, refs[reference].0.clone(), &coverage, queries, &mut out);
        }
        if let Some((slot, reference)) = step.spawn {
            let ref_id = ids[reference].1.unwrap();
            let ref_len = refs[reference].1 as usize;
            in_flight[slot] = Some(calc_depth(reader, ref_id, Vec::new(), ref_len).unwrap());
        }
        if step.done {
            break;
        }
    }
    String::from_utf8(out).unwrap()
}

#[test]
fn base_coverage_counts_reference_consuming_operations() {
    let ops: Vec<u32> = vec![
        (10 << 4) | 0, // M
        (5 << 4) | 1,  // I
        (3 << 4) | 2,  // D
        (2 << 4) | 3,  // N
        (4 << 4) | 4,  // S
        (6 << 4) | 5,  // H
        (8 << 4) | 6,  // P
        (1 << 4) | 7,  // =
        (1 << 4) | 8,  // X
    ];
    let mut bytes = Vec::new();
    for op in &ops {
        bytes.extend_from_slice(&op.to_le_bytes());
    }
    assert_eq!(base_coverage(&bytes), 10 + 3 + 2 + 1 + 1);
    assert_eq!(base_coverage(&[]), 0);
    assert_eq!(base_coverage(&m(50).to_le_bytes()), 50);
    let mut ragged = m(7).to_le_bytes().to_vec();
    ragged.extend_from_slice(&[0x10, 0x00]);
    assert_eq!(base_coverage(&ragged), 7);
    assert_eq!(base_coverage(&0xffff_fff0u32.to_le_bytes()), 0x0fff_ffff);
    assert_eq!(base_coverage(&0xffff_ffffu32.to_le_bytes()), 0);
}

#[test]
fn running_sums_in_place() {
    let mut v = vec![1, 0, -1, 2, 0, -2];
    accumulate(&mut v);
    assert_eq!(v, vec![1, 1, 0, 2, 2, 0]);
    let mut empty: Vec<i32> = Vec::new();
    accumulate(&mut empty);
    assert!(empty.is_empty());
    let mut big = vec![i32::MAX, -1, 1];
    accumulate(&mut big);
    assert_eq!(big, vec![i32::MAX, i32::MAX - 1, i32::MAX]);
}

#[test]
fn single_record_full_reference() {
    let records = vec![aligned(0, 100, &[m(50)])];
    let (file, meta) = write_file(&records, vec![("chrA".to_string(), 200)]);
    let reader = depth_reader(&file, meta, |_, _| true);
    assert_eq!(reader.amount, 1);
    let coverage = calc_depth(&reader, 0, Vec::new(), 200).unwrap();
    assert_eq!(coverage.len(), 200);
    for (p, c) in coverage.iter().enumerate() {
        assert_eq!(*c, if (100..150).contains(&p) { 1 } else { 0 });
    }
    let queries = QuerySet::whole_references(reader.file_meta.get_ref_seqs());
    let out = depth_output(&reader, &queries, None);
    let lines: Vec<&str> = out.lines().collect();
    assert_eq!(lines.len(), 50);
    for (k, line) in lines.iter().enumerate() {
        assert_eq!(*line, format!("chrA\t{}\t1", 100 + k));
    }
    assert!(out.ends_with("chrA\t149\t1\n"));
}

#[test]
fn two_overlapping_reads() {
    let records = vec![aligned(0, 10, &[m(20)]), aligned(0, 20, &[m(20)])];
    let (file, meta) = write_file(&records, vec![("chrA".to_string(), 100)]);
    let reader = depth_reader(&file, meta, |_, _| true);
    let mut queries = QuerySet::new();
    queries.insert("chrA".to_string(), vec![(0, 99)]);
    let out = depth_output(&reader, &queries, Some(4));
    let mut expected = String::new();
    for p in 10..20 {
        expected.push_str(&format!("chrA\t{}\t1\n", p));
    }
    for p in 20..30 {
        expected.push_str(&format!("chrA\t{}\t2\n", p));
    }
    for p in 30..40 {
        expected.push_str(&format!("chrA\t{}\t1\n", p));
    }
    assert_eq!(out, expected);
}

#[test]
fn absent_chromosome_gives_no_rows() {
    let records = vec![aligned(0, 5, &[m(3)]), aligned(0, 6, &[m(3)])];
    let refs = vec![("chrA".to_string(), 100), ("chrB".to_string(), 100)];
    let (file, meta) = write_file(&records, refs);
    let reader = depth_reader(&file, meta, |_, _| true);
    let blocks = reader.file_meta.view_blocks(&Fields::RefID);
    assert_eq!(find_leftmost_block(1, blocks), None);
    assert_eq!(scan_range(blocks, 1), (0, 0));
    let coverage_b = calc_depth(&reader, 1, vec![9; 7], 100).unwrap();
    assert_eq!(coverage_b, vec![0; 100]);
    let mut queries = QuerySet::new();
    queries.insert("chrA".to_string(), vec![(0, 99)]);
    queries.insert("chrB".to_string(), vec![(0, 99)]);
    let out = depth_output(&reader, &queries, Some(2));
    assert_eq!(out, "chrA\t5\t1\nchrA\t6\t2\nchrA\t7\t2\nchrA\t8\t1\n");
    assert!(!out.contains("chrB"));
}

#[test]
fn empty_file_gives_no_rows() {
    let refs = vec![("chrA".to_string(), 10)];
    let (file, meta) = write_file(&[], refs.clone());
    assert_eq!(file.len(), FILE_INFO_SIZE);
    let reader = depth_reader(&file, meta, |_, _| true);
    assert_eq!(reader.amount, 0);
    assert_eq!(calc_depth(&reader, 0, Vec::new(), 10).unwrap(), vec![0; 10]);
    let queries = QuerySet::whole_references(&refs);
    assert_eq!(depth_output(&reader, &queries, Some(3)), "");
}

#[test]
fn output_does_not_depend_on_the_ring() {
    let mut records = Vec::new();
    for r in 0..5 {
        for k in 0..20 {
            records.push(aligned(r, 3 * k, &[m(10), (2 << 4) | 1, (5 << 4) | 2]));
        }
    }
    let refs: Vec<(String, i32)> = (0..5).map(|r| (format!("chr{}", r + 1), 80)).collect();
    let (file, meta) = write_file(&records, refs.clone());
    let reader = depth_reader(&file, meta, |_, _| true);
    let queries = QuerySet::whole_references(&refs);
    let single = depth_output(&reader, &queries, None);
    assert!(single.starts_with("chr1\t0\t1\n"));
    assert_eq!(single.lines().filter(|l| l.starts_with("chr3\t")).count(), 72);
    for threads in [Some(1), Some(2), Some(3), Some(8), Some(32)] {
        assert_eq!(depth_output(&reader, &queries, threads), single);
    }
}

#[test]
fn depth_is_the_number_of_covering_alignments() {
    let reads: Vec<(i32, i32, u32)> = vec![
        (0, 0, 5),
        (0, 2, 10),
        (0, 2, 1),
        (1, 3, 4),
        (0, 7, 0),
        (0, 11, 9),
        (0, 19, 1),
        (0, 15, 30),
        (0, -3, 5),
        (0, -10, 4),
        (0, 25, 3),
    ];
    let mut sorted = reads.clone();
    sorted.sort_by_key(|r| r.0);
    let records: Vec<RawRecord> = sorted.iter().map(|r| aligned(r.0, r.1, &[m(r.2)])).collect();
    let (file, meta) = write_file(&records, vec![("a".to_string(), 20), ("b".to_string(), 20)]);
    let reader = depth_reader(&file, meta, |_, _| true);
    for target in 0..2 {
        let coverage = calc_depth(&reader, target, Vec::new(), 20).unwrap();
        for p in 0..20i64 {
            let count = reads
                .iter()
                .filter(|r| r.0 == target && (r.1 as i64) <= p && p < r.1 as i64 + r.2 as i64)
                .count();
            assert_eq!(coverage[p as usize] as usize, count);
            assert!(coverage[p as usize] >= 0);
        }
    }
}

#[test]
fn alignment_may_end_with_the_reference() {
    let records = vec![aligned(0, 5, &[m(5)]), aligned(0, 9, &[m(100)])];
    let (file, meta) = write_file(&records, vec![("c".to_string(), 10)]);
    let reader = depth_reader(&file, meta, |_, _| true);
    let coverage = calc_depth(&reader, 0, Vec::new(), 10).unwrap();
    assert_eq!(coverage, vec![0, 0, 0, 0, 0, 1, 1, 1, 1, 2]);
    assert_eq!(calc_depth(&reader, 0, Vec::new(), 0).unwrap(), Vec::<i32>::new());
}

#[test]
fn sweep_adds_steps_to_the_line() {
    let records = vec![aligned(0, 1, &[m(2)]), aligned(1, 0, &[m(4)]), aligned(0, 2, &[m(9)])];
    let (file, meta) = write_file(&records, vec![("c".to_string(), 5)]);
    let reader = depth_reader(&file, meta, |_, _| true);
    let line = process_range(&reader, 0, 3, vec![10, 10, 10, 10, 10], 0).unwrap();
    assert_eq!(line, vec![10, 11, 11, 9, 10]);
    let line = process_range(&reader, 1, 2, vec![0; 5], 1).unwrap();
    assert_eq!(line, vec![1, 0, 0, 0, -1]);
    let line = process_range(&reader, 2, 2, vec![3; 2], 0).unwrap();
    assert_eq!(line, vec![3, 3]);
}

#[test]
fn sweep_fails_at_the_first_unreadable_record() {
    let records = vec![aligned(0, 1, &[m(2)]), aligned(0, 2, &[m(2)])];
    let (file, meta) = write_file(&records, vec![("c".to_string(), 5)]);
    let reader = depth_reader(&file, meta, |_, _| true);
    assert_eq!(process_range(&reader, 0, 3, vec![0; 5], 0), Err(DepthError::Unreadable(2)));
    assert_eq!(process_range(&reader, 5, 9, vec![0; 5], 0), Err(DepthError::Unreadable(5)));
    let (file, meta) = write_file(&records, vec![("c".to_string(), 5)]);
    let no_cigar = depth_reader(&file, meta, |f, _| f != Fields::RawCigar);
    assert_eq!(calc_depth(&no_cigar, 0, Vec::new(), 5), Err(DepthError::Unreadable(0)));
    let (file, meta) = write_file(&records, vec![("c".to_string(), 5)]);
    let mut other = Reader::new_with_meta(ParsingTemplate::new_with(&[Fields::Mapq]), meta).unwrap();
    for i in 0..FIELDS_NUM {
        let field = Fields::from_index(i).unwrap();
        for j in 0..other.file_meta.fields[i].blocks.len() {
            let start = other.file_meta.fields[i].blocks[j].seekpos as usize;
            let size = other.file_meta.fields[i].block_sizes[j] as usize;
            other.load_block(&field, j, file[start..start + size].to_vec());
        }
    }
    assert_eq!(calc_depth(&other, 0, Vec::new(), 5), Err(DepthError::Unreadable(0)));
}

/// Metadata of blocks of reference ids with the given ranges.
fn ranged_blocks(ranges: &[(i32, i32)], numitems: u32) -> Vec<BlockMeta> {
    ranges
        .iter()
        .map(|(lo, hi)| BlockMeta {
            seekpos: 0,
            numitems,
            max_value: Some(hi.to_le_bytes().to_vec()),
            min_value: Some(lo.to_le_bytes().to_vec()),
        })
        .collect()
}

#[test]
fn block_search_finds_the_blocks_of_a_reference() {
    let blocks = ranged_blocks(
        &[(0, 0), (0, 2), (2, 2), (2, 5), (7, 7), (7, 7), (8, 9), (9, 9), (9, 12), (12, 12)],
        100,
    );
    assert!(stats_are_usable(&blocks));
    assert_eq!(find_leftmost_block(7, &blocks), Some(4));
    assert_eq!(find_rightmost_block(7, &blocks), 6);
    assert_eq!(scan_range(&blocks, 7), (400, 600));
    assert_eq!(find_leftmost_block(0, &blocks), Some(0));
    assert_eq!(find_rightmost_block(0, &blocks), 2);
    assert_eq!(find_leftmost_block(2, &blocks), Some(1));
    assert_eq!(find_rightmost_block(2, &blocks), 4);
    assert_eq!(scan_range(&blocks, 2), (100, 400));
    assert_eq!(find_leftmost_block(12, &blocks), Some(8));
    assert_eq!(find_rightmost_block(12, &blocks), 10);
    assert_eq!(scan_range(&blocks, 12), (800, 1000));
    assert_eq!(find_leftmost_block(6, &blocks), None);
    assert_eq!(scan_range(&blocks, 6), (0, 0));
    assert_eq!(find_leftmost_block(13, &blocks), None);
    assert_eq!(find_leftmost_block(-1, &blocks), None);
    assert_eq!(find_rightmost_block(-1, &blocks), 0);
    assert_eq!(find_rightmost_block(100, &blocks), 10);
    assert_eq!(find_leftmost_block(3, &blocks), Some(3));
    assert_eq!(scan_range(&blocks, 3), (300, 400));
    assert_eq!(find_leftmost_block(5, &Vec::new()), None);
    assert_eq!(find_rightmost_block(5, &Vec::new()), 0);
    assert_eq!(scan_range(&Vec::new(), 5), (0, 0));
    assert_eq!(records_before(&blocks, 0), 0);
    assert_eq!(records_before(&blocks, 7), 700);
}

#[test]
fn search_falls_back_without_usable_statistics() {
    let mut blocks = ranged_blocks(&[(0, 1), (1, 3), (3, 3)], 10);
    blocks[1].max_value = None;
    assert!(!stats_are_usable(&blocks));
    assert_eq!(scan_range(&blocks, 3), (0, 30));
    assert_eq!(scan_range(&blocks, 99), (0, 30));
    let unsorted = ranged_blocks(&[(0, 1), (2, 5), (1, 6)], 10);
    assert!(!stats_are_usable(&unsorted));
    assert_eq!(scan_range(&unsorted, 2), (0, 30));
    let falling_max = ranged_blocks(&[(0, 5), (1, 4)], 10);
    assert!(!stats_are_usable(&falling_max));
    assert!(stats_are_usable(&Vec::new()));
    assert!(stats_are_usable(&ranged_blocks(&[(3, 3)], 1)));
}

#[test]
fn stats_guided_skip() {
    let per_block = gbam_tools::SIZE_LIMIT / 4;
    let mut records = Vec::new();
    for block in 0..10 {
        let refid = if block < 4 { block } else if block < 6 { 7 } else { block + 4 };
        for k in 0..per_block {
            records.push(aligned(refid as i32, (k % 50) as i32, &[m(10)]));
        }
    }
    let refs: Vec<(String, i32)> = (0..14).map(|r| (format!("ref{}", r), 60)).collect();
    let (file, meta) = write_file(&records, refs);
    assert_eq!(meta.view_blocks(&Fields::RefID).len(), 10);
    assert_eq!(scan_range(meta.view_blocks(&Fields::RefID), 7), (4 * per_block, 6 * per_block));
    // Only the blocks of the selected records are handed over: a read of
    // any other record would fail.
    let needed = |f: Fields, j: usize| {
        (f == Fields::RefID || f == Fields::Pos || f == Fields::RawCigar || f == Fields::NCigar)
            && (j == 4 || j == 5)
    };
    let reader = depth_reader(&file, meta, needed);
    let coverage = calc_depth(&reader, 7, Vec::new(), 60).unwrap();
    let mut expected = vec![0i32; 60];
    for k in 0..2 * per_block {
        let pos = k % per_block % 50;
        for p in pos..pos + 10 {
            expected[p] += 1;
        }
    }
    assert_eq!(coverage, expected);
    assert_eq!(calc_depth(&reader, 3, Vec::new(), 60), Err(DepthError::Unreadable(3 * per_block)));
    assert_eq!(calc_depth(&reader, 5, Vec::new(), 60).unwrap(), vec![0; 60]);
}

#[test]
fn names_map_to_reference_ids() {
    let refs = vec![
        ("chr1".to_string(), 10),
        ("chr2".to_string(), 20),
        ("dup".to_string(), 30),
        ("dup".to_string(), 40),
    ];
    assert_eq!(find_ref_id(&refs, &"chr1".to_string()), Some(0));
    assert_eq!(find_ref_id(&refs, &"chr2".to_string()), Some(1));
    assert_eq!(find_ref_id(&refs, &"dup".to_string()), Some(3));
    assert_eq!(find_ref_id(&refs, &"chrX".to_string()), None);
    assert_eq!(find_ref_id(&Vec::new(), &"chr1".to_string()), None);
    let names = vec!["chr2".to_string(), "nope".to_string(), "dup".to_string()];
    let mapping = get_chr_name_mapping(&names, &refs);
    assert_eq!(
        mapping,
        vec![
            ("chr2".to_string(), Some(1)),
            ("nope".to_string(), None),
            ("dup".to_string(), Some(3)),
        ]
    );
}

#[test]
fn depth_refuses_more_records_than_it_can_count() {
    let mut meta = FileMeta::new(Codecs::Gzip, vec![("c".to_string(), 5)]);
    meta.fields[Fields::RefID.index()].blocks.push(BlockMeta {
        seekpos: 26,
        numitems: u32::MAX,
        max_value: None,
        min_value: None,
    });
    let template = ParsingTemplate::new_with(&[Fields::RefID, Fields::Pos, Fields::RawCigar]);
    let reader = Reader::new_with_meta(template, meta).unwrap();
    assert_eq!(reader.amount, u32::MAX as usize);
    assert_eq!(calc_depth(&reader, 0, Vec::new(), 5), Err(DepthError::TooManyRecords));
}
