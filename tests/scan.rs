use std::io::{Read, Write};

use count_cat::archive::{seek, BlockReader};
use count_cat::block_index::{locate, parse_block_index, read_le_u64, BlockEntry};
use count_cat::cli::{path_exists, ThreeFileArgs};
use count_cat::decoder::to_upper;
use count_cat::distributor::{count, count_record, decode_record, lengths_fit};
use count_cat::error::ScanError;
use count_cat::record_index::{parse_decimal, parse_record_index, split_bytes, SequenceRecord};
use count_cat::scanner::{count_class, count_pattern, Matcher};

/// Compresses each piece into its own block and returns the archive with the
/// block index that describes it.
fn build_archive(pieces: &[&[u8]]) -> (Vec<u8>, Vec<u8>) {
    let mut writer = noodles_bgzf::Writer::new(Vec::new());
    let mut pairs: Vec<(u64, u64)> = Vec::new();
    let mut uncompressed: u64 = 0;
    for piece in pieces {
        pairs.push((writer.position(), uncompressed));
        writer.write_all(piece).unwrap();
        writer.flush().unwrap();
        uncompressed += piece.len() as u64;
    }
    let data = writer.finish().unwrap();
    (data, gzi_bytes(&pairs))
}

fn gzi_bytes(pairs: &[(u64, u64)]) -> Vec<u8> {
    let mut out = (pairs.len() as u64).to_le_bytes().to_vec();
    for (c, u) in pairs {
        out.extend_from_slice(&c.to_le_bytes());
        out.extend_from_slice(&u.to_le_bytes());
    }
    out
}

fn record(name: &str, length: u64, offset: u64, line_bases: u32, line_width: u32) -> SequenceRecord {
    SequenceRecord { name: name.as_bytes().to_vec(), length, offset, line_bases, line_width }
}

fn cat() -> Matcher {
    Matcher::Fixed(b"CAT".to_vec())
}

#[test]
fn overlapping_matches_are_counted() {
    assert_eq!(count_pattern(b"CATCAT", b"CAT"), 2);
    assert_eq!(count_pattern(b"CCATT", b"CAT"), 1);
    assert_eq!(count_pattern(b"", b"CAT"), 0);
    assert_eq!(count_pattern(b"CA", b"CAT"), 0);
    assert_eq!(count_pattern(b"AAAA", b"AA"), 3);
    assert_eq!(count_pattern(b"CAT", b""), 0);
}

#[test]
fn class_matcher_counts_single_bytes() {
    assert_eq!(count_class(b"GATTACAGG", b"G"), 3);
    assert_eq!(count_class(b"GATTACAGG", b"GC"), 4);
    assert_eq!(count_class(b"", b"G"), 0);
    let m = Matcher::AnyOf(b"G".to_vec());
    assert_eq!(m.count_in(b"GGCG"), 3);
}

#[test]
fn upper_casing_touches_letters_only() {
    assert_eq!(to_upper(b'c'), b'C');
    assert_eq!(to_upper(b'z'), b'Z');
    assert_eq!(to_upper(b'A'), b'A');
    assert_eq!(to_upper(b'\n'), b'\n');
    assert_eq!(to_upper(b'{'), b'{');
}

#[test]
fn mixed_case_record_counts_every_cat() {
    let (data, gzi) = build_archive(&[b"catCatCAT\n"]);
    let blocks = parse_block_index(&gzi).unwrap();
    let rec = record("r", 9, 0, 9, 10);
    assert_eq!(decode_record(&data, &blocks, &rec).unwrap(), b"CATCATCAT".to_vec());
    assert_eq!(count_record(&data, &blocks, &rec, &cat()), Ok(3));
}

#[test]
fn end_to_end_single_record() {
    let (data, gzi) = build_archive(&[b"catCAT\n"]);
    let blocks = parse_block_index(&gzi).unwrap();
    assert_eq!(blocks, vec![BlockEntry { compressed_offset: 0, uncompressed_offset: 0 }]);
    let recs = parse_record_index(b"chrT\t6\t0\t6\t7\n").unwrap();
    assert_eq!(recs.len(), 1);
    assert_eq!(recs[0].name, b"chrT".to_vec());
    assert_eq!((recs[0].length, recs[0].offset, recs[0].line_bases, recs[0].line_width), (6, 0, 6, 7));
    assert_eq!(decode_record(&data, &blocks, &recs[0]).unwrap(), b"CATCAT".to_vec());
    assert_eq!(count(&data, &blocks, &recs, &cat()), Ok(2));
}

#[test]
fn record_spanning_blocks_is_contiguous() {
    let (data, gzi) = build_archive(&[b">a\nACGT\nAC", b"GT\nCA", b"T\n"]);
    let blocks = parse_block_index(&gzi).unwrap();
    assert_eq!(blocks.len(), 3);
    let rec = record("a", 11, 3, 4, 5);
    assert_eq!(decode_record(&data, &blocks, &rec).unwrap(), b"ACGTACGTCAT".to_vec());
    assert_eq!(count_record(&data, &blocks, &rec, &cat()), Ok(1));
    // Starting inside the second block.
    let tail = record("t", 6, 8, 4, 5);
    assert_eq!(decode_record(&data, &blocks, &tail).unwrap(), b"ACGTCA".to_vec());
}

#[test]
fn seek_lands_on_full_decode_offsets() {
    let pieces: [&[u8]; 3] = [b"AACCG", b"GTTAC", b"AT"];
    let (data, gzi) = build_archive(&pieces);
    let blocks = parse_block_index(&gzi).unwrap();
    let mut full = Vec::new();
    noodles_bgzf::Reader::new(&data[..]).read_to_end(&mut full).unwrap();
    assert_eq!(full, b"AACCGGTTACAT".to_vec());
    for target in 0..full.len() {
        let mut rd = seek(&data, &blocks, target as u64).unwrap();
        let mut got = Vec::new();
        while let Ok(Some(b)) = rd.read_byte() {
            got.push(b);
        }
        assert_eq!(got, full[target..].to_vec());
    }
}

#[test]
fn block_reader_reads_whole_stream() {
    let (data, _) = build_archive(&[b"AB", b"", b"CD"]);
    let mut rd = BlockReader::new(&data, 0);
    let mut got = Vec::new();
    loop {
        match rd.read_byte() {
            Ok(Some(b)) => got.push(b),
            Ok(None) => break,
            Err(e) => panic!("unexpected error {:?}", e),
        }
    }
    assert_eq!(got, b"ABCD".to_vec());
}

#[test]
fn indexed_total_equals_full_decode_total() {
    let pieces: [&[u8]; 4] = [b">x\nCATGC\nAT", b"CAT\nCCATT\n>y\n", b"catcA\nT\n>z\n", b"GGCAT\nCAT\n"];
    let (data, gzi) = build_archive(&pieces);
    let blocks = parse_block_index(&gzi).unwrap();
    let fai = b"x\t15\t3\t5\t6\nz\t8\t35\t5\t6\ny\t6\t24\t5\t6\n";
    let recs = parse_record_index(fai).unwrap();
    let total = count(&data, &blocks, &recs, &cat()).unwrap();

    let mut full = Vec::new();
    noodles_bgzf::Reader::new(&data[..]).read_to_end(&mut full).unwrap();
    let mut reference = 0u64;
    for r in &recs {
        let mut seq = Vec::new();
        let mut k = r.offset as usize;
        while seq.len() < r.length as usize {
            if full[k] != b'\n' {
                seq.push(full[k].to_ascii_uppercase());
            }
            k += 1;
        }
        reference += count_pattern(&seq, b"CAT");
    }
    assert_eq!(total, reference);
    assert_eq!(total, 8);
}

#[test]
fn repeated_scans_agree() {
    let (data, gzi) = build_archive(&[b"CATCAT\nCA", b"T\n"]);
    let blocks = parse_block_index(&gzi).unwrap();
    let recs = vec![record("a", 9, 0, 6, 7), record("b", 3, 7, 6, 7)];
    let first = count(&data, &blocks, &recs, &cat());
    let second = count(&data, &blocks, &recs, &cat());
    assert_eq!(first, Ok(4));
    assert_eq!(first, second);
}

#[test]
fn block_index_count_mismatch_is_malformed() {
    let mut two_stated_one_present = 2u64.to_le_bytes().to_vec();
    two_stated_one_present.extend_from_slice(&[0u8; 16]);
    assert_eq!(parse_block_index(&two_stated_one_present), Err(ScanError::MalformedIndex));
    let mut extra = gzi_bytes(&[(0, 0)]);
    extra.push(0);
    assert_eq!(parse_block_index(&extra), Err(ScanError::MalformedIndex));
    assert_eq!(parse_block_index(&[0u8; 7]), Err(ScanError::MalformedIndex));
    assert_eq!(
        parse_block_index(&0u64.to_le_bytes()),
        Ok(vec![BlockEntry { compressed_offset: 0, uncompressed_offset: 0 }])
    );
}

#[test]
fn block_index_without_first_block_gets_it_added() {
    let (data, _) = build_archive(&[b"CATCA", b"T\nCAT\n"]);
    let second = {
        let mut w = noodles_bgzf::Writer::new(Vec::new());
        w.write_all(b"CATCA").unwrap();
        w.flush().unwrap();
        w.position()
    };
    let gzi = gzi_bytes(&[(second, 5)]);
    let blocks = parse_block_index(&gzi).unwrap();
    assert_eq!(
        blocks,
        vec![
            BlockEntry { compressed_offset: 0, uncompressed_offset: 0 },
            BlockEntry { compressed_offset: second, uncompressed_offset: 5 },
        ]
    );
    let rec = record("r", 6, 0, 6, 7);
    assert_eq!(decode_record(&data, &blocks, &rec).unwrap(), b"CATCAT".to_vec());
    let tail = record("t", 3, 7, 6, 7);
    assert_eq!(count_record(&data, &blocks, &tail, &cat()), Ok(1));
}

#[test]
fn unsorted_block_index_is_malformed() {
    let bytes = gzi_bytes(&[(0, 0), (100, 500), (50, 900)]);
    assert_eq!(parse_block_index(&bytes), Err(ScanError::MalformedIndex));
}

#[test]
fn block_index_entries_are_read_little_endian() {
    let bytes = gzi_bytes(&[(0, 0), (0x1234, 0x10000)]);
    assert_eq!(
        parse_block_index(&bytes).unwrap(),
        vec![
            BlockEntry { compressed_offset: 0, uncompressed_offset: 0 },
            BlockEntry { compressed_offset: 0x1234, uncompressed_offset: 0x10000 },
        ]
    );
    assert_eq!(read_le_u64(&[1, 2, 0, 0, 0, 0, 0, 0x80, 9], 0), 0x8000_0000_0000_0201);
    assert_eq!(read_le_u64(&[9, 1, 0, 0, 0, 0, 0, 0, 0], 1), 1);
}

#[test]
fn locate_picks_last_block_not_after_target() {
    let blocks = vec![
        BlockEntry { compressed_offset: 0, uncompressed_offset: 0 },
        BlockEntry { compressed_offset: 10, uncompressed_offset: 100 },
        BlockEntry { compressed_offset: 20, uncompressed_offset: 200 },
    ];
    assert_eq!(locate(&blocks, 0), Some(0));
    assert_eq!(locate(&blocks, 99), Some(0));
    assert_eq!(locate(&blocks, 100), Some(1));
    assert_eq!(locate(&blocks, 250), Some(2));
    assert_eq!(locate(&blocks[1..], 50), None);
    assert_eq!(locate(&[], 5), None);
}

#[test]
fn offset_beyond_index_is_out_of_range() {
    let (data, gzi) = build_archive(&[b"CATCAT\n"]);
    let blocks = parse_block_index(&gzi).unwrap();
    let rec = record("far", 3, 100, 6, 7);
    assert_eq!(count_record(&data, &blocks, &rec, &cat()), Err(ScanError::OffsetOutOfRange));
    let late = vec![BlockEntry { compressed_offset: 0, uncompressed_offset: 5 }];
    assert_eq!(
        decode_record(&data, &late, &record("early", 1, 2, 6, 7)),
        Err(ScanError::OffsetOutOfRange)
    );
    let past_archive = vec![BlockEntry { compressed_offset: 1_000_000, uncompressed_offset: 0 }];
    assert_eq!(
        decode_record(&data, &past_archive, &record("p", 1, 0, 6, 7)),
        Err(ScanError::OffsetOutOfRange)
    );
}

#[test]
fn short_archive_truncates_record() {
    let (data, gzi) = build_archive(&[b"CATCAT\n"]);
    let blocks = parse_block_index(&gzi).unwrap();
    let rec = record("long", 10, 0, 6, 7);
    assert_eq!(decode_record(&data, &blocks, &rec), Err(ScanError::TruncatedRecord));
    let empty = record("empty", 0, 7, 6, 7);
    assert_eq!(decode_record(&data, &blocks, &empty), Ok(vec![]));
}

#[test]
fn corrupt_block_is_a_decompression_error() {
    let (mut data, gzi) = build_archive(&[b"CATCATCATCAT\n"]);
    let blocks = parse_block_index(&gzi).unwrap();
    let mid = 20;
    data[mid] ^= 0xff;
    data[mid + 1] ^= 0xff;
    let rec = record("r", 12, 0, 12, 13);
    assert_eq!(decode_record(&data, &blocks, &rec), Err(ScanError::DecompressionError));
    let garbage = vec![0u8; 40];
    assert_eq!(
        decode_record(&garbage, &blocks, &rec),
        Err(ScanError::DecompressionError)
    );
}

#[test]
fn first_failing_record_stops_the_scan() {
    let (data, gzi) = build_archive(&[b"CATCAT\n"]);
    let blocks = parse_block_index(&gzi).unwrap();
    let recs = vec![record("ok", 6, 0, 6, 7), record("far", 1, 50, 6, 7), record("long", 50, 0, 6, 7)];
    assert_eq!(count(&data, &blocks, &recs, &cat()), Err(ScanError::OffsetOutOfRange));
    assert_eq!(count(&data, &blocks, &[], &cat()), Ok(0));
}

#[test]
fn record_index_rows_are_parsed() {
    let recs = parse_record_index(b"a\t10\t3\t60\t61\nbb\t0\t20\t0\t0").unwrap();
    assert_eq!(recs.len(), 2);
    assert_eq!(recs[0].name, b"a".to_vec());
    assert_eq!((recs[0].length, recs[0].offset, recs[0].line_bases, recs[0].line_width), (10, 3, 60, 61));
    assert_eq!(recs[1].name, b"bb".to_vec());
    assert_eq!((recs[1].length, recs[1].offset), (0, 20));
    assert_eq!(parse_record_index(b"").unwrap().len(), 0);
}

#[test]
fn malformed_record_index_rows_are_refused() {
    assert!(matches!(parse_record_index(b"a\t10\t3\t60\n"), Err(ScanError::MalformedIndex)));
    assert!(matches!(parse_record_index(b"a\t1x\t3\t60\t61\n"), Err(ScanError::MalformedIndex)));
    assert!(matches!(parse_record_index(b"a\t1\t3\t61\t60\n"), Err(ScanError::MalformedIndex)));
    assert!(matches!(parse_record_index(b"a\t1\t3\t4294967296\t4294967297\n"), Err(ScanError::MalformedIndex)));
    assert!(matches!(parse_record_index(b"a\t1\t2\t3\t4\n\nb\t1\t2\t3\t4\n"), Err(ScanError::MalformedIndex)));
}

#[test]
fn decimal_fields_parse_within_bounds() {
    assert_eq!(parse_decimal(b"0", 10), Some(0));
    assert_eq!(parse_decimal(b"1234", u64::MAX), Some(1234));
    assert_eq!(parse_decimal(b"18446744073709551615", u64::MAX), Some(u64::MAX));
    assert_eq!(parse_decimal(b"18446744073709551616", u64::MAX), None);
    assert_eq!(parse_decimal(b"11", 10), None);
    assert_eq!(parse_decimal(b"", 10), None);
    assert_eq!(parse_decimal(b"-1", 10), None);
}

#[test]
fn split_keeps_empty_pieces() {
    assert_eq!(split_bytes(b"a\tbc\t", b'\t'), vec![b"a".to_vec(), b"bc".to_vec(), vec![]]);
    assert_eq!(split_bytes(b"", b'\t'), vec![Vec::<u8>::new()]);
}

#[test]
fn lengths_that_overflow_are_detected() {
    assert!(lengths_fit(&[record("a", 5, 0, 1, 1), record("b", 7, 0, 1, 1)]));
    assert!(!lengths_fit(&[record("a", u64::MAX, 0, 1, 1), record("b", 1, 0, 1, 1)]));
    assert!(lengths_fit(&[]));
}

#[test]
fn path_check_names_missing_path() {
    assert_eq!(path_exists("data.fa.gz", true), Ok("data.fa.gz".to_string()));
    assert_eq!(
        path_exists("nope.gz", false),
        Err("The specified path 'nope.gz' does not exist".to_string())
    );
    let args = ThreeFileArgs {
        input_path: "a.gz".to_string(),
        fai_path: "a.gz.fai".to_string(),
        gzi_path: "a.gz.gzi".to_string(),
    };
    assert_eq!(args.fai_path, "a.gz.fai");
    assert_eq!(args.gzi_path, "a.gz.gzi");
    assert_eq!(args.input_path, "a.gz");
}

#[test]
fn long_record_over_full_blocks() {
    let mut text = Vec::new();
    for _ in 0..3000 {
        for _ in 0..20 {
            text.extend_from_slice(b"cat");
        }
        text.push(b'\n');
    }
    let (data, gzi) = build_archive(&[&text]);
    let blocks = parse_block_index(&gzi).unwrap();
    let rec = record("long", 180_000, 0, 60, 61);
    let decoded = decode_record(&data, &blocks, &rec).unwrap();
    assert_eq!(decoded.len(), 180_000);
    assert!(decoded.chunks(3).all(|c| c == b"CAT"));
    assert_eq!(count(&data, &blocks, &[rec], &cat()), Ok(60_000));
}
