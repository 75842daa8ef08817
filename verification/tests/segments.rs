//! Segments: writing, reading, rewriting, and looking up records.

use lol_crawler::config::enabled_regions;
use lol_crawler::days::{day_is_done, may_recompact};
use lol_crawler::inspect::summarize;
use lol_crawler::recompact::{
    add_block, boxed, check_rewrite, finish_rewrite, recompact_segment, verify_rewrite,
    write_columnar_block, RecompactError, RecompactOutcome, Rewrite,
    COLUMNAR_RECOMPACT_ZSTD_LEVEL,
};
use lol_crawler::record::{MatchRecord, Participant, TimelineLite};
use lol_crawler::segment::{
    decode_row_block, idx_to_bytes, parse_idx_entries, read_record_at, read_segment_layout,
    read_segment_records, validate_segment, IdxEntry, LookupError, SegmentError, SegmentFault,
    COL_MAGIC, SEG_MAGIC,
};
use lol_crawler::store::{CommitStep, PlatformRows, Store, StoreRows};

const TODAY: &str = "2026-07-05";

fn platform() -> &'static str {
    enabled_regions()[0].platform
}

fn new_store() -> Store {
    Store::open(StoreRows {
        players: vec![],
        cohort: vec![],
        outsiders: vec![],
        progress: vec![],
        played: vec![],
        frontier: vec![],
        nodes: vec![],
        meta: vec![],
        platforms: enabled_regions()
            .iter()
            .map(|_| PlatformRows { bitmap: None, valid: None })
            .collect(),
    })
    .unwrap()
}

fn mk_match(platform: &str, game_id: u64, duration_s: u32) -> MatchRecord {
    MatchRecord {
        schema_version: 1,
        game_id,
        platform: platform.to_string(),
        queue_id: 420,
        game_start_ms: game_id as i64,
        duration_s,
        blue_won: true,
        game_version: String::new(),
        patch_major: 16,
        patch_minor: 1,
        participants: (0..10)
            .map(|i| Participant {
                player_id: 0,
                champion_id: 1,
                position: (i % 5) as u32,
                spell1: 0,
                spell2: 0,
                runes: vec![],
                stats: vec![],
            })
            .collect(),
        timeline: None,
        bans: vec![],
    }
}

/// The two files of a day.
struct Files {
    seg: Vec<u8>,
    idx: Vec<u8>,
}

fn store_matches(
    store: &mut Store,
    platform: &str,
    first_game_id: u64,
    n: usize,
    puuid_prefix: &str,
) -> Vec<Vec<u8>> {
    let puuids: Vec<String> = (0..10).map(|slot| format!("{puuid_prefix}-{slot:02}")).collect();
    let mut out = Vec::new();
    for i in 0..n {
        let game_id = first_game_id + i as u64;
        let mut rec = mk_match(platform, game_id, 1800);
        store.store_match(&mut rec, &puuids, game_id, false, TODAY).unwrap();
        out.push(rec.encode_to_vec());
    }
    out
}

/// Writes out what a store holds, as far as segments go.
fn commit(store: &mut Store, platform: &str, files: &mut Files) {
    for step in store.commit() {
        match step {
            CommitStep::Checkpoint => {
                let _ = store.checkpoint();
            }
            CommitStep::Flush(p) => {
                assert_eq!(p, platform);
                if let Some((date, block)) =
                    store.segment_block(&p, files.seg.len() as u64).unwrap()
                {
                    assert_eq!(date, TODAY);
                    files.seg.extend_from_slice(&block.seg);
                    files.idx.extend_from_slice(&block.idx);
                }
                store.segment_written(&p);
            }
            CommitStep::Bitmaps => store.bitmaps_written(),
        }
    }
}

fn stored(first_game_id: u64, n: usize, prefix: &str) -> (Files, Vec<Vec<u8>>) {
    let mut store = new_store();
    let mut files = Files { seg: vec![], idx: vec![] };
    let records = store_matches(&mut store, platform(), first_game_id, n, prefix);
    commit(&mut store, platform(), &mut files);
    (files, records)
}

/// Rewrites the files as a recompaction asks for.
fn recompact(files: &mut Files) -> Result<RecompactOutcome, RecompactError> {
    let done = recompact_segment(&files.seg, Some(&files.idx))?;
    match done.rewrite {
        Rewrite::Keep { truncate_to, idx } => {
            if let Some(n) = truncate_to {
                files.seg.truncate(n as usize);
            }
            if let Some(bytes) = idx {
                files.idx = bytes;
            }
        }
        Rewrite::Replace { seg, idx } => {
            files.seg = seg;
            files.idx = idx;
        }
    }
    Ok(done.outcome)
}

fn assert_idx_resolves(files: &Files, records: &[Vec<u8>]) {
    let entries = parse_idx_entries(&files.idx).unwrap();
    assert_eq!(entries.len(), records.len());
    for (entry, raw) in entries.iter().zip(records) {
        let rec = MatchRecord::decode(raw).unwrap();
        assert_eq!(entry.game_id, rec.game_id);
        let got = read_record_at(&files.seg, entry.block_off, entry.rec_off).unwrap();
        assert_eq!(got.as_slice(), raw.as_slice());
    }
}

#[test]
fn read_record_at_rejects_oversized_segment_block_header() {
    let mut header = Vec::new();
    header.extend_from_slice(&SEG_MAGIC.to_le_bytes());
    header.extend_from_slice(&crc32fast::hash(&[]).to_le_bytes());
    header.extend_from_slice(&0u32.to_le_bytes());
    header.extend_from_slice(&u32::MAX.to_le_bytes());

    let err = read_record_at(&header, 0, 0).unwrap_err().message(0);

    assert!(err.contains("uncompressed segment block too large"));
}

#[test]
fn mixed_block_segment_reads_in_order() {
    let (mut files, mut want) = stored(10_000, 3, "mix");
    let columnar_records: Vec<Vec<u8>> = (20_000..20_003)
        .map(|game_id| mk_match(platform(), game_id, 1800).encode_to_vec())
        .collect();
    let block = write_columnar_block(&columnar_records, COLUMNAR_RECOMPACT_ZSTD_LEVEL).unwrap();
    files.seg.extend_from_slice(&block);
    want.extend(columnar_records);

    assert_eq!(read_segment_records(&files.seg).unwrap(), want);
}

#[test]
fn recompact_segment_end_to_end_is_idempotent() {
    let (mut files, records) = stored(30_000, 24, "compact");

    let outcome = recompact(&mut files).unwrap();
    assert!(!outcome.already_compacted);
    assert!(outcome.rebuilt_idx);
    assert_eq!(outcome.record_count, records.len());
    assert_eq!(read_segment_records(&files.seg).unwrap(), records);
    assert_idx_resolves(&files, &records);

    let seg_bytes = files.seg.clone();
    let idx_bytes = files.idx.clone();
    let second = recompact(&mut files).unwrap();
    assert!(second.already_compacted);
    assert!(!second.rebuilt_idx);
    assert_eq!(second.record_count, records.len());
    assert_eq!(files.seg, seg_bytes);
    assert_eq!(files.idx, idx_bytes);
}

#[test]
fn recompact_cleans_tmps_and_heals_stale_idx() {
    let (mut files, records) = stored(40_000, 12, "crash");

    let outcome = recompact(&mut files).unwrap();
    assert!(!outcome.already_compacted);
    assert_eq!(read_segment_records(&files.seg).unwrap(), records);

    let compacted_seg = files.seg.clone();
    files.idx = b"stale".to_vec();
    let healed = recompact(&mut files).unwrap();
    assert!(healed.already_compacted);
    assert!(healed.rebuilt_idx);
    assert_eq!(files.seg, compacted_seg);
    assert_idx_resolves(&files, &records);
}

#[test]
fn recompact_segment_drops_unindexed_garbage_tail() {
    let (mut files, records) = stored(60_000, 8, "tail-garbage");
    files.seg.extend_from_slice(b"garbage tail bytes");

    let outcome = recompact(&mut files).unwrap();
    assert_eq!(outcome.dropped_tail_bytes, b"garbage tail bytes".len() as u64);
    assert_eq!(outcome.record_count, records.len());
    assert_eq!(read_segment_records(&files.seg).unwrap(), records);
    assert_idx_resolves(&files, &records);
}

#[test]
fn recompact_segment_refuses_tail_with_idx_entry_inside_it() {
    let (mut files, records) = stored(70_000, 8, "tail-indexed");
    let tail_off = files.seg.len() as u64;
    files.seg.extend_from_slice(b"garbage tail bytes");
    files.idx.extend_from_slice(&idx_to_bytes(&vec![IdxEntry {
        game_id: 999_999,
        block_off: tail_off,
        rec_off: 0,
    }]));
    let seg_before = files.seg.clone();
    let idx_before = files.idx.clone();

    let err = recompact(&mut files).unwrap_err();

    assert!(err.message().contains("refusing to drop torn segment tail"));
    assert_eq!(
        err,
        RecompactError::TailIndexed {
            valid_len: tail_off,
            dropped_bytes: 18,
            game_id: 999_999,
            block_off: tail_off,
        }
    );
    assert_eq!(files.seg, seg_before);
    assert_eq!(files.idx, idx_before);
    assert_eq!(read_segment_records(&files.seg).unwrap(), records);
}

#[test]
fn recompact_segment_drops_unindexed_truncated_header_tail() {
    let (mut files, records) = stored(80_000, 8, "tail-header");
    files.seg.extend_from_slice(&SEG_MAGIC.to_le_bytes()[..3]);

    let outcome = recompact(&mut files).unwrap();
    assert_eq!(outcome.dropped_tail_bytes, 3);
    assert_eq!(read_segment_records(&files.seg).unwrap(), records);
    assert_idx_resolves(&files, &records);
}

#[test]
fn read_record_at_handles_row_and_columnar_blocks() {
    let (mut files, records) = stored(50_000, 5, "point");

    let row_entries = parse_idx_entries(&files.idx).unwrap();
    let row_got =
        read_record_at(&files.seg, row_entries[2].block_off, row_entries[2].rec_off).unwrap();
    assert_eq!(row_got, records[2]);

    recompact(&mut files).unwrap();
    let col_entries = parse_idx_entries(&files.idx).unwrap();
    assert_eq!(col_entries[2].rec_off, 2);
    let col_got =
        read_record_at(&files.seg, col_entries[2].block_off, col_entries[2].rec_off).unwrap();
    assert_eq!(col_got, records[2]);
}

#[test]
fn a_malformed_index_keeps_a_torn_tail() {
    let (mut files, _) = stored(1, 2, "malformed");
    let valid_len = files.seg.len() as u64;
    files.seg.extend_from_slice(b"torn");
    files.idx.push(0);
    let err = recompact(&mut files).unwrap_err();
    assert_eq!(err, RecompactError::TailWithMalformedIdx { valid_len, dropped_bytes: 4 });
    assert!(err.message().starts_with("refusing to drop torn segment tail"));
}

#[test]
fn a_block_that_is_no_record_is_not_rewritten() {
    // A row block with one row of one byte, which no record is written as.
    let rows = [1u8, 0, 0, 0, 0xff];
    let frame = zstd::bulk::compress(&rows, 3).unwrap();
    let mut seg = Vec::new();
    seg.extend_from_slice(&SEG_MAGIC.to_le_bytes());
    seg.extend_from_slice(&crc32fast::hash(&frame).to_le_bytes());
    seg.extend_from_slice(&(frame.len() as u32).to_le_bytes());
    seg.extend_from_slice(&(rows.len() as u32).to_le_bytes());
    seg.extend_from_slice(&frame);
    assert_eq!(read_segment_records(&seg).unwrap(), vec![vec![0xff]]);
    let err = recompact_segment(&seg, None).map(|r| r.outcome).unwrap_err();
    assert_eq!(err.message(), "decode game_id at block 0 rec_off 0");
}

#[test]
fn lookups_that_fail_say_why() {
    let (files, _) = stored(1, 2, "lookup");
    assert_eq!(read_record_at(&files.seg, 0, 1).unwrap_err(), LookupError::NoSuchRow(1));
    let off = files.seg.len() as u64;
    assert_eq!(
        read_record_at(&files.seg, off, 0).unwrap_err(),
        LookupError::Block(SegmentError { at: off, fault: SegmentFault::TruncatedHeader })
    );
    let mut broken = files.seg.clone();
    let last = broken.len() - 1;
    broken[last] ^= 1;
    assert_eq!(
        read_record_at(&broken, 0, 0).unwrap_err(),
        LookupError::Block(SegmentError { at: 0, fault: SegmentFault::CrcMismatch })
    );
    broken[0] ^= 1;
    assert!(read_record_at(&broken, 0, 0).unwrap_err().message(0).contains("magic"));

    let mut files = files;
    recompact(&mut files).unwrap();
    let err = read_record_at(&files.seg, 0, 9).unwrap_err();
    assert_eq!(err, LookupError::NoSuchOrdinal(9));
    assert_eq!(err.message(0), "columnar record ordinal 9 not found in block 0");
}

#[test]
fn a_torn_tail_is_cut_off_on_restart() {
    let (files, _) = stored(1, 3, "restart");
    let mut torn = files.seg.clone();
    torn.extend_from_slice(&files.seg[..20]);
    assert_eq!(validate_segment(&torn), files.seg.len());
    assert_eq!(validate_segment(&files.seg), files.seg.len());
}

#[test]
fn a_block_names_its_checksum_and_lengths() {
    let (files, records) = stored(5, 1, "header");
    let word = |i: usize| u32::from_le_bytes(files.seg[i..i + 4].try_into().unwrap());
    let frame = &files.seg[16..];
    assert_eq!(word(0), SEG_MAGIC);
    assert_eq!(word(4), crc32fast::hash(frame));
    assert_eq!(word(8) as usize, frame.len());
    assert_eq!(word(12) as usize, records[0].len() + 4);
    let rows = zstd::bulk::decompress(frame, 1 << 20).unwrap();
    assert_eq!(&rows[4..], records[0].as_slice());
}

#[test]
fn many_records_make_several_blocks() {
    let records: Vec<Vec<u8>> =
        (0..6_001u64).map(|id| mk_match("KR", id, 1800).encode_to_vec()).collect();
    let seg = write_columnar_block(&records, 1).unwrap();
    // The same records as one row block, which a recompaction splits.
    let mut rows = Vec::new();
    for r in &records {
        rows.extend_from_slice(&(r.len() as u32).to_le_bytes());
        rows.extend_from_slice(r);
    }
    let frame = zstd::bulk::compress(&rows, 1).unwrap();
    let mut row_seg = Vec::new();
    row_seg.extend_from_slice(&SEG_MAGIC.to_le_bytes());
    row_seg.extend_from_slice(&crc32fast::hash(&frame).to_le_bytes());
    row_seg.extend_from_slice(&(frame.len() as u32).to_le_bytes());
    row_seg.extend_from_slice(&(rows.len() as u32).to_le_bytes());
    row_seg.extend_from_slice(&frame);
    let mut files = Files { seg: row_seg, idx: vec![] };
    assert_eq!(read_segment_records(&files.seg).unwrap(), records);
    let outcome = recompact(&mut files).unwrap();
    assert_eq!(outcome.record_count, 6_001);
    let entries = parse_idx_entries(&files.idx).unwrap();
    assert_eq!(entries[5_999].rec_off, 5_999);
    assert_eq!(entries[6_000].rec_off, 0);
    assert!(entries[6_000].block_off > 0);
    assert_eq!(read_segment_records(&seg).unwrap(), records);
}

#[test]
fn rewrites_are_compared_byte_by_byte() {
    let want = vec![vec![1u8, 2], vec![3]];
    assert_eq!(verify_rewrite(&want, &want), None);
    let short = vec![vec![1u8, 2]];
    let err = verify_rewrite(&want, &short).unwrap();
    assert_eq!(err, RecompactError::VerifyCount { want: 2, got: 1 });
    assert_eq!(err.message(), "recompact verify record count mismatch: want 2 got 1");
    let other = vec![vec![1u8, 2], vec![4]];
    assert_eq!(verify_rewrite(&want, &other), Some(RecompactError::VerifyBytes { record: 1 }));
}

#[test]
fn a_frame_is_boxed_or_refused() {
    assert_eq!(boxed(3, None), Err(RecompactError::Compress));
    let block = boxed(3, Some(vec![7, 8])).unwrap();
    let mut want = COL_MAGIC.to_le_bytes().to_vec();
    want.extend(crc32fast::hash(&[7, 8]).to_le_bytes());
    want.extend(2u32.to_le_bytes());
    want.extend(3u32.to_le_bytes());
    want.extend([7, 8]);
    assert_eq!(block, want);
    assert!(boxed(u32::MAX as usize, Some(vec![])).is_ok());
    assert_eq!(boxed(u32::MAX as usize + 1, Some(vec![])), Err(RecompactError::BlockTooLarge));
}

#[test]
fn blocks_are_appended_with_their_entries() {
    let records: Vec<Vec<u8>> =
        (7..9u64).map(|id| mk_match("KR", id, 1800).encode_to_vec()).collect();
    let mut seg = vec![1u8, 2, 3];
    let mut entries = vec![IdxEntry { game_id: 1, block_off: 0, rec_off: 0 }];
    add_block(&mut seg, &mut entries, &records, &[4, 5]);
    assert_eq!(seg, vec![1, 2, 3, 4, 5]);
    assert_eq!(
        entries,
        vec![
            IdxEntry { game_id: 1, block_off: 0, rec_off: 0 },
            IdxEntry { game_id: 7, block_off: 3, rec_off: 0 },
            IdxEntry { game_id: 8, block_off: 3, rec_off: 1 },
        ]
    );
}

#[test]
fn a_rewritten_segment_is_read_back() {
    let records: Vec<Vec<u8>> =
        (0..3u64).map(|id| mk_match("KR", id, 1800).encode_to_vec()).collect();
    let seg = write_columnar_block(&records, 1).unwrap();
    assert_eq!(check_rewrite(&records, &seg), None);
    // Cut short, it ends in a tail that cannot be read.
    assert_eq!(check_rewrite(&records, &seg[..seg.len() - 1]), Some(RecompactError::VerifyTorn));
    let two = records[..2].to_vec();
    assert_eq!(
        check_rewrite(&two, &seg),
        Some(RecompactError::VerifyCount { want: 2, got: 3 })
    );
    let mut other = records.clone();
    other[1] = mk_match("KR", 9, 1800).encode_to_vec();
    assert_eq!(check_rewrite(&other, &seg), Some(RecompactError::VerifyBytes { record: 1 }));
    // A row that no record is written as.
    let rows = [1u8, 0, 0, 0, 0xff];
    let frame = zstd::bulk::compress(&rows, 3).unwrap();
    let mut bad = SEG_MAGIC.to_le_bytes().to_vec();
    bad.extend(crc32fast::hash(&frame).to_le_bytes());
    bad.extend((frame.len() as u32).to_le_bytes());
    bad.extend((rows.len() as u32).to_le_bytes());
    bad.extend(&frame);
    let err = check_rewrite(&records, &bad).unwrap();
    assert!(matches!(err, RecompactError::VerifyBadRecord(_)));
}

#[test]
fn a_checked_rewrite_replaces_both_files() {
    let (files, records) = stored(100, 3, "finish");
    let mut torn = files.seg.clone();
    torn.extend([1, 2, 3]);
    let layout = read_segment_layout(&torn).unwrap();
    let seg = write_columnar_block(&records, 1).unwrap();
    let entries = vec![IdxEntry { game_id: 100, block_off: 0, rec_off: 0 }];
    let done =
        finish_rewrite(&layout, torn.len() as u64, 5, seg.clone(), &entries).ok().unwrap();
    assert_eq!(
        done.outcome,
        RecompactOutcome {
            already_compacted: false,
            rebuilt_idx: true,
            dropped_tail_bytes: 3,
            before_seg_bytes: torn.len() as u64,
            after_seg_bytes: seg.len() as u64,
            before_idx_bytes: 5,
            after_idx_bytes: idx_to_bytes(&entries).len() as u64,
            record_count: 3,
        }
    );
    match done.rewrite {
        Rewrite::Replace { seg: new, idx } => {
            assert_eq!(new, seg);
            assert_eq!(idx, idx_to_bytes(&entries));
        }
        Rewrite::Keep { .. } => panic!("both files are replaced"),
    }
    let err = finish_rewrite(&layout, torn.len() as u64, 5, vec![], &entries)
        .map(|r| r.outcome)
        .unwrap_err();
    assert_eq!(err, RecompactError::VerifyCount { want: 3, got: 0 });
}

#[test]
fn index_entries_read_back() {
    let entries = vec![
        IdxEntry { game_id: 7, block_off: 0, rec_off: 0 },
        IdxEntry { game_id: u64::MAX, block_off: 1 << 40, rec_off: u32::MAX },
    ];
    let bytes = idx_to_bytes(&entries);
    assert_eq!(bytes.len(), 40);
    assert_eq!(&bytes[..8], &7u64.to_le_bytes());
    assert_eq!(parse_idx_entries(&bytes), Some(entries));
    assert_eq!(parse_idx_entries(&bytes[..39]), None);
}

#[test]
fn only_quiet_days_that_are_over_are_rewritten() {
    let open = vec!["2026-07-03".to_string()];
    // 2026-07-05.
    let today: i32 = chrono::Datelike::num_days_from_ce(
        &chrono::NaiveDate::from_ymd_opt(2026, 7, 5).unwrap(),
    );
    assert!(may_recompact("2026-07-04", today, &open, Some(3_600)));
    assert!(!may_recompact("2026-07-04", today, &open, Some(3_599)));
    assert!(!may_recompact("2026-07-04", today, &open, None));
    assert!(!may_recompact("2026-07-05", today, &open, Some(9_999)));
    assert!(!may_recompact("2026-07-06", today, &open, Some(9_999)));
    assert!(!may_recompact("2026-07-03", today, &open, Some(9_999)));
    assert!(!may_recompact("notes", today, &open, Some(9_999)));
    assert!(day_is_done(Some(4), 5, false, Some(3_600)));
    assert!(!day_is_done(Some(4), 5, true, Some(3_600)));
    assert!(!day_is_done(None, 5, false, Some(3_600)));
}

#[test]
fn segments_are_summed_up() {
    let mut a = mk_match("KR", 1, 1800);
    a.timeline = Some(TimelineLite::default());
    let mut b = mk_match("KR", 2, 1800);
    b.patch_minor = 10;
    let c = mk_match("KR", 3, 1800);
    let records = vec![vec![0xff], a.encode_to_vec(), b.encode_to_vec(), c.encode_to_vec()];
    let total: usize = records.iter().map(|r| r.len()).sum();
    let s = summarize(&records);
    assert_eq!((s.decoded, s.decode_errors, s.with_timeline), (3, 1, 1));
    assert_eq!(s.raw_bytes, total as u64);
    assert_eq!(s.by_patch, vec![("16.1".to_string(), 2), ("16.10".to_string(), 1)]);
    assert_eq!(s.sample.unwrap().game_id, 1);
}

#[test]
fn row_blocks_are_split_into_their_records() {
    let mut block = vec![2, 0, 0, 0, 7, 8];
    block.extend([0, 0, 0, 0]);
    let rows = (vec![vec![7, 8], vec![]], vec![0, 6]);
    assert_eq!(decode_row_block(&block, true).unwrap(), rows);
    assert_eq!(decode_row_block(&block, false).unwrap(), rows);
    for tail in [vec![9], vec![3, 0, 0, 0, 1]] {
        let mut torn = block.clone();
        torn.extend(&tail);
        assert!(decode_row_block(&torn, true).is_err());
        assert_eq!(decode_row_block(&torn, false).unwrap(), rows);
    }
}
