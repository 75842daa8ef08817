//! What becomes of old segments and of raw samples.

use crate::codec::{frame_dict_id, zstd_decoded, zstd_frame};
use crate::columnar::EncodeError;
use crate::columnar_encode::block_encoded;
use crate::messages::{encode_text, fault_text, lookup_text, recompact_text};
use crate::raw::{
    dict_decoded, dict_id_of, dict_objection, is_packed, is_trainable, match_file, names_sample,
    no_outcome, offered, packed_objection, passed_over, sample_data, settled_as, takes_samples,
    tallied, timeline_file, too_few, training_set, RawError, RawFileV, RawSampleRecompactOutcome,
    Settled,
};
use crate::recompact::{
    chunk, columnar_block, columnar_entries, columnar_files, first_behind, kept, rewrite_objection,
    tail_objection, RecompactError, RewriteV,
};
use crate::segment::{
    idx_bytes, parsed_idx, IdxEntry, LayoutV, LookupError, SegmentError, SegmentFault,
};
use crate::segment_write::{container, is_full, WriterV};
use crate::text::decimal;
use vstd::prelude::*;

verus! {

// ---- segments ----

/// A writer is full at four mebibytes.
pub proof fn law_writers_hold_four_mebibytes(w: WriterV)
    ensures
        is_full(w) <==> w.buf.len() >= 4 * 1024 * 1024,
{
}

/// A columnar block holds up to six thousand records, compressed at level
/// nineteen; the index counts its records from nothing.
pub proof fn law_columnar_blocks_hold_six_thousand(
    records: Seq<Seq<u8>>,
    k: int,
    level: int,
    off: u64,
    i: int,
)
    requires
        0 <= k < records.len(),
        0 <= i < records.len(),
        i <= u32::MAX,
    ensures
        k + 6_000 <= records.len() ==> chunk(records, k) == records.subrange(k, k + 6_000),
        k + 6_000 > records.len() ==> chunk(records, k) == records.skip(k),
        block_encoded(records) matches Ok(payload) ==> zstd_frame(payload, level).len() <= u32::MAX
            && payload.len() <= u32::MAX ==> columnar_block(records, level) == Ok::<
            Seq<u8>,
            RecompactError,
        >(container(0x4C4F_4331, payload.len() as int, zstd_frame(payload, level))),
        columnar_entries(records, off as int).len() == records.len(),
        columnar_entries(records, off as int)[i].block_off == off,
        columnar_entries(records, off as int)[i].rec_off == i,
{
    if k + 6_000 > records.len() {
        assert(chunk(records, k) =~= records.skip(k));
    }
}

/// A torn tail is dropped only if the index can be read and leads nowhere into
/// the tail, or if there is no index.
pub proof fn law_indexed_tails_are_kept(
    entries: Seq<IdxEntry>,
    idx: Seq<u8>,
    valid_len: int,
    seg_len: int,
    i: int,
)
    requires
        0 <= valid_len <= seg_len <= u64::MAX,
    ensures
        tail_objection(None, valid_len, seg_len) is None,
        parsed_idx(idx) is None ==> tail_objection(Some(idx), valid_len, seg_len) == Some(
            RecompactError::TailWithMalformedIdx {
                valid_len: valid_len as u64,
                dropped_bytes: (seg_len - valid_len) as u64,
            },
        ),
        parsed_idx(idx) == Some(entries) && 0 <= i < entries.len() && entries[i].block_off
            >= valid_len ==> tail_objection(Some(idx), valid_len, seg_len) is Some,
        parsed_idx(idx) == Some(entries) && (forall|j: int|
            0 <= j < entries.len() ==> (#[trigger] entries[j]).block_off < valid_len)
            ==> tail_objection(Some(idx), valid_len, seg_len) is None,
{
    if parsed_idx(idx) == Some(entries) {
        if 0 <= i < entries.len() && entries[i].block_off >= valid_len {
            lemma_behind(entries, valid_len, 0, i);
        }
        if forall|j: int| 0 <= j < entries.len() ==> (#[trigger] entries[j]).block_off < valid_len {
            lemma_none_behind(entries, valid_len, 0);
        }
    }
}

proof fn lemma_behind(entries: Seq<IdxEntry>, off: int, from: int, i: int)
    requires
        0 <= from <= i < entries.len(),
        entries[i].block_off >= off,
    ensures
        first_behind(entries, off, from) is Some,
    decreases i - from,
{
    if from < i && entries[from].block_off < off {
        lemma_behind(entries, off, from + 1, i);
    }
}

proof fn lemma_none_behind(entries: Seq<IdxEntry>, off: int, from: int)
    requires
        0 <= from,
        forall|j: int| 0 <= j < entries.len() ==> (#[trigger] entries[j]).block_off < off,
    ensures
        first_behind(entries, off, from) is None,
    decreases entries.len() - from,
{
    if from < entries.len() {
        assert(entries[from].block_off < off);
        lemma_none_behind(entries, off, from + 1);
    }
}

/// A rewrite passes only if it holds the same records, byte for byte.
pub proof fn law_rewrites_hold_the_same_records(want: Seq<Seq<u8>>, got: Seq<Seq<u8>>)
    ensures
        rewrite_objection(want, got) is None <==> want == got,
{
    if want.len() == got.len() {
        lemma_changed(want, got, 0);
        if rewrite_objection(want, got) is None {
            assert(want =~= got);
        }
    }
}

proof fn lemma_changed(want: Seq<Seq<u8>>, got: Seq<Seq<u8>>, from: int)
    requires
        0 <= from,
        want.len() == got.len(),
    ensures
        crate::recompact::first_changed(want, got, from) is None <==> forall|j: int|
            from <= j < want.len() ==> want[j] == got[j],
    decreases want.len() - from,
{
    if from < want.len() {
        lemma_changed(want, got, from + 1);
    }
}

/// A segment without row blocks stays as it is, but for a torn tail, which is
/// cut off, and an index that is missing or wrong, which is written anew.
pub proof fn law_columnar_segments_are_kept(
    layout: LayoutV,
    seg_len: int,
    idx: Seq<u8>,
)
    requires
        0 <= seg_len <= u64::MAX,
        layout.torn_at matches Some(at) ==> 0 <= at <= seg_len,
        layout.records.len() <= usize::MAX,
        idx.len() <= u64::MAX,
    ensures
        ({
            let with = kept(layout, seg_len, Some(idx));
            let without = kept(layout, seg_len, None);
            &&& with.outcome.already_compacted && without.outcome.already_compacted
            &&& with.outcome.record_count == layout.records.len()
            &&& with.outcome.before_seg_bytes == seg_len
            &&& with.outcome.after_seg_bytes + with.outcome.dropped_tail_bytes == seg_len
            &&& layout.torn_at is None ==> with.outcome.dropped_tail_bytes == 0
            &&& layout.torn_at matches Some(at) ==> with.outcome.after_seg_bytes == at
            &&& with.outcome.before_idx_bytes == idx.len() && without.outcome.before_idx_bytes == 0
            &&& without.outcome.rebuilt_idx
            &&& with.outcome.rebuilt_idx <==> parsed_idx(idx) != Some(layout.entries)
            &&& without.rewrite == (RewriteV::Keep {
                truncate_to: match layout.torn_at {
                    Some(at) => Some(at as u64),
                    None => None,
                },
                idx: Some(idx_bytes(layout.entries)),
            })
            &&& parsed_idx(idx) == Some(layout.entries) ==> with.rewrite == (RewriteV::Keep {
                truncate_to: match layout.torn_at {
                    Some(at) => Some(at as u64),
                    None => None,
                },
                idx: None,
            })
        }),
{
}

// ---- raw samples ----

/// A dictionary has its id behind four bytes that mark it. Bytes without the
/// mark have none.
pub proof fn law_dictionaries_are_marked(d: Seq<u8>)
    requires
        d.len() >= 8,
    ensures
        d[0] == 0x37 && d[1] == 0xA4 && d[2] == 0x30 && d[3] == 0xEC ==> dict_id_of(d) == d[4]
            + 0x100 * d[5] + 0x1_0000 * d[6] + 0x100_0000 * d[7],
        d[0] != 0x37 || d[1] != 0xA4 || d[2] != 0x30 || d[3] != 0xEC ==> dict_id_of(d) == 0,
{
    crate::format_laws::law_words_are_little_endian(d, 0);
    crate::format_laws::law_words_are_little_endian(d, 4);
}

/// A dictionary is used if it has an id and at most a hundred and twenty-eight
/// kibibytes.
pub proof fn law_usable_dictionaries(d: Seq<u8>)
    requires
        d.len() <= usize::MAX,
    ensures
        d.len() > 128 * 1024 ==> dict_objection(d) == Some(
            RawError::DictTooLarge(d.len() as usize),
        ),
        d.len() <= 128 * 1024 && dict_id_of(d) == 0 ==> dict_objection(d) == Some(
            RawError::NoDictId,
        ),
        d.len() <= 128 * 1024 && dict_id_of(d) != 0 ==> dict_objection(d) is None,
{
}

/// A dictionary is trained with at least five hundred and at most four thousand
/// samples that are old enough, need no dictionary and can be read.
pub proof fn law_training_samples(before: Seq<Seq<u8>>, f: RawFileV)
    ensures
        too_few(before.len()) <==> before.len() < 500,
        takes_samples(before.len()) <==> before.len() < 4_000,
        is_trainable(f) <==> f.old_enough && frame_dict_id(f.bytes) == 0 && zstd_decoded(
            f.bytes,
        ) is Some,
        before.len() < 4_000 && f.old_enough && frame_dict_id(f.bytes) == 0 && zstd_decoded(
            f.bytes,
        ) is Some ==> offered(before, f) == before.push(zstd_decoded(f.bytes)->0),
        before.len() >= 4_000 || !f.old_enough || frame_dict_id(f.bytes) != 0 || zstd_decoded(
            f.bytes,
        ) is None ==> offered(before, f) == before,
{
}

/// A sample is read with the dictionary that it names, or with none if it names
/// none. It is not read with another one.
pub proof fn law_samples_name_their_dictionary(bytes: Seq<u8>, d: Seq<u8>)
    ensures
        frame_dict_id(bytes) == 0 && zstd_decoded(bytes) is Some ==> sample_data(bytes, Some(d))
            == Ok::<Seq<u8>, RawError>(zstd_decoded(bytes)->0) && sample_data(bytes, None)
            == sample_data(bytes, Some(d)),
        frame_dict_id(bytes) == 0 && zstd_decoded(bytes) is None ==> sample_data(bytes, None)
            == Err::<Seq<u8>, RawError>(RawError::Undecodable),
        frame_dict_id(bytes) != 0 ==> sample_data(bytes, None) == Err::<Seq<u8>, RawError>(
            RawError::NoDict,
        ),
        frame_dict_id(bytes) != 0 && dict_id_of(d) != 0 && dict_id_of(d) != frame_dict_id(bytes)
            ==> sample_data(bytes, Some(d)) == Err::<Seq<u8>, RawError>(
            RawError::WrongDict { found: frame_dict_id(bytes), expected: dict_id_of(d) },
        ),
        frame_dict_id(bytes) != 0 && dict_id_of(d) == frame_dict_id(bytes) && dict_decoded(
            bytes,
            d,
        ) is Some ==> sample_data(bytes, Some(d)) == Ok::<Seq<u8>, RawError>(
            dict_decoded(bytes, d)->0,
        ),
        frame_dict_id(bytes) != 0 && dict_id_of(d) == 0 ==> sample_data(bytes, Some(d)) == Err::<
            Seq<u8>,
            RawError,
        >(RawError::NoDictId),
{
}

/// A sample that was packed gives back the data that it had, with the dictionary
/// that it was packed with.
pub proof fn law_packed_samples_read_back(before: Seq<u8>, after: Seq<u8>, d: Seq<u8>)
    requires
        is_packed(before, after, d),
        dict_id_of(d) != 0,
    ensures
        sample_data(after, Some(d)) == sample_data(before, None),
        sample_data(after, None) == Err::<Seq<u8>, RawError>(RawError::NoDict),
{
}

/// Packed bytes take the place of a sample only if they name the dictionary and
/// give back what was packed.
pub proof fn law_packed_bytes_are_checked(
    after: Seq<u8>,
    back: Seq<u8>,
    plain: Seq<u8>,
    expected: u32,
)
    ensures
        packed_objection(after, Some(back), plain, expected) is None <==> frame_dict_id(after)
            == expected && back == plain,
        packed_objection(after, None, plain, expected) is Some,
        frame_dict_id(after) != expected ==> packed_objection(after, Some(back), plain, expected)
            == Some(RawError::WrongDict { found: frame_dict_id(after), expected }),
        frame_dict_id(after) == expected && back != plain ==> packed_objection(
            after,
            Some(back),
            plain,
            expected,
        ) == Some(RawError::Roundtrip),
{
}

/// A run counts each sample once: as rewritten, with both sizes; as changed; as
/// failed; or as passed over, for being recent or for having a dictionary.
pub proof fn law_each_sample_counts_once(
    o: RawSampleRecompactOutcome,
    f: RawFileV,
    before: nat,
    after: nat,
)
    requires
        o.files_upgraded < usize::MAX,
        o.files_skipped_changed < usize::MAX,
        o.files_failed < usize::MAX,
        o.files_skipped_recent < usize::MAX,
        o.files_already_dict < usize::MAX,
        o.before_bytes + before <= u64::MAX,
        o.after_bytes + after <= u64::MAX,
    ensures
        settled_as(o, Settled::Replaced, before, after) == (RawSampleRecompactOutcome {
            files_upgraded: (o.files_upgraded + 1) as usize,
            before_bytes: (o.before_bytes + before) as u64,
            after_bytes: (o.after_bytes + after) as u64,
            ..o
        }),
        settled_as(o, Settled::Changed, before, after) == (RawSampleRecompactOutcome {
            files_skipped_changed: (o.files_skipped_changed + 1) as usize,
            ..o
        }),
        settled_as(o, Settled::Failed, before, after) == (RawSampleRecompactOutcome {
            files_failed: (o.files_failed + 1) as usize,
            ..o
        }),
        !f.old_enough ==> passed_over(o, f) == (RawSampleRecompactOutcome {
            files_skipped_recent: (o.files_skipped_recent + 1) as usize,
            ..o
        }),
        f.old_enough && frame_dict_id(f.bytes) != 0 ==> passed_over(o, f) == (
        RawSampleRecompactOutcome {
            files_already_dict: (o.files_already_dict + 1) as usize,
            ..o
        }),
        f.old_enough && frame_dict_id(f.bytes) == 0 ==> passed_over(o, f) == (
        RawSampleRecompactOutcome { files_failed: (o.files_failed + 1) as usize, ..o }),
{
}

/// Samples are known by how their names end.
pub proof fn law_samples_are_known_by_name(id: Seq<char>, name: Seq<char>)
    ensures
        match_file(id) == id + ".match.json.zst"@,
        timeline_file(id) == id + ".timeline.json.zst"@,
        names_sample(match_file(id)),
        names_sample(timeline_file(id)),
        name.len() < 15 ==> !names_sample(name),
{
    reveal_strlit(".match.json.zst");
    reveal_strlit(".timeline.json.zst");
    let m = match_file(id);
    let t = timeline_file(id);
    assert(m.skip(m.len() - ".match.json.zst"@.len()) =~= ".match.json.zst"@);
    assert(t.skip(t.len() - ".timeline.json.zst"@.len()) =~= ".timeline.json.zst"@);
}

// ---- what is said ----

/// What is said of a block that cannot be read: where it is, and what is wrong.
pub proof fn law_faults_say_where(at: u64, n: u32)
    ensures
        fault_text(SegmentError { at, fault: SegmentFault::TruncatedHeader })
            == "truncated segment header at "@ + decimal(at as int),
        fault_text(SegmentError { at, fault: SegmentFault::UnknownMagic(n) })
            == "unknown segment block magic "@ + decimal(n as int) + (" at "@ + decimal(at as int)),
        fault_text(SegmentError { at, fault: SegmentFault::TruncatedBlock })
            == "truncated segment block at "@ + decimal(at as int),
        fault_text(SegmentError { at, fault: SegmentFault::CompressedTooLarge(n) })
            == "compressed segment block too large at "@ + decimal(at as int) + (": "@ + decimal(
            n as int,
        )) + " bytes"@,
        fault_text(SegmentError { at, fault: SegmentFault::UncompressedTooLarge(n) })
            == "uncompressed segment block too large at "@ + decimal(at as int) + (": "@ + decimal(
            n as int,
        )) + " bytes"@,
        fault_text(SegmentError { at, fault: SegmentFault::CrcMismatch })
            == "crc mismatch at segment block "@ + decimal(at as int),
        fault_text(SegmentError { at, fault: SegmentFault::BadContent })
            == "zstd decompress failed at "@ + decimal(at as int),
        fault_text(SegmentError { at, fault: SegmentFault::TruncatedRowLength(n) })
            == "truncated row record length at byte offset "@ + decimal(n as int),
        fault_text(SegmentError { at, fault: SegmentFault::TruncatedRowBody(n) })
            == "truncated row record body at byte offset "@ + decimal(n as int),
        fault_text(SegmentError { at, fault: SegmentFault::TooManyRecords })
            == "columnar block has too many records"@,
{
}

/// What is said of a record that is not found, and of a rewrite that fails.
pub proof fn law_failures_say_why(off: u32, block: u64, record: usize, want: usize, got: usize)
    ensures
        lookup_text(LookupError::NoSuchRow(off), block) == "row record offset "@ + decimal(
            off as int,
        ) + (" not found in block "@ + decimal(block as int)),
        lookup_text(LookupError::NoSuchOrdinal(off), block) == "columnar record ordinal "@
            + decimal(off as int) + (" not found in block "@ + decimal(block as int)),
        encode_text(EncodeError::Undecodable { record }) == "decode input record "@ + decimal(
            record as int,
        ),
        encode_text(EncodeError::GameIdDelta { record })
            == "game_id delta out of range at record "@ + decimal(record as int),
        encode_text(EncodeError::StartDelta { record })
            == "game_start_ms delta out of range at record "@ + decimal(record as int),
        recompact_text(RecompactError::Compress) == "compress columnar block"@,
        recompact_text(RecompactError::BlockTooLarge) == "block exceeds u32"@,
        recompact_text(RecompactError::VerifyTorn)
            == "rewritten segment ended with an invalid/truncated tail"@,
        recompact_text(RecompactError::VerifyCount { want, got })
            == "recompact verify record count mismatch: want "@ + decimal(want as int) + (" got "@
            + decimal(got as int)),
        recompact_text(RecompactError::VerifyBytes { record })
            == "recompact verify byte mismatch at record "@ + decimal(record as int),
{
}

/// Segments are rewritten at level nineteen, from the first record on.
pub proof fn law_rewrites_are_compressed_well(records: Seq<Seq<u8>>, off: int)
    requires
        0 < records.len() <= 6_000,
        columnar_block(records, 19) is Ok,
    ensures
        columnar_files(records, 0, off) is Ok,
        columnar_files(records, 0, off)->Ok_0.seg == columnar_block(records, 19)->Ok_0,
        columnar_files(records, 0, off)->Ok_0.entries == columnar_entries(records, off),
{
    reveal_with_fuel(columnar_files, 2);
    assert(chunk(records, 0) =~= records);
    let block = columnar_block(records, 19)->Ok_0;
    assert(block + Seq::<u8>::empty() =~= block);
    let entries = columnar_entries(records, off);
    assert(entries + Seq::<IdxEntry>::empty() =~= entries);
}

/// Samples are offered one after the other, and a run is the sum of what became
/// of each.
pub proof fn law_runs_add_up(
    files: Seq<RawFileV>,
    f: RawFileV,
    o: RawSampleRecompactOutcome,
    before: Seq<RawFileV>,
    after: Seq<RawFileV>,
    k: int,
)
    requires
        0 <= k < before.len(),
        k < after.len(),
    ensures
        training_set(Seq::empty()) == Seq::<Seq<u8>>::empty(),
        training_set(files.push(f)) == offered(training_set(files), f),
        tallied(o, before, after, 0) == o,
        after[k] == before[k] ==> tallied(o, before, after, k + 1) == passed_over(
            tallied(o, before, after, k),
            before[k],
        ),
        after[k] != before[k] ==> tallied(o, before, after, k + 1) == settled_as(
            tallied(o, before, after, k),
            Settled::Replaced,
            before[k].bytes.len(),
            after[k].bytes.len(),
        ),
        no_outcome().files_seen == 0 && no_outcome().files_upgraded == 0
            && no_outcome().files_failed == 0 && !no_outcome().dict_created,
{
    assert(files.push(f).drop_last() =~= files);
}

} // verus!
