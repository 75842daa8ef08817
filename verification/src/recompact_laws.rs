//! Recompaction loses nothing and settles after one pass.

use crate::codec::{crc32_of, zstd_content, zstd_frame};
use crate::columnar::{block_records, encodings};
use crate::columnar_encode::block_encoded;
use crate::le::{le, lemma_le_bounds, lemma_le_len, lemma_le_roundtrip, lemma_le_value_bound};
use crate::recompact::{
    all_decode, chunk, columnar_block, columnar_entries, columnar_files, first_changed,
    idx_after, is_recompaction, lemma_entries_decode, lemma_layout_decodes, min, recompacted,
    seg_after, seg_objection, small_from, sound_from, RecompactOutcome, RecompactionV, RewriteV,
    COLUMNAR_RECOMPACT_RECORDS_PER_BLOCK, COLUMNAR_RECOMPACT_ZSTD_LEVEL,
};
use crate::record::record_decoded;
use crate::segment::{
    block_at, block_entries, entry_at, idx_bytes, layout_from, lemma_block_next, lenient_records,
    ordinals, parsed_idx, record_at, u32_at, BadRecord, BlockV, IdxEntry, LayoutV, LookupError,
    SegmentError, SegmentFault, COL_MAGIC, MAX_SEGMENT_BLOCK_BYTES,
};
use crate::segment_write::{container, law_container_reads_back};
use vstd::prelude::*;

verus! {

proof fn lemma_idx_len(entries: Seq<IdxEntry>)
    ensures
        idx_bytes(entries).len() == 20 * entries.len(),
    decreases entries.len(),
{
    if entries.len() > 0 {
        let e = entries[0];
        lemma_le_len(e.game_id as int, 8);
        lemma_le_len(e.block_off as int, 8);
        lemma_le_len(e.rec_off as int, 4);
        lemma_idx_len(entries.skip(1));
    }
}

proof fn lemma_entry_at(entries: Seq<IdxEntry>, i: int)
    requires
        0 <= i < entries.len(),
    ensures
        entry_at(idx_bytes(entries), 20 * i) == entries[i],
    decreases i,
{
    let b = idx_bytes(entries);
    let e = entries[0];
    lemma_idx_len(entries);
    lemma_idx_len(entries.skip(1));
    lemma_le_len(e.game_id as int, 8);
    lemma_le_len(e.block_off as int, 8);
    lemma_le_len(e.rec_off as int, 4);
    if i == 0 {
        lemma_le_bounds();
        lemma_le_roundtrip(e.game_id as int, 8);
        lemma_le_roundtrip(e.block_off as int, 8);
        lemma_le_roundtrip(e.rec_off as int, 4);
        assert(b.subrange(0, 8) =~= le(e.game_id as int, 8));
        assert(b.subrange(8, 16) =~= le(e.block_off as int, 8));
        assert(b.subrange(16, 20) =~= le(e.rec_off as int, 4));
    } else {
        let rest = idx_bytes(entries.skip(1));
        lemma_entry_at(entries.skip(1), i - 1);
        let at = 20 * i;
        assert(b.subrange(at, at + 8) =~= rest.subrange(at - 20, at - 12));
        assert(b.subrange(at + 8, at + 16) =~= rest.subrange(at - 12, at - 4));
        assert(b.subrange(at + 16, at + 20) =~= rest.subrange(at - 4, at));
    }
}

/// An index is read as it was written.
pub proof fn law_idx_roundtrip(entries: Seq<IdxEntry>)
    ensures
        parsed_idx(idx_bytes(entries)) == Some(entries),
{
    lemma_idx_len(entries);
    let b = idx_bytes(entries);
    let parsed = Seq::new((b.len() / 20) as nat, |i: int| entry_at(b, 20 * i));
    assert forall|i: int| 0 <= i < entries.len() implies #[trigger] parsed[i] == entries[i] by {
        lemma_entry_at(entries, i);
    }
    assert(parsed =~= entries);
}

proof fn lemma_block_entries_ok(b: BlockV, off: int, i: int)
    requires
        0 <= i <= b.records.len(),
        all_decode(b.records),
        b.offsets == ordinals(b.records.len() as int),
    ensures
        block_entries(b, off, i) == Ok::<Seq<IdxEntry>, BadRecord>(
            columnar_entries(b.records, off).skip(i),
        ),
    decreases b.records.len() - i,
{
    let all = columnar_entries(b.records, off);
    if i < b.records.len() {
        lemma_block_entries_ok(b, off, i + 1);
        assert(record_decoded(b.records[i]) is Some);
        assert(seq![all[i]] + all.skip(i + 1) =~= all.skip(i));
    } else {
        assert(all.skip(i) =~= Seq::empty());
    }
}

/// The first columnar block of records from `k` on.
spec fn first_block(records: Seq<Seq<u8>>, k: int) -> Seq<u8> {
    columnar_block(chunk(records, k), COLUMNAR_RECOMPACT_ZSTD_LEVEL as int)->Ok_0
}

spec fn next_chunk(records: Seq<Seq<u8>>, k: int) -> int {
    min(k + COLUMNAR_RECOMPACT_RECORDS_PER_BLOCK, records.len() as int)
}

/// The first block of columnar files is read as its chunk of the records.
proof fn lemma_first_block(records: Seq<Seq<u8>>, k: int, before: Seq<u8>)
    requires
        0 <= k < records.len(),
        all_decode(records),
        sound_from(records, k),
        small_from(records, k),
        columnar_files(records, k, before.len() as int) is Ok,
    ensures
        ({
            let off = before.len() as int;
            let files = columnar_files(records, k, off)->Ok_0;
            let block = first_block(records, k);
            let more = columnar_files(records, next_chunk(records, k), off + block.len());
            let c = chunk(records, k);
            &&& more is Ok
            &&& files.seg == block + more->Ok_0.seg
            &&& files.entries == columnar_entries(c, off) + more->Ok_0.entries
            &&& block_at(before + files.seg, off, true) == Ok::<BlockV, SegmentFault>(
                BlockV {
                    columnar: true,
                    next: off + block.len(),
                    records: c,
                    offsets: ordinals(c.len() as int),
                },
            )
            &&& all_decode(c)
            &&& block.len() >= 16
        }),
{
    let off = before.len() as int;
    let files = columnar_files(records, k, off)->Ok_0;
    let c = chunk(records, k);
    let level = COLUMNAR_RECOMPACT_ZSTD_LEVEL as int;
    let payload = block_encoded(c)->Ok_0;
    let frame = zstd_frame(payload, level);
    let block = container(COL_MAGIC, payload.len() as int, frame);
    let more = columnar_files(records, next_chunk(records, k), off + block.len())->Ok_0;
    assert(first_block(records, k) == block);
    assert(before + files.seg =~= before + block + more.seg);
    law_container_reads_back(before, COL_MAGIC, payload, frame, more.seg, true);
    let rs = block_records(payload)->Ok_0;
    assert(encodings(rs).len() == rs.len());
    lemma_le_len(COL_MAGIC as int, 4);
    lemma_le_len(crate::codec::crc32_of(frame) as int, 4);
    lemma_le_len((frame.len() as u32) as int, 4);
    lemma_le_len((payload.len() as u32) as int, 4);
    assert(block.len() == 16 + frame.len());
    assert forall|i: int| 0 <= i < c.len() implies record_decoded(#[trigger] c[i]) is Some by {
        assert(c[i] == records[k + i]);
    }
}

/// The columnar form of records is read as those records, under the index
/// entries that go with it.
pub proof fn law_columnar_files_read_back(records: Seq<Seq<u8>>, k: int, before: Seq<u8>)
    requires
        0 <= k <= records.len(),
        all_decode(records),
        sound_from(records, k),
        small_from(records, k),
        columnar_files(records, k, before.len() as int) is Ok,
    ensures
        ({
            let files = columnar_files(records, k, before.len() as int)->Ok_0;
            layout_from(before + files.seg, before.len() as int) == Ok::<LayoutV, BadRecord>(
                LayoutV {
                    records: records.skip(k),
                    entries: files.entries,
                    has_rows: false,
                    torn_at: None,
                },
            )
        }),
    decreases records.len() - k,
{
    let off = before.len() as int;
    let files = columnar_files(records, k, off)->Ok_0;
    let seg = before + files.seg;
    if k == records.len() {
        assert(records.skip(k) =~= Seq::empty());
    } else {
        let c = chunk(records, k);
        let block = first_block(records, k);
        let next = next_chunk(records, k);
        lemma_first_block(records, k, before);
        let more = columnar_files(records, next, off + block.len())->Ok_0;
        let b = block_at(seg, off, true)->Ok_0;
        lemma_block_entries_ok(b, off, 0);
        assert(columnar_entries(c, off).skip(0) =~= columnar_entries(c, off));
        law_columnar_files_read_back(records, next, before + block);
        assert((before + block) + more.seg =~= seg);
        assert(c + records.skip(next) =~= records.skip(k));
    }
}

proof fn lemma_nothing_changed(records: Seq<Seq<u8>>, i: int)
    ensures
        first_changed(records, records, i) is None,
    decreases records.len() - i,
{
    if 0 <= i < records.len() {
        lemma_nothing_changed(records, i + 1);
    }
}

/// A rewrite passes its own verification.
pub proof fn law_rewrite_is_accepted(records: Seq<Seq<u8>>)
    requires
        all_decode(records),
        sound_from(records, 0),
        small_from(records, 0),
        columnar_files(records, 0, 0) is Ok,
    ensures
        seg_objection(records, columnar_files(records, 0, 0)->Ok_0.seg) is None,
{
    let none = Seq::<u8>::empty();
    let files = columnar_files(records, 0, 0)->Ok_0;
    law_columnar_files_read_back(records, 0, none);
    assert(none + files.seg =~= files.seg);
    assert(records.skip(0) =~= records);
    lemma_nothing_changed(records, 0);
}

/// A block that ends before a cut is read as before.
proof fn lemma_block_before(seg: Seq<u8>, n: int, pos: int)
    requires
        n <= seg.len(),
        block_at(seg, pos, true) is Ok,
        block_at(seg, pos, true)->Ok_0.next <= n,
    ensures
        block_at(seg.take(n), pos, true) == block_at(seg, pos, true),
{
    lemma_block_next(seg, pos, true);
    reveal(block_at);
    let cut = seg.take(n);
    assert(cut.subrange(pos, pos + 4) =~= seg.subrange(pos, pos + 4));
    assert(cut.subrange(pos + 4, pos + 8) =~= seg.subrange(pos + 4, pos + 8));
    assert(cut.subrange(pos + 8, pos + 12) =~= seg.subrange(pos + 8, pos + 12));
    assert(cut.subrange(pos + 12, pos + 16) =~= seg.subrange(pos + 12, pos + 16));
    let clen = u32_at(seg, pos + 8);
    lemma_le_value_bound(seg.subrange(pos + 8, pos + 12));
    assert(cut.subrange(pos + 16, pos + 16 + clen) =~= seg.subrange(pos + 16, pos + 16 + clen));
}

/// Without its torn tail a segment holds what it held.
proof fn lemma_layout_cut(seg: Seq<u8>, pos: int)
    requires
        0 <= pos,
        layout_from(seg, pos) is Ok,
        layout_from(seg, pos)->Ok_0.torn_at is Some,
    ensures
        ({
            let l = layout_from(seg, pos)->Ok_0;
            layout_from(seg.take(l.torn_at->0), pos) == Ok::<LayoutV, BadRecord>(
                LayoutV { torn_at: None, ..l },
            )
        }),
    decreases seg.len() - pos,
{
    let l = layout_from(seg, pos)->Ok_0;
    let at = l.torn_at->0;
    lemma_layout_decodes(seg, pos);
    lemma_block_next(seg, pos, true);
    if block_at(seg, pos, true) is Ok {
        let b = block_at(seg, pos, true)->Ok_0;
        lemma_layout_decodes(seg, b.next);
        lemma_layout_cut(seg, b.next);
        lemma_block_before(seg, at, pos);
    }
}

/// The records of a columnar block are found by their ordinals.
proof fn lemma_columnar_offsets(seg: Seq<u8>, pos: int)
    ensures
        block_at(seg, pos, true) matches Ok(b) ==> b.columnar ==> b.offsets == ordinals(
            b.records.len() as int,
        ) && b.records.len() <= 0x1_0000_0000,
{
    reveal(block_at);
    if 0 <= pos && pos + 16 <= seg.len() {
        let clen = u32_at(seg, pos + 8);
        match zstd_content(seg.subrange(pos + 16, pos + 16 + clen)) {
            Some(plain) => match block_records(plain) {
                Ok(rs) => {
                    assert(encodings(rs).len() == rs.len());
                },
                Err(_) => {},
            },
            None => {},
        }
    }
}

/// Every entry of a segment of columnar blocks leads to its record.
proof fn lemma_entries_lead(seg: Seq<u8>, pos: int, i: int)
    requires
        0 <= pos,
        seg.len() <= u64::MAX,
        layout_from(seg, pos) is Ok,
        !layout_from(seg, pos)->Ok_0.has_rows,
    ensures
        ({
            let l = layout_from(seg, pos)->Ok_0;
            &&& l.entries.len() == l.records.len()
            &&& 0 <= i < l.records.len() ==> {
                &&& l.entries[i].game_id == record_decoded(l.records[i])->0.game_id
                &&& record_at(seg, l.entries[i].block_off as int, l.entries[i].rec_off) == Ok::<
                    Seq<u8>,
                    LookupError,
                >(l.records[i])
            }
        }),
    decreases seg.len() - pos,
{
    lemma_block_next(seg, pos, true);
    if pos < seg.len() && block_at(seg, pos, true) is Ok {
        let b = block_at(seg, pos, true)->Ok_0;
        lemma_entries_decode(b, pos, 0);
        lemma_columnar_offsets(seg, pos);
        lemma_entries_lead(seg, b.next, i - b.records.len());
        if 0 <= i < b.records.len() {
            assert(layout_from(seg, pos)->Ok_0.entries[i] == block_entries(b, pos, 0)->Ok_0[i]);
        }
    }
}

/// A rewrite that could be read to its end has blocks that are small enough.
proof fn lemma_read_is_small(records: Seq<Seq<u8>>, k: int, before: Seq<u8>)
    requires
        0 <= k <= records.len(),
        columnar_files(records, k, before.len() as int) is Ok,
        ({
            let files = columnar_files(records, k, before.len() as int)->Ok_0;
            let l = layout_from(before + files.seg, before.len() as int);
            l is Ok && l->Ok_0.torn_at is None
        }),
    ensures
        small_from(records, k),
    decreases records.len() - k,
{
    if k < records.len() {
        let off = before.len() as int;
        let files = columnar_files(records, k, off)->Ok_0;
        let seg = before + files.seg;
        let c = chunk(records, k);
        let payload = block_encoded(c)->Ok_0;
        let frame = zstd_frame(payload, COLUMNAR_RECOMPACT_ZSTD_LEVEL as int);
        let block = container(COL_MAGIC, payload.len() as int, frame);
        let next = next_chunk(records, k);
        let more = columnar_files(records, next, off + block.len())->Ok_0;
        assert(first_block(records, k) == block);
        lemma_le_len(COL_MAGIC as int, 4);
        lemma_le_len(crc32_of(frame) as int, 4);
        lemma_le_len(frame.len() as int, 4);
        lemma_le_len(payload.len() as int, 4);
        lemma_le_bounds();
        lemma_le_roundtrip(frame.len() as int, 4);
        lemma_le_roundtrip(payload.len() as int, 4);
        assert(block.len() == 16 + frame.len());
        assert(seg =~= before + block + more.seg);
        assert(seg.subrange(off + 8, off + 12) =~= le(frame.len() as int, 4));
        assert(seg.subrange(off + 12, off + 16) =~= le(payload.len() as int, 4));
        assert(block_at(seg, off, true) is Ok);
        let b = block_at(seg, off, true)->Ok_0;
        assert(frame.len() <= MAX_SEGMENT_BLOCK_BYTES && payload.len() <= MAX_SEGMENT_BLOCK_BYTES
            && b.next == off + block.len()) by {
            reveal(block_at);
        }
        assert((before + block) + more.seg =~= seg);
        assert(layout_from(seg, b.next) is Ok);
        lemma_read_is_small(records, next, before + block);
    }
}

/// What a segment and its index are after a recompaction.
proof fn lemma_settled(seg: Seq<u8>, idx: Option<Seq<u8>>, r: RecompactionV)
    requires
        seg.len() <= u64::MAX,
        is_recompaction(seg, idx, r),
    ensures
        ({
            let l = layout_from(seg_after(seg, r), 0);
            &&& l is Ok
            &&& l->Ok_0.records == layout_from(seg, 0)->Ok_0.records
            &&& !l->Ok_0.has_rows
            &&& l->Ok_0.torn_at is None
            &&& idx_after(idx, r) is Some
            &&& parsed_idx(idx_after(idx, r)->0) == Some(l->Ok_0.entries)
        }),
{
    let old_layout = layout_from(seg, 0)->Ok_0;
    lemma_layout_decodes(seg, 0);
    if r.rewrite is Replace {
        let records = old_layout.records;
        let none = Seq::<u8>::empty();
        let files = columnar_files(records, 0, 0)->Ok_0;
        assert(none + files.seg =~= files.seg);
        lemma_read_is_small(records, 0, none);
        law_columnar_files_read_back(records, 0, none);
        assert(records.skip(0) =~= records);
        law_idx_roundtrip(files.entries);
    } else {
        law_idx_roundtrip(old_layout.entries);
        if old_layout.torn_at is Some {
            lemma_layout_cut(seg, 0);
        }
    }
}

/// A segment that is sound to its end is read the same by every reader.
proof fn lemma_intact(seg: Seq<u8>, pos: int)
    requires
        0 <= pos,
        layout_from(seg, pos) is Ok,
        layout_from(seg, pos)->Ok_0.torn_at is None,
    ensures
        lenient_records(seg, pos) == Ok::<Seq<Seq<u8>>, SegmentError>(
            layout_from(seg, pos)->Ok_0.records,
        ),
    decreases seg.len() - pos,
{
    lemma_block_next(seg, pos, true);
    if pos < seg.len() {
        let b = block_at(seg, pos, true)->Ok_0;
        assert(block_at(seg, pos, false) == block_at(seg, pos, true)) by {
            reveal(block_at);
        }
        lemma_intact(seg, b.next);
    }
}

/// Lossless: after a recompaction the segment is readable to its end and holds
/// the readable records of before, byte for byte and in order, whether it was
/// replaced or kept; and the records were counted right.
pub proof fn law_recompaction_keeps_records(
    seg: Seq<u8>,
    idx: Option<Seq<u8>>,
    r: RecompactionV,
)
    requires
        seg.len() <= u64::MAX,
        is_recompaction(seg, idx, r),
    ensures
        ({
            let l = layout_from(seg_after(seg, r), 0);
            &&& l is Ok
            &&& l->Ok_0.records == layout_from(seg, 0)->Ok_0.records
            &&& l->Ok_0.torn_at is None
            &&& lenient_records(seg_after(seg, r), 0) == Ok::<Seq<Seq<u8>>, SegmentError>(
                layout_from(seg, 0)->Ok_0.records,
            )
            &&& r.outcome.record_count == layout_from(seg, 0)->Ok_0.records.len() as usize
        }),
{
    lemma_settled(seg, idx, r);
    lemma_intact(seg_after(seg, r), 0);
}

/// A dropped tail held no indexed record: a recompaction that drops bytes
/// found no index entry that points at or behind them.
pub proof fn law_dropped_tail_is_unindexed(seg: Seq<u8>, idx: Seq<u8>, i: int)
    requires
        recompacted(seg, Some(idx)) is Ok,
        layout_from(seg, 0)->Ok_0.torn_at is Some,
        parsed_idx(idx) is Some,
        0 <= i < parsed_idx(idx)->0.len(),
    ensures
        parsed_idx(idx)->0[i].block_off < layout_from(seg, 0)->Ok_0.torn_at->0,
{
    let at = layout_from(seg, 0)->Ok_0.torn_at->0;
    lemma_none_behind(parsed_idx(idx)->0, at, 0);
}

proof fn lemma_none_behind(entries: Seq<IdxEntry>, off: int, i: int)
    requires
        0 <= i,
        crate::recompact::first_behind(entries, off, i) is None,
    ensures
        forall|j: int| i <= j < entries.len() ==> (#[trigger] entries[j]).block_off < off,
    decreases entries.len() - i,
{
    if i < entries.len() {
        lemma_none_behind(entries, off, i + 1);
    }
}

/// Idempotent: recompacting a recompacted segment with its index changes
/// nothing.
pub proof fn law_recompaction_is_idempotent(seg: Seq<u8>, idx: Option<Seq<u8>>, r: RecompactionV)
    requires
        seg.len() <= u64::MAX,
        is_recompaction(seg, idx, r),
    ensures
        ({
            let new_seg = seg_after(seg, r);
            let new_idx = idx_after(idx, r);
            let again = RecompactionV {
                outcome: RecompactOutcome {
                    already_compacted: true,
                    rebuilt_idx: false,
                    dropped_tail_bytes: 0,
                    before_seg_bytes: new_seg.len() as u64,
                    after_seg_bytes: new_seg.len() as u64,
                    before_idx_bytes: new_idx->0.len() as u64,
                    after_idx_bytes: new_idx->0.len() as u64,
                    record_count: r.outcome.record_count,
                },
                rewrite: RewriteV::Keep { truncate_to: None, idx: None },
            };
            &&& is_recompaction(new_seg, new_idx, again)
            &&& seg_after(new_seg, again) == new_seg
            &&& idx_after(new_idx, again) == new_idx
        }),
{
    lemma_settled(seg, idx, r);
}

/// After a recompaction the index has one entry for each record, in order, with
/// its game, and every entry leads to its record.
pub proof fn law_recompacted_records_are_found(
    seg: Seq<u8>,
    idx: Option<Seq<u8>>,
    r: RecompactionV,
    i: int,
)
    requires
        seg.len() <= u64::MAX,
        seg_after(seg, r).len() <= u64::MAX,
        is_recompaction(seg, idx, r),
        0 <= i < layout_from(seg, 0)->Ok_0.records.len(),
    ensures
        ({
            let records = layout_from(seg, 0)->Ok_0.records;
            let entries = parsed_idx(idx_after(idx, r)->0)->0;
            &&& idx_after(idx, r) is Some
            &&& parsed_idx(idx_after(idx, r)->0) is Some
            &&& entries.len() == records.len()
            &&& entries[i].game_id == record_decoded(records[i])->0.game_id
            &&& record_at(
                seg_after(seg, r),
                entries[i].block_off as int,
                entries[i].rec_off,
            ) == Ok::<Seq<u8>, LookupError>(records[i])
        }),
{
    lemma_settled(seg, idx, r);
    lemma_entries_lead(seg_after(seg, r), 0, i);
}

} // verus!
