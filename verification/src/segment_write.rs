//! Writing segment blocks, and that what is written can be read.

use crate::codec::{crc32, crc32_of, zstd_compress, zstd_content, zstd_frame};
use crate::columnar::encodings;
use crate::le::{le, lemma_le_bounds, lemma_le_len, lemma_le_roundtrip, put_u32};
use crate::record::{record_bytes, MatchRecord, RecordV};
use crate::segment::{
    block_at, block_content, idx_bytes, idx_to_bytes, position, record_at, row_block, row_end,
    rows_from, BlockV, IdxEntry, LookupError, RowsV, SegmentFault, COL_MAGIC,
    MAX_SEGMENT_BLOCK_BYTES, SEG_MAGIC,
};
use crate::wire::push_all;
use vstd::prelude::*;

verus! {

/// A writer flushes once its buffer has this many bytes.
pub const BLOCK_TARGET_BYTES: usize = 4_194_304;

/// Compression level of row blocks.
pub const ZSTD_LEVEL: i32 = 7;

/// A block: header and compressed bytes.
pub open spec fn container(magic: u32, plain_len: int, frame: Seq<u8>) -> Seq<u8> {
    le(magic as int, 4) + le(crc32_of(frame) as int, 4) + le((frame.len() as u32) as int, 4) + le(
        (plain_len as u32) as int,
        4,
    ) + frame
}

/// Builds a block.
pub(crate) fn build_container(magic: u32, plain_len: usize, frame: &[u8]) -> (out: Vec<u8>)
    ensures
        out@ == container(magic, plain_len as int, frame@),
{
    let mut out: Vec<u8> = Vec::new();
    put_u32(&mut out, magic);
    put_u32(&mut out, crc32(frame));
    put_u32(&mut out, #[verifier::truncate] (frame.len() as u32));
    put_u32(&mut out, #[verifier::truncate] (plain_len as u32));
    push_all(&mut out, frame);
    assert(out@ =~= container(magic, plain_len as int, frame@));
    out
}

/// A block that stands anywhere in a segment is read as its plain bytes say.
pub proof fn law_container_reads_back(
    before: Seq<u8>,
    magic: u32,
    plain: Seq<u8>,
    frame: Seq<u8>,
    after: Seq<u8>,
    strict: bool,
)
    requires
        magic == SEG_MAGIC || magic == COL_MAGIC,
        plain.len() <= MAX_SEGMENT_BLOCK_BYTES,
        frame.len() <= MAX_SEGMENT_BLOCK_BYTES,
        zstd_content(frame) == Some(plain),
    ensures
        block_at(
            before + container(magic, plain.len() as int, frame) + after,
            before.len() as int,
            strict,
        ) == block_content(
            plain,
            magic == COL_MAGIC,
            before.len() as int + 16 + frame.len(),
            strict,
        ),
{
    reveal(block_at);
    let seg = before + container(magic, plain.len() as int, frame) + after;
    let pos = before.len() as int;
    lemma_le_bounds();
    lemma_le_roundtrip(magic as int, 4);
    lemma_le_roundtrip(crc32_of(frame) as int, 4);
    lemma_le_roundtrip(frame.len() as int, 4);
    lemma_le_roundtrip(plain.len() as int, 4);
    assert(seg.subrange(pos, pos + 4) =~= le(magic as int, 4));
    assert(seg.subrange(pos + 4, pos + 8) =~= le(crc32_of(frame) as int, 4));
    assert(seg.subrange(pos + 8, pos + 12) =~= le(frame.len() as int, 4));
    assert(seg.subrange(pos + 12, pos + 16) =~= le(plain.len() as int, 4));
    assert(seg.subrange(pos + 16, pos + 16 + frame.len()) =~= frame);
}

/// Length-prefixed records back to back.
pub open spec fn rows_bytes(records: Seq<Seq<u8>>) -> Seq<u8>
    decreases records.len(),
{
    if records.len() == 0 {
        Seq::empty()
    } else {
        row_bytes(records[0]) + rows_bytes(records.skip(1))
    }
}

pub open spec fn row_bytes(record: Seq<u8>) -> Seq<u8> {
    le((record.len() as u32) as int, 4) + record
}

/// Where row `i` starts.
pub open spec fn row_offset(records: Seq<Seq<u8>>, i: int) -> int {
    rows_bytes(records.take(i)).len() as int
}

pub proof fn lemma_rows_push(records: Seq<Seq<u8>>, record: Seq<u8>)
    ensures
        rows_bytes(records.push(record)) == rows_bytes(records) + row_bytes(record),
    decreases records.len(),
{
    reveal_with_fuel(rows_bytes, 2);
    let all = records.push(record);
    if records.len() == 0 {
        assert(all.skip(1) =~= Seq::empty());
        assert(rows_bytes(all) =~= rows_bytes(records) + row_bytes(record));
    } else {
        assert(all.skip(1) =~= records.skip(1).push(record));
        lemma_rows_push(records.skip(1), record);
        assert(rows_bytes(all) =~= rows_bytes(records) + row_bytes(record));
    }
}

/// The rows of a row block from row `k` on, with their offsets.
spec fn rows_tail(records: Seq<Seq<u8>>, k: int) -> RowsV {
    RowsV {
        records: records.skip(k),
        offsets: Seq::new((records.len() - k) as nat, |i: int| row_offset(records, k + i) as u32),
        stop: rows_bytes(records).len() as int,
    }
}

proof fn lemma_rows_split(records: Seq<Seq<u8>>, k: int)
    requires
        0 <= k <= records.len(),
    ensures
        rows_bytes(records) == rows_bytes(records.take(k)) + rows_bytes(records.skip(k)),
    decreases records.len() - k,
{
    if k == records.len() {
        assert(records.take(k) =~= records);
        assert(records.skip(k) =~= Seq::empty());
        assert(rows_bytes(records) + Seq::<u8>::empty() =~= rows_bytes(records));
    } else {
        lemma_rows_split(records, k + 1);
        assert(records.take(k + 1) =~= records.take(k).push(records[k]));
        lemma_rows_push(records.take(k), records[k]);
        assert(records.skip(k).skip(1) =~= records.skip(k + 1));
        let a = rows_bytes(records.take(k));
        let b = row_bytes(records[k]);
        let c = rows_bytes(records.skip(k + 1));
        assert((a + b) + c =~= a + (b + c));
    }
}

proof fn lemma_rows_from(records: Seq<Seq<u8>>, k: int)
    requires
        0 <= k <= records.len(),
        rows_bytes(records).len() <= u32::MAX,
    ensures
        rows_from(rows_bytes(records), row_offset(records, k)) == rows_tail(records, k),
    decreases records.len() - k,
{
    let b = rows_bytes(records);
    let off = row_offset(records, k);
    lemma_rows_split(records, k);
    if k == records.len() {
        assert(records.take(k) =~= records);
        assert(rows_from(b, off) =~= rows_tail(records, k));
    } else {
        let r = records[k];
        lemma_rows_from(records, k + 1);
        lemma_rows_split(records, k + 1);
        assert(records.take(k + 1) =~= records.take(k).push(r));
        lemma_rows_push(records.take(k), r);
        lemma_le_len((r.len() as u32) as int, 4);
        let end = row_offset(records, k + 1);
        assert(end == off + 4 + r.len());
        let prefix = rows_bytes(records.take(k + 1));
        assert(b =~= prefix + rows_bytes(records.skip(k + 1)));
        assert(b.subrange(off, off + 4) =~= le(r.len() as int, 4)) by {
            assert(prefix.subrange(off, off + 4) =~= le(r.len() as int, 4));
        }
        lemma_le_bounds();
        lemma_le_roundtrip(r.len() as int, 4);
        assert(b.subrange(off + 4, end) =~= r);
        assert(row_end(b, off) == Some(end));
        let more = rows_tail(records, k + 1);
        assert(seq![r] + more.records =~= records.skip(k));
        assert(seq![off as u32] + more.offsets =~= rows_tail(records, k).offsets);
    }
}

/// A row block gives back its records, each at the offset that it was put at.
pub proof fn law_row_block_reads_back(records: Seq<Seq<u8>>, strict: bool)
    requires
        rows_bytes(records).len() <= u32::MAX,
    ensures
        row_block(rows_bytes(records), strict) == Ok::<RowsV, SegmentFault>(
            RowsV {
                records,
                offsets: Seq::new(records.len(), |i: int| row_offset(records, i) as u32),
                stop: rows_bytes(records).len() as int,
            },
        ),
{
    assert(records.take(0) =~= Seq::empty());
    lemma_rows_from(records, 0);
    let rows = rows_tail(records, 0);
    assert(records.skip(0) =~= records);
    assert(rows.offsets =~= Seq::new(records.len(), |i: int| row_offset(records, i) as u32));
}

/// What a writer holds: the rows of the next block, and the game id and
/// offset of each.
#[verifier::ext_equal]
pub struct WriterV {
    pub buf: Seq<u8>,
    pub pending: Seq<(u64, u32)>,
}

/// Buffers records for the next row block of a segment.
pub struct SegmentWriter {
    buf: Vec<u8>,
    pending: Vec<(u64, u32)>,
}

impl View for SegmentWriter {
    type V = WriterV;

    closed spec fn view(&self) -> WriterV {
        WriterV { buf: self.buf@, pending: self.pending@ }
    }
}

/// What a flush appends to the two files.
pub struct Flushed {
    pub seg: Vec<u8>,
    pub idx: Vec<u8>,
    pub records: usize,
}

/// The compressor gave up, for lack of memory say.
#[derive(Clone, Copy, Debug, PartialEq, Eq, Structural)]
pub struct CompressFailed;

/// The index entries of pending records in a block at `block_off`.
pub open spec fn pending_entries(pending: Seq<(u64, u32)>, block_off: u64) -> Seq<IdxEntry> {
    pending.map_values(
        |p: (u64, u32)| IdxEntry { game_id: p.0, block_off, rec_off: p.1 },
    )
}

impl SegmentWriter {
    pub fn new() -> (res: Self)
        ensures
            res@ == (WriterV { buf: Seq::empty(), pending: Seq::empty() }),
    {
        SegmentWriter { buf: Vec::new(), pending: Vec::new() }
    }

    /// Buffers a record.
    pub fn append(&mut self, rec: &MatchRecord)
        ensures
            final(self)@ == (WriterV {
                buf: old(self)@.buf + row_bytes(record_bytes(rec@)),
                pending: old(self)@.pending.push((rec.game_id, old(self)@.buf.len() as u32)),
            }),
    {
        let off: u32 = #[verifier::truncate] (self.buf.len() as u32);
        let bytes = rec.encode_to_vec();
        put_u32(&mut self.buf, #[verifier::truncate] (bytes.len() as u32));
        push_all(&mut self.buf, bytes.as_slice());
        self.pending.push((rec.game_id, off));
        assert(self.buf@ =~= old(self)@.buf + row_bytes(record_bytes(rec@)));
    }

    pub fn should_flush(&self) -> (res: bool)
        ensures
            res == is_full(self@),
    {
        self.buf.len() >= BLOCK_TARGET_BYTES
    }

    pub fn buffered(&self) -> (res: usize)
        ensures
            res == self@.buf.len(),
    {
        self.buf.len()
    }

    pub fn is_empty(&self) -> (res: bool)
        ensures
            res == (self@.pending.len() == 0),
    {
        self.pending.len() == 0
    }

    /// The buffered records as a block for offset `block_off`: the bytes to
    /// append to the segment and to the index, or `None` if nothing is
    /// buffered. The records stay buffered.
    pub fn block(&self, block_off: u64) -> (res: Result<Option<Flushed>, CompressFailed>)
        ensures
            match res {
                Err(_) => self@.pending.len() > 0,
                Ok(None) => self@.pending.len() == 0,
                Ok(Some(out)) => self@.pending.len() > 0 && is_block_of(out, self@, block_off),
            },
    {
        if self.pending.len() == 0 {
            return Ok(None);
        }
        let frame = match zstd_compress(self.buf.as_slice(), ZSTD_LEVEL) {
            Some(frame) => frame,
            None => {
                return Err(CompressFailed);
            },
        };
        let seg = build_container(SEG_MAGIC, self.buf.len(), frame.as_slice());
        let mut entries: Vec<IdxEntry> = Vec::new();
        let mut i: usize = 0;
        let ghost all = pending_entries(self.pending@, block_off);
        while i < self.pending.len()
            invariant
                i <= self.pending@.len(),
                all == pending_entries(self.pending@, block_off),
                entries@ == all.take(i as int),
            decreases self.pending@.len() - i,
        {
            let (game_id, rec_off): (u64, u32) = self.pending[i];
            entries.push(IdxEntry { game_id, block_off, rec_off });
            assert(entries@ =~= all.take(i + 1));
            i = i + 1;
        }
        assert(all.take(i as int) =~= all);
        let idx = idx_to_bytes(&entries);
        let records: usize = self.pending.len();
        Ok(Some(Flushed { seg, idx, records }))
    }

    /// Forgets the buffered records, once their block is written.
    pub fn clear(&mut self)
        ensures
            final(self)@ == (WriterV { buf: Seq::empty(), pending: Seq::empty() }),
    {
        self.buf.clear();
        self.pending.clear();
    }
}

/// A writer is to be flushed.
pub open spec fn is_full(writer: WriterV) -> bool {
    writer.buf.len() >= BLOCK_TARGET_BYTES
}

/// What a flush appends for what a writer holds.
pub open spec fn is_block_of(out: Flushed, writer: WriterV, block_off: u64) -> bool {
    let frame = zstd_frame(writer.buf, ZSTD_LEVEL as int);
    &&& zstd_content(frame) == Some(writer.buf)
    &&& out.seg@ == container(SEG_MAGIC, writer.buf.len() as int, frame)
    &&& out.idx@ == idx_bytes(pending_entries(writer.pending, block_off))
    &&& out.records == writer.pending.len()
}

/// A writer that was filled with `records`, in order, from empty.
pub open spec fn filled(records: Seq<RecordV>) -> WriterV {
    WriterV {
        buf: rows_bytes(encodings(records)),
        pending: Seq::new(
            records.len(),
            |i: int| (records[i].game_id, row_offset(encodings(records), i) as u32),
        ),
    }
}

/// Appending to a writer filled with some records fills it with one more.
pub proof fn law_append_fills(records: Seq<RecordV>, r: RecordV)
    ensures
        filled(records.push(r)) == (WriterV {
            buf: filled(records).buf + row_bytes(record_bytes(r)),
            pending: filled(records).pending.push((r.game_id, filled(records).buf.len() as u32)),
        }),
{
    let all = records.push(r);
    assert(encodings(all) =~= encodings(records).push(record_bytes(r)));
    lemma_rows_push(encodings(records), record_bytes(r));
    assert forall|i: int| 0 <= i <= records.len() implies #[trigger] encodings(all).take(i)
        == encodings(records).take(i) by {
        assert(encodings(all).take(i) =~= encodings(records).take(i));
    }
    assert(encodings(records).take(records.len() as int) =~= encodings(records));
    assert forall|i: int| 0 <= i < all.len() implies #[trigger] filled(all).pending[i] == (
    filled(records).pending.push((r.game_id, filled(records).buf.len() as u32)))[i] by {
        assert(row_offset(encodings(all), i) == rows_bytes(encodings(records).take(i)).len());
    }
    assert(filled(all).pending =~= filled(records).pending.push(
        (r.game_id, filled(records).buf.len() as u32),
    ));
}

proof fn lemma_position(offsets: Seq<u32>, i: int, from: int)
    requires
        0 <= from <= i < offsets.len(),
        forall|j: int| from <= j < i ==> #[trigger] offsets[j] != offsets[i],
    ensures
        position(offsets, offsets[i], from) == Some(i),
    decreases i - from,
{
    if from < i {
        lemma_position(offsets, i, from + 1);
    }
}

proof fn lemma_offsets_grow(records: Seq<Seq<u8>>, i: int, j: int)
    requires
        0 <= i < j <= records.len(),
    ensures
        row_offset(records, i) + 4 <= row_offset(records, j) <= rows_bytes(records).len(),
    decreases j - i,
{
    assert(records.take(j) =~= records.take(j - 1).push(records[j - 1]));
    lemma_rows_push(records.take(j - 1), records[j - 1]);
    lemma_le_len((records[j - 1].len() as u32) as int, 4);
    lemma_rows_split(records, j);
    if i < j - 1 {
        lemma_offsets_grow(records, i, j - 1);
    }
}

/// What a flush writes can be read: at the block's offset stand the records
/// that were appended, and each index entry leads to its record.
pub proof fn law_flushed_records_are_found(
    before: Seq<u8>,
    records: Seq<RecordV>,
    frame: Seq<u8>,
    after: Seq<u8>,
    i: int,
)
    requires
        0 <= i < records.len(),
        filled(records).buf.len() <= MAX_SEGMENT_BLOCK_BYTES,
        frame.len() <= MAX_SEGMENT_BLOCK_BYTES,
        zstd_content(frame) == Some(filled(records).buf),
    ensures
        ({
            let seg = before + container(
                SEG_MAGIC,
                filled(records).buf.len() as int,
                frame,
            ) + after;
            let off = before.len() as int;
            &&& block_at(seg, off, true) == Ok::<BlockV, SegmentFault>(
                BlockV {
                    columnar: false,
                    next: off + 16 + frame.len(),
                    records: encodings(records),
                    offsets: filled(records).pending.map_values(|p: (u64, u32)| p.1),
                },
            )
            &&& record_at(seg, off, filled(records).pending[i].1) == Ok::<
                Seq<u8>,
                LookupError,
            >(record_bytes(records[i]))
        }),
{
    let all = encodings(records);
    let plain = filled(records).buf;
    law_container_reads_back(before, SEG_MAGIC, plain, frame, after, true);
    law_row_block_reads_back(all, true);
    let offsets = Seq::new(all.len(), |i: int| row_offset(all, i) as u32);
    assert(filled(records).pending.map_values(|p: (u64, u32)| p.1) =~= offsets);
    assert forall|j: int| 0 <= j < i implies #[trigger] offsets[j] != offsets[i] by {
        lemma_offsets_grow(all, j, i);
        lemma_offsets_grow(all, i, all.len() as int);
    }
    lemma_position(offsets, i, 0);
    assert(all[i] == record_bytes(records[i]));
}

} // verus!
