//! The segment log: compressed blocks of match records, one file per platform
//! and day, and the index that locates each record.
//!
//! A block is `magic | crc32(compressed) | compressed length | uncompressed
//! length`, each a little-endian `u32`, then the compressed bytes. A row block
//! holds length-prefixed records, a columnar block a columnar payload. An index
//! entry is `game id u64 | block offset u64 | record offset u32`, where the
//! record offset is a byte offset into a row block and an ordinal in a columnar
//! one.

use crate::codec::{crc32, crc32_of, zstd_content, zstd_decompress};
use crate::columnar::{block_records, byte_strings, decode_block, encodings, BlockError};
use crate::le::{get_u32, get_u64, le, le_value, lemma_le_value_bound, put_u32, put_u64};
use crate::record::{record_decoded, MatchRecord};
use crate::wire::push_all;
use vstd::prelude::*;

verus! {

/// "1LSG" on disk.
pub const SEG_MAGIC: u32 = 0x4753_4C31;

/// "1COL" on disk.
pub const COL_MAGIC: u32 = 0x4C4F_4331;

pub const BLOCK_HEADER_LEN: usize = 16;

pub const IDX_ENTRY_LEN: usize = 20;

/// The largest block, compressed or not, that a reader takes.
pub const MAX_SEGMENT_BLOCK_BYTES: usize = 268_435_456;

/// Why a block cannot be read.
#[derive(Clone, Copy, Debug, PartialEq, Eq, Structural)]
pub enum SegmentFault {
    TruncatedHeader,
    UnknownMagic(u32),
    TruncatedBlock,
    CompressedTooLarge(u32),
    UncompressedTooLarge(u32),
    CrcMismatch,
    /// The bytes do not decompress to the stated length.
    BadContent,
    /// A row block ends in the length of a record, at this offset.
    TruncatedRowLength(u32),
    /// A row block ends in the body of the record at this offset.
    TruncatedRowBody(u32),
    Columnar(BlockError),
    TooManyRecords,
}

/// Why a block cannot be read, and where it starts.
#[derive(Clone, Copy, Debug, PartialEq, Eq, Structural)]
pub struct SegmentError {
    pub at: u64,
    pub fault: SegmentFault,
}

/// A block's records and their offsets within it.
pub struct SegmentBlock {
    pub columnar: bool,
    pub block_off: u64,
    pub next_off: u64,
    pub records: Vec<Vec<u8>>,
    pub rec_offsets: Vec<u32>,
}

#[verifier::ext_equal]
pub struct BlockV {
    pub columnar: bool,
    pub next: int,
    pub records: Seq<Seq<u8>>,
    pub offsets: Seq<u32>,
}

impl View for SegmentBlock {
    type V = BlockV;

    open spec fn view(&self) -> BlockV {
        BlockV {
            columnar: self.columnar,
            next: self.next_off as int,
            records: byte_strings(self.records@),
            offsets: self.rec_offsets@,
        }
    }
}

/// The complete rows of a row block from some offset on, and where they stop.
#[verifier::ext_equal]
pub struct RowsV {
    pub records: Seq<Seq<u8>>,
    pub offsets: Seq<u32>,
    pub stop: int,
}

/// Where the row at `off` ends, if all of it is there.
pub open spec fn row_end(b: Seq<u8>, off: int) -> Option<int> {
    if off + 4 > b.len() {
        None
    } else {
        let n = le_value(b.subrange(off, off + 4));
        if off + 4 + n > b.len() {
            None
        } else {
            Some(off + 4 + n)
        }
    }
}

pub open spec fn rows_from(b: Seq<u8>, off: int) -> RowsV
    decreases b.len() - off,
{
    proof {
        lemma_le_value_bound(b.subrange(off, off + 4));
    }
    if off < 0 || off >= b.len() {
        RowsV { records: Seq::empty(), offsets: Seq::empty(), stop: off }
    } else {
        match row_end(b, off) {
            None => RowsV { records: Seq::empty(), offsets: Seq::empty(), stop: off },
            Some(end) => {
                let more = rows_from(b, end);
                RowsV {
                    records: seq![b.subrange(off + 4, end)] + more.records,
                    offsets: seq![off as u32] + more.offsets,
                    stop: more.stop,
                }
            },
        }
    }
}

/// The rows of a row block. A strict reader refuses one that ends in the
/// middle of a row, a lenient one takes the rows before that.
pub open spec fn row_block(b: Seq<u8>, strict: bool) -> Result<RowsV, SegmentFault> {
    let rows = rows_from(b, 0);
    if strict && rows.stop < b.len() {
        if rows.stop + 4 > b.len() {
            Err(SegmentFault::TruncatedRowLength(rows.stop as u32))
        } else {
            Err(SegmentFault::TruncatedRowBody(rows.stop as u32))
        }
    } else {
        Ok(rows)
    }
}

pub open spec fn ordinals(n: int) -> Seq<u32> {
    Seq::new(n as nat, |i: int| i as u32)
}

/// The records in the plain bytes of a block.
pub open spec fn block_content(plain: Seq<u8>, columnar: bool, next: int, strict: bool) -> Result<
    BlockV,
    SegmentFault,
> {
    if columnar {
        match block_records(plain) {
            Err(e) => Err(SegmentFault::Columnar(e)),
            Ok(rs) => if rs.len() > 0x1_0000_0000 {
                Err(SegmentFault::TooManyRecords)
            } else {
                Ok(
                    BlockV {
                        columnar,
                        next,
                        records: encodings(rs),
                        offsets: ordinals(rs.len() as int),
                    },
                )
            },
        }
    } else {
        match row_block(plain, strict) {
            Err(f) => Err(f),
            Ok(rows) => Ok(
                BlockV { columnar, next, records: rows.records, offsets: rows.offsets },
            ),
        }
    }
}

/// The little-endian `u32` at an offset.
pub open spec fn u32_at(b: Seq<u8>, at: int) -> int {
    le_value(b.subrange(at, at + 4))
}

/// The block at `pos`, or why there is none.
#[verifier::opaque]
pub open spec fn block_at(seg: Seq<u8>, pos: int, strict: bool) -> Result<BlockV, SegmentFault> {
    if pos < 0 || pos + 16 > seg.len() {
        Err(SegmentFault::TruncatedHeader)
    } else {
        let magic = u32_at(seg, pos);
        let crc = u32_at(seg, pos + 4);
        let clen = u32_at(seg, pos + 8);
        let ulen = u32_at(seg, pos + 12);
        if magic != SEG_MAGIC && magic != COL_MAGIC {
            Err(SegmentFault::UnknownMagic(magic as u32))
        } else if pos + 16 + clen > seg.len() {
            Err(SegmentFault::TruncatedBlock)
        } else if clen > MAX_SEGMENT_BLOCK_BYTES {
            Err(SegmentFault::CompressedTooLarge(clen as u32))
        } else if ulen > MAX_SEGMENT_BLOCK_BYTES {
            Err(SegmentFault::UncompressedTooLarge(ulen as u32))
        } else {
            let frame = seg.subrange(pos + 16, pos + 16 + clen);
            if crc32_of(frame) != crc {
                Err(SegmentFault::CrcMismatch)
            } else {
                match zstd_content(frame) {
                    None => Err(SegmentFault::BadContent),
                    Some(plain) => if plain.len() != ulen {
                        Err(SegmentFault::BadContent)
                    } else {
                        block_content(plain, magic == COL_MAGIC, pos + 16 + clen, strict)
                    },
                }
            }
        }
    }
}

/// A block ends after it starts and within the segment.
pub proof fn lemma_block_next(seg: Seq<u8>, pos: int, strict: bool)
    ensures
        block_at(seg, pos, strict) matches Ok(b) ==> {
            &&& pos + 16 <= b.next <= seg.len()
            &&& b.records.len() == b.offsets.len()
        },
{
    reveal(block_at);
    if 0 <= pos && pos + 16 <= seg.len() {
        lemma_le_value_bound(seg.subrange(pos + 8, pos + 12));
        let clen = u32_at(seg, pos + 8);
        if pos + 16 + clen <= seg.len() {
            match zstd_content(seg.subrange(pos + 16, pos + 16 + clen)) {
                Some(plain) => lemma_rows_len(plain, 0),
                None => {},
            }
        }
    }
}

proof fn lemma_rows_len(b: Seq<u8>, off: int)
    requires
        0 <= off,
    ensures
        rows_from(b, off).records.len() == rows_from(b, off).offsets.len(),
        off <= b.len() ==> off <= rows_from(b, off).stop <= b.len(),
    decreases b.len() - off,
{
    lemma_le_value_bound(b.subrange(off, off + 4));
    if off < b.len() {
        match row_end(b, off) {
            Some(end) => lemma_rows_len(b, end),
            None => {},
        }
    }
}

/// Rows whose first are known and whose others come from `more`.
spec fn after_rows(records: Seq<Seq<u8>>, offsets: Seq<u32>, more: RowsV) -> RowsV {
    RowsV { records: records + more.records, offsets: offsets + more.offsets, stop: more.stop }
}

/// Splits a row block into its records.
pub fn decode_row_block(block: &[u8], strict: bool) -> (res: Result<
    (Vec<Vec<u8>>, Vec<u32>),
    SegmentFault,
>)
    requires
        block@.len() <= u32::MAX,
    ensures
        match row_block(block@, strict) {
            Ok(rows) => res is Ok && byte_strings((res->Ok_0).0@) == rows.records && (
            res->Ok_0).1@ == rows.offsets,
            Err(f) => res == Err::<(Vec<Vec<u8>>, Vec<u32>), SegmentFault>(f),
        },
{
    let mut records: Vec<Vec<u8>> = Vec::new();
    let mut offsets: Vec<u32> = Vec::new();
    let mut off: usize = 0;
    let ghost all = rows_from(block@, 0);
    proof {
        assert(byte_strings(records@) =~= Seq::empty());
        assert(after_rows(byte_strings(records@), offsets@, all) =~= all);
        lemma_rows_len(block@, 0);
    }
    loop
        invariant
            off <= block@.len() <= u32::MAX,
            all == after_rows(byte_strings(records@), offsets@, rows_from(block@, off as int)),
        ensures
            all == (RowsV {
                records: byte_strings(records@),
                offsets: offsets@,
                stop: off as int,
            }),
        decreases block@.len() - off,
    {
        let ghost here = rows_from(block@, off as int);
        if off >= block.len() || block.len() - off < 4 {
            assert(after_rows(byte_strings(records@), offsets@, here) =~= RowsV {
                records: byte_strings(records@),
                offsets: offsets@,
                stop: off as int,
            });
            break ;
        }
        let n: u32 = get_u32(block, off);
        if n as usize > block.len() - off - 4 {
            assert(after_rows(byte_strings(records@), offsets@, here) =~= RowsV {
                records: byte_strings(records@),
                offsets: offsets@,
                stop: off as int,
            });
            break ;
        }
        let end: usize = off + 4 + n as usize;
        let mut bytes: Vec<u8> = Vec::new();
        push_all(&mut bytes, vstd::slice::slice_subrange(block, off + 4, end));
        let ghost was = byte_strings(records@);
        let ghost was_offsets = offsets@;
        proof {
            assert(bytes@ =~= block@.subrange(off + 4, end as int));
        }
        records.push(bytes);
        offsets.push(off as u32);
        proof {
            let more = rows_from(block@, end as int);
            assert(byte_strings(records@) =~= was.push(bytes@));
            assert(was + (seq![bytes@] + more.records) =~= was.push(bytes@) + more.records);
            assert(was_offsets + (seq![off as u32] + more.offsets) =~= offsets@ + more.offsets);
        }
        off = end;
    }
    if strict && off < block.len() {
        if block.len() - off < 4 {
            return Err(SegmentFault::TruncatedRowLength(off as u32));
        }
        return Err(SegmentFault::TruncatedRowBody(off as u32));
    }
    Ok((records, offsets))
}

fn count_up(n: usize) -> (res: Vec<u32>)
    requires
        n <= 0x1_0000_0000,
    ensures
        res@ == ordinals(n as int),
{
    let mut res: Vec<u32> = Vec::new();
    let mut i: usize = 0;
    while i < n
        invariant
            i <= n <= 0x1_0000_0000,
            res@ == ordinals(i as int),
        decreases n - i,
    {
        res.push(i as u32);
        assert(res@ =~= ordinals(i + 1));
        i = i + 1;
    }
    res
}

/// Reads the block at `pos`.
pub fn read_segment_block(seg: &[u8], pos: u64, strict: bool) -> (res: Result<
    SegmentBlock,
    SegmentFault,
>)
    ensures
        match block_at(seg@, pos as int, strict) {
            Ok(b) => res is Ok && (res->Ok_0)@ == b && (res->Ok_0).block_off == pos,
            Err(f) => res == Err::<SegmentBlock, SegmentFault>(f),
        },
{
    proof {
        reveal(block_at);
    }
    let len: u64 = seg.len() as u64;
    if pos > len || len - pos < 16 {
        return Err(SegmentFault::TruncatedHeader);
    }
    let at: usize = pos as usize;
    let magic: u32 = get_u32(seg, at);
    let crc: u32 = get_u32(seg, at + 4);
    let clen: u32 = get_u32(seg, at + 8);
    let ulen: u32 = get_u32(seg, at + 12);
    if magic != SEG_MAGIC && magic != COL_MAGIC {
        return Err(SegmentFault::UnknownMagic(magic));
    }
    if clen as u64 > len - pos - 16 {
        return Err(SegmentFault::TruncatedBlock);
    }
    if clen as usize > MAX_SEGMENT_BLOCK_BYTES {
        return Err(SegmentFault::CompressedTooLarge(clen));
    }
    if ulen as usize > MAX_SEGMENT_BLOCK_BYTES {
        return Err(SegmentFault::UncompressedTooLarge(ulen));
    }
    let end: usize = at + 16 + clen as usize;
    let frame = vstd::slice::slice_subrange(seg, at + 16, end);
    if crc32(frame) != crc {
        return Err(SegmentFault::CrcMismatch);
    }
    let plain = match zstd_decompress(frame, ulen as usize) {
        Some(plain) => plain,
        None => {
            return Err(SegmentFault::BadContent);
        },
    };
    if plain.len() != ulen as usize {
        return Err(SegmentFault::BadContent);
    }
    if magic == COL_MAGIC {
        match decode_block(plain.as_slice()) {
            Ok(records) => {
                assert(byte_strings(records@).len() == records@.len());
                if records.len() as u64 > 0x1_0000_0000 {
                    return Err(SegmentFault::TooManyRecords);
                }
                let rec_offsets = count_up(records.len());
                Ok(
                    SegmentBlock {
                        columnar: true,
                        block_off: pos,
                        next_off: end as u64,
                        records,
                        rec_offsets,
                    },
                )
            },
            Err(e) => Err(SegmentFault::Columnar(e)),
        }
    } else {
        match decode_row_block(plain.as_slice(), strict) {
            Ok((records, rec_offsets)) => Ok(
                SegmentBlock {
                    columnar: false,
                    block_off: pos,
                    next_off: end as u64,
                    records,
                    rec_offsets,
                },
            ),
            Err(f) => Err(f),
        }
    }
}

/// Where the intact blocks of a segment end, judged by their headers alone.
pub open spec fn intact_len(seg: Seq<u8>, pos: int) -> int
    decreases seg.len() - pos,
{
    proof {
        lemma_le_value_bound(seg.subrange(pos + 8, pos + 12));
    }
    if pos < 0 || pos + 16 > seg.len() {
        pos
    } else {
        let magic = u32_at(seg, pos);
        let clen = u32_at(seg, pos + 8);
        if (magic == SEG_MAGIC || magic == COL_MAGIC) && pos + 16 + clen <= seg.len() {
            intact_len(seg, pos + 16 + clen)
        } else {
            pos
        }
    }
}

/// The byte offset of the end of the last intact block; what follows it is a
/// torn tail, which a writer cuts off before it appends.
pub fn validate_segment(seg: &[u8]) -> (res: usize)
    ensures
        res == intact_len(seg@, 0),
        res <= seg@.len(),
{
    let mut pos: usize = 0;
    loop
        invariant
            pos <= seg@.len(),
            intact_len(seg@, 0) == intact_len(seg@, pos as int),
        decreases seg@.len() - pos,
    {
        if seg.len() - pos < 16 {
            return pos;
        }
        let magic: u32 = get_u32(seg, pos);
        let clen: u32 = get_u32(seg, pos + 8);
        if magic != SEG_MAGIC && magic != COL_MAGIC {
            return pos;
        }
        if clen as usize > seg.len() - pos - 16 {
            return pos;
        }
        pos = pos + 16 + clen as usize;
    }
}

/// The records of a segment from `pos` on, up to the first block that cannot
/// be read.
pub open spec fn lenient_records(seg: Seq<u8>, pos: int) -> Result<Seq<Seq<u8>>, SegmentError>
    decreases seg.len() - pos,
{
    proof {
        lemma_block_next(seg, pos, false);
    }
    if pos < 0 || pos >= seg.len() {
        Ok(Seq::empty())
    } else {
        match block_at(seg, pos, false) {
            Err(SegmentFault::TooManyRecords) => Err(
                SegmentError { at: pos as u64, fault: SegmentFault::TooManyRecords },
            ),
            Err(_) => Ok(Seq::empty()),
            Ok(b) => match lenient_records(seg, b.next) {
                Err(e) => Err(e),
                Ok(more) => Ok(b.records + more),
            },
        }
    }
}

fn append_all(out: &mut Vec<Vec<u8>>, more: Vec<Vec<u8>>)
    ensures
        final(out)@ == old(out)@ + more@,
{
    let mut more = more;
    out.append(&mut more);
}

proof fn lemma_byte_strings_append(a: Seq<Vec<u8>>, b: Seq<Vec<u8>>)
    ensures
        byte_strings(a + b) == byte_strings(a) + byte_strings(b),
{
    assert(byte_strings(a + b) =~= byte_strings(a) + byte_strings(b));
}

/// Every record of a segment, in order. A torn tail is left out.
pub fn read_segment_records(seg: &[u8]) -> (res: Result<Vec<Vec<u8>>, SegmentError>)
    ensures
        match lenient_records(seg@, 0) {
            Ok(records) => res is Ok && byte_strings((res->Ok_0)@) == records,
            Err(e) => res == Err::<Vec<Vec<u8>>, SegmentError>(e),
        },
{
    let mut records: Vec<Vec<u8>> = Vec::new();
    let mut pos: u64 = 0;
    let ghost goal = lenient_records(seg@, 0);
    proof {
        assert(byte_strings(records@) =~= Seq::empty());
        match goal {
            Ok(rs) => {
                assert(byte_strings(records@) + rs =~= rs);
            },
            Err(_) => {},
        }
    }
    loop
        invariant
            pos <= seg@.len(),
            goal == lenient_records(seg@, 0),
            match lenient_records(seg@, pos as int) {
                Ok(more) => goal == Ok::<Seq<Seq<u8>>, SegmentError>(
                    byte_strings(records@) + more,
                ),
                Err(e) => goal == Err::<Seq<Seq<u8>>, SegmentError>(e),
            },
        decreases seg@.len() - pos,
    {
        proof {
            lemma_block_next(seg@, pos as int, false);
        }
        if pos >= seg.len() as u64 {
            assert(byte_strings(records@) + Seq::<Seq<u8>>::empty() =~= byte_strings(records@));
            return Ok(records);
        }
        match read_segment_block(seg, pos, false) {
            Ok(block) => {
                let ghost was = records@;
                proof {
                    lemma_byte_strings_append(was, block.records@);
                    match lenient_records(seg@, block.next_off as int) {
                        Ok(more) => {
                            assert(byte_strings(was) + (byte_strings(block.records@) + more)
                                =~= (byte_strings(was) + byte_strings(block.records@)) + more);
                        },
                        Err(_) => {},
                    }
                }
                pos = block.next_off;
                append_all(&mut records, block.records);
            },
            Err(SegmentFault::TooManyRecords) => {
                return Err(SegmentError { at: pos, fault: SegmentFault::TooManyRecords });
            },
            Err(_) => {
                assert(byte_strings(records@) + Seq::<Seq<u8>>::empty() =~= byte_strings(
                    records@,
                ));
                return Ok(records);
            },
        }
    }
}

/// Why a record could not be located.
#[derive(Clone, Copy, Debug, PartialEq, Eq, Structural)]
pub enum LookupError {
    Block(SegmentError),
    /// No row of the block starts at this offset.
    NoSuchRow(u32),
    /// The columnar block has fewer records.
    NoSuchOrdinal(u32),
}

/// The first position of a value, from `i` on.
pub open spec fn position(values: Seq<u32>, v: u32, i: int) -> Option<int>
    decreases values.len() - i,
{
    if i < 0 || i >= values.len() {
        None
    } else if values[i] == v {
        Some(i)
    } else {
        position(values, v, i + 1)
    }
}

/// The record that an index entry points at.
pub open spec fn record_at(seg: Seq<u8>, block_off: int, rec_off: u32) -> Result<
    Seq<u8>,
    LookupError,
> {
    match block_at(seg, block_off, true) {
        Err(fault) => Err(LookupError::Block(SegmentError { at: block_off as u64, fault })),
        Ok(b) => if b.columnar {
            if rec_off < b.records.len() {
                Ok(b.records[rec_off as int])
            } else {
                Err(LookupError::NoSuchOrdinal(rec_off))
            }
        } else {
            match position(b.offsets, rec_off, 0) {
                Some(i) => Ok(b.records[i]),
                None => Err(LookupError::NoSuchRow(rec_off)),
            }
        },
    }
}

fn copy_bytes(src: &Vec<u8>) -> (res: Vec<u8>)
    ensures
        res@ == src@,
{
    let mut res: Vec<u8> = Vec::new();
    push_all(&mut res, src.as_slice());
    assert(res@ =~= src@);
    res
}

/// Reads one record by its index entry.
pub fn read_record_at(seg: &[u8], block_off: u64, rec_off: u32) -> (res: Result<
    Vec<u8>,
    LookupError,
>)
    ensures
        match record_at(seg@, block_off as int, rec_off) {
            Ok(bytes) => res is Ok && (res->Ok_0)@ == bytes,
            Err(e) => res == Err::<Vec<u8>, LookupError>(e),
        },
{
    let block = match read_segment_block(seg, block_off, true) {
        Ok(block) => block,
        Err(fault) => {
            return Err(LookupError::Block(SegmentError { at: block_off, fault }));
        },
    };
    proof {
        lemma_block_next(seg@, block_off as int, true);
        assert(block@.records.len() == block.records@.len());
    }
    if block.columnar {
        if (rec_off as usize) < block.records.len() {
            return Ok(copy_bytes(&block.records[rec_off as usize]));
        }
        return Err(LookupError::NoSuchOrdinal(rec_off));
    }
    let mut i: usize = 0;
    while i < block.rec_offsets.len()
        invariant
            i <= block.rec_offsets@.len(),
            block.rec_offsets@.len() == block.records@.len(),
            block_at(seg@, block_off as int, true) == Ok::<BlockV, SegmentFault>(block@),
            !block.columnar,
            position(block@.offsets, rec_off, 0) == position(block@.offsets, rec_off, i as int),
        decreases block.rec_offsets@.len() - i,
    {
        if block.rec_offsets[i] == rec_off {
            return Ok(copy_bytes(&block.records[i]));
        }
        i = i + 1;
    }
    Err(LookupError::NoSuchRow(rec_off))
}

/// An index entry.
#[derive(Clone, Copy, Debug, PartialEq, Eq, Structural)]
pub struct IdxEntry {
    pub game_id: u64,
    pub block_off: u64,
    pub rec_off: u32,
}

pub open spec fn entry_bytes(e: IdxEntry) -> Seq<u8> {
    le(e.game_id as int, 8) + le(e.block_off as int, 8) + le(e.rec_off as int, 4)
}

/// An index: its entries back to back.
pub open spec fn idx_bytes(entries: Seq<IdxEntry>) -> Seq<u8>
    decreases entries.len(),
{
    if entries.len() == 0 {
        Seq::empty()
    } else {
        entry_bytes(entries[0]) + idx_bytes(entries.skip(1))
    }
}

pub open spec fn entry_at(b: Seq<u8>, at: int) -> IdxEntry {
    IdxEntry {
        game_id: le_value(b.subrange(at, at + 8)) as u64,
        block_off: le_value(b.subrange(at + 8, at + 16)) as u64,
        rec_off: le_value(b.subrange(at + 16, at + 20)) as u32,
    }
}

/// The entries of an index, if its length is a whole number of them.
pub open spec fn parsed_idx(b: Seq<u8>) -> Option<Seq<IdxEntry>> {
    if b.len() % 20 != 0 {
        None
    } else {
        Some(Seq::new((b.len() / 20) as nat, |i: int| entry_at(b, 20 * i)))
    }
}

pub fn parse_idx_entries(bytes: &[u8]) -> (res: Option<Vec<IdxEntry>>)
    ensures
        match res {
            Some(entries) => parsed_idx(bytes@) == Some(entries@),
            None => parsed_idx(bytes@) is None,
        },
{
    if bytes.len() % IDX_ENTRY_LEN != 0 {
        return None;
    }
    let n: usize = bytes.len() / IDX_ENTRY_LEN;
    let mut entries: Vec<IdxEntry> = Vec::new();
    let mut i: usize = 0;
    while i < n
        invariant
            i <= n,
            20 * n == bytes@.len(),
            bytes@.len() == bytes.len(),
            entries@ == Seq::new(i as nat, |i: int| entry_at(bytes@, 20 * i)),
        decreases n - i,
    {
        let at: usize = 20 * i;
        let e = IdxEntry {
            game_id: get_u64(bytes, at),
            block_off: get_u64(bytes, at + 8),
            rec_off: get_u32(bytes, at + 16),
        };
        entries.push(e);
        assert(entries@ =~= Seq::new((i + 1) as nat, |i: int| entry_at(bytes@, 20 * i)));
        i = i + 1;
    }
    Some(entries)
}

pub fn idx_to_bytes(entries: &Vec<IdxEntry>) -> (out: Vec<u8>)
    ensures
        out@ == idx_bytes(entries@),
{
    let mut out: Vec<u8> = Vec::new();
    let mut i: usize = 0;
    proof {
        assert(entries@.skip(0) =~= entries@);
        assert(out@ + idx_bytes(entries@) =~= idx_bytes(entries@));
    }
    while i < entries.len()
        invariant
            i <= entries@.len(),
            out@ + idx_bytes(entries@.skip(i as int)) == idx_bytes(entries@),
        decreases entries@.len() - i,
    {
        let ghost before = out@;
        let e = entries[i];
        put_u64(&mut out, e.game_id);
        put_u64(&mut out, e.block_off);
        put_u32(&mut out, e.rec_off);
        proof {
            let rest = entries@.skip(i as int);
            assert(rest.skip(1) =~= entries@.skip(i + 1));
            assert(before + idx_bytes(rest) =~= out@ + idx_bytes(entries@.skip(i + 1)));
        }
        i = i + 1;
    }
    proof {
        assert(entries@.skip(i as int) =~= Seq::empty());
        assert(out@ + idx_bytes(entries@.skip(i as int)) =~= out@);
    }
    out
}

/// Everything a segment holds, read strictly.
pub struct SegmentLayout {
    pub records: Vec<Vec<u8>>,
    pub idx_entries: Vec<IdxEntry>,
    pub has_row_blocks: bool,
    /// Where the readable blocks end, if bytes follow them.
    pub torn_at: Option<u64>,
}

#[verifier::ext_equal]
pub struct LayoutV {
    pub records: Seq<Seq<u8>>,
    pub entries: Seq<IdxEntry>,
    pub has_rows: bool,
    pub torn_at: Option<int>,
}

impl View for SegmentLayout {
    type V = LayoutV;

    open spec fn view(&self) -> LayoutV {
        LayoutV {
            records: byte_strings(self.records@),
            entries: self.idx_entries@,
            has_rows: self.has_row_blocks,
            torn_at: match self.torn_at {
                Some(at) => Some(at as int),
                None => None,
            },
        }
    }
}

/// A record of a readable block that is not a match record.
#[derive(Clone, Copy, Debug, PartialEq, Eq, Structural)]
pub struct BadRecord {
    pub block_off: u64,
    pub rec_off: u32,
}

/// The index entries of a block's records from `i` on.
pub open spec fn block_entries(b: BlockV, off: int, i: int) -> Result<Seq<IdxEntry>, BadRecord>
    decreases b.records.len() - i,
{
    if i < 0 || i >= b.records.len() {
        Ok(Seq::empty())
    } else {
        match record_decoded(b.records[i]) {
            None => Err(BadRecord { block_off: off as u64, rec_off: b.offsets[i] }),
            Some(r) => match block_entries(b, off, i + 1) {
                Err(e) => Err(e),
                Ok(more) => Ok(
                    seq![
                        IdxEntry {
                            game_id: r.game_id,
                            block_off: off as u64,
                            rec_off: b.offsets[i],
                        },
                    ] + more,
                ),
            },
        }
    }
}

/// What a segment holds from `pos` on. The first block that cannot be read
/// makes the rest a torn tail.
pub open spec fn layout_from(seg: Seq<u8>, pos: int) -> Result<LayoutV, BadRecord>
    decreases seg.len() - pos,
{
    proof {
        lemma_block_next(seg, pos, true);
    }
    if pos < 0 || pos >= seg.len() {
        Ok(
            LayoutV {
                records: Seq::empty(),
                entries: Seq::empty(),
                has_rows: false,
                torn_at: None,
            },
        )
    } else {
        match block_at(seg, pos, true) {
            Err(_) => Ok(
                LayoutV {
                    records: Seq::empty(),
                    entries: Seq::empty(),
                    has_rows: false,
                    torn_at: Some(pos),
                },
            ),
            Ok(b) => match block_entries(b, pos, 0) {
                Err(e) => Err(e),
                Ok(entries) => match layout_from(seg, b.next) {
                    Err(e) => Err(e),
                    Ok(more) => Ok(
                        LayoutV {
                            records: b.records + more.records,
                            entries: entries + more.entries,
                            has_rows: !b.columnar || more.has_rows,
                            torn_at: more.torn_at,
                        },
                    ),
                },
            },
        }
    }
}

fn entries_of(block: &SegmentBlock) -> (res: Result<Vec<IdxEntry>, BadRecord>)
    requires
        block.records@.len() == block.rec_offsets@.len(),
    ensures
        match block_entries(block@, block.block_off as int, 0) {
            Ok(entries) => res is Ok && (res->Ok_0)@ == entries,
            Err(e) => res == Err::<Vec<IdxEntry>, BadRecord>(e),
        },
{
    let ghost b = block@;
    let ghost off = block.block_off as int;
    let mut out: Vec<IdxEntry> = Vec::new();
    let mut i: usize = 0;
    proof {
        match block_entries(b, off, 0) {
            Ok(es) => {
                assert(out@ + es =~= es);
            },
            Err(_) => {},
        }
    }
    while i < block.records.len()
        invariant
            i <= block.records@.len(),
            block.records@.len() == block.rec_offsets@.len(),
            b == block@,
            off == block.block_off,
            match block_entries(b, off, i as int) {
                Ok(more) => block_entries(b, off, 0) == Ok::<Seq<IdxEntry>, BadRecord>(
                    out@ + more,
                ),
                Err(e) => block_entries(b, off, 0) == Err::<Seq<IdxEntry>, BadRecord>(e),
            },
        decreases block.records@.len() - i,
    {
        match MatchRecord::decode(block.records[i].as_slice()) {
            Some(r) => {
                let e = IdxEntry {
                    game_id: r.game_id,
                    block_off: block.block_off,
                    rec_off: block.rec_offsets[i],
                };
                proof {
                    match block_entries(b, off, i + 1) {
                        Ok(more) => {
                            assert(out@ + (seq![e] + more) =~= out@.push(e) + more);
                        },
                        Err(_) => {},
                    }
                }
                out.push(e);
            },
            None => {
                return Err(
                    BadRecord { block_off: block.block_off, rec_off: block.rec_offsets[i] },
                );
            },
        }
        i = i + 1;
    }
    assert(out@ + Seq::<IdxEntry>::empty() =~= out@);
    Ok(out)
}

/// A layout whose first part is known and whose rest is `more`.
spec fn after_layout(first: LayoutV, more: LayoutV) -> LayoutV {
    LayoutV {
        records: first.records + more.records,
        entries: first.entries + more.entries,
        has_rows: first.has_rows || more.has_rows,
        torn_at: more.torn_at,
    }
}

/// Reads everything a segment holds.
pub fn read_segment_layout(seg: &[u8]) -> (res: Result<SegmentLayout, BadRecord>)
    ensures
        match layout_from(seg@, 0) {
            Ok(layout) => res is Ok && (res->Ok_0)@ == layout,
            Err(e) => res == Err::<SegmentLayout, BadRecord>(e),
        },
{
    let mut out = SegmentLayout {
        records: Vec::new(),
        idx_entries: Vec::new(),
        has_row_blocks: false,
        torn_at: None,
    };
    let mut pos: u64 = 0;
    let ghost goal = layout_from(seg@, 0);
    proof {
        assert(byte_strings(out.records@) =~= Seq::empty());
        match goal {
            Ok(l) => {
                assert(after_layout(out@, l) =~= l);
            },
            Err(_) => {},
        }
    }
    while pos < seg.len() as u64
        invariant
            pos <= seg@.len(),
            out.torn_at is None,
            goal == layout_from(seg@, 0),
            match layout_from(seg@, pos as int) {
                Ok(more) => goal == Ok::<LayoutV, BadRecord>(after_layout(out@, more)),
                Err(e) => goal == Err::<LayoutV, BadRecord>(e),
            },
        decreases seg@.len() - pos,
    {
        proof {
            lemma_block_next(seg@, pos as int, true);
        }
        match read_segment_block(seg, pos, true) {
            Ok(block) => {
                proof {
                    assert(block@.records.len() == block.records@.len());
                }
                let mut entries = match entries_of(&block) {
                    Ok(entries) => entries,
                    Err(e) => {
                        return Err(e);
                    },
                };
                let ghost was = out@;
                let ghost step = LayoutV {
                    records: block@.records,
                    entries: entries@,
                    has_rows: !block.columnar,
                    torn_at: None,
                };
                proof {
                    lemma_byte_strings_append(out.records@, block.records@);
                    match layout_from(seg@, block.next_off as int) {
                        Ok(more) => {
                            assert(after_layout(was, after_layout(step, more)) =~= after_layout(
                                after_layout(was, step),
                                more,
                            ));
                        },
                        Err(_) => {},
                    }
                }
                pos = block.next_off;
                if !block.columnar {
                    out.has_row_blocks = true;
                }
                out.idx_entries.append(&mut entries);
                append_all(&mut out.records, block.records);
                assert(out@ =~= after_layout(was, step));
            },
            Err(_) => {
                let ghost was = out@;
                out.torn_at = Some(pos);
                proof {
                    let tail = LayoutV {
                        records: Seq::empty(),
                        entries: Seq::empty(),
                        has_rows: false,
                        torn_at: Some(pos as int),
                    };
                    assert(out@ =~= after_layout(was, tail));
                }
                return Ok(out);
            },
        }
    }
    proof {
        let none = LayoutV {
            records: Seq::empty(),
            entries: Seq::empty(),
            has_rows: false,
            torn_at: None,
        };
        assert(after_layout(out@, none) =~= out@);
    }
    Ok(out)
}

} // verus!
