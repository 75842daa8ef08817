//! Rewriting a closed segment in columnar form.
//!
//! The rewrite is lossless: the new segment holds the records of the old one,
//! byte for byte and in order. A torn tail, which a crash leaves behind, is
//! dropped; but one that the index points into is not a crash's, and the
//! segment is left alone.

use crate::codec::{zstd_compress, zstd_content, zstd_frame};
use crate::columnar::{block_records, byte_strings, encodings, EncodeError};
use crate::columnar_encode::{block_encoded, encode_block};
use crate::recompact_laws::law_rewrite_is_accepted;
use crate::record::{record_decoded, MatchRecord};
use crate::segment::{
    block_at, block_entries, idx_bytes, idx_to_bytes, layout_from, lemma_block_next,
    parse_idx_entries, parsed_idx, read_segment_layout, BadRecord, BlockV, IdxEntry, LayoutV,
    SegmentLayout, COL_MAGIC, MAX_SEGMENT_BLOCK_BYTES,
};
use crate::segment_write::{build_container, container};
use crate::wire::push_all;
use vstd::prelude::*;
use vstd::string::StringExecFns;

verus! {

/// Records in one columnar block.
pub const COLUMNAR_RECOMPACT_RECORDS_PER_BLOCK: usize = 6_000;

/// Compression level of columnar blocks.
pub const COLUMNAR_RECOMPACT_ZSTD_LEVEL: i32 = 19;

/// What a recompaction did.
#[derive(Clone, Copy, Debug, PartialEq, Eq, Structural)]
pub struct RecompactOutcome {
    pub already_compacted: bool,
    pub rebuilt_idx: bool,
    pub dropped_tail_bytes: u64,
    pub before_seg_bytes: u64,
    pub after_seg_bytes: u64,
    pub before_idx_bytes: u64,
    pub after_idx_bytes: u64,
    pub record_count: usize,
}

/// What is to become of the two files.
pub enum Rewrite {
    /// The segment stays, cut to a length if one is given; the index is
    /// replaced if one is given.
    Keep { truncate_to: Option<u64>, idx: Option<Vec<u8>> },
    /// Both files are replaced.
    Replace { seg: Vec<u8>, idx: Vec<u8> },
}

pub struct Recompaction {
    pub outcome: RecompactOutcome,
    pub rewrite: Rewrite,
}

/// Why a segment was left alone.
#[derive(Clone, Copy, Debug, PartialEq, Eq, Structural)]
pub enum RecompactError {
    /// A record of the segment is not a match record.
    BadRecord(BadRecord),
    /// The segment has a torn tail and the index is no index.
    TailWithMalformedIdx { valid_len: u64, dropped_bytes: u64 },
    /// The index points into the torn tail.
    TailIndexed { valid_len: u64, dropped_bytes: u64, game_id: u64, block_off: u64 },
    Encode(EncodeError),
    /// The compressor gave up.
    Compress,
    /// A block does not fit its header.
    BlockTooLarge,
    /// The rewritten segment cannot be read to its end.
    VerifyTorn,
    VerifyBadRecord(BadRecord),
    VerifyCount { want: usize, got: usize },
    VerifyBytes { record: usize },
}

#[verifier::ext_equal]
pub enum RewriteV {
    Keep { truncate_to: Option<u64>, idx: Option<Seq<u8>> },
    Replace { seg: Seq<u8>, idx: Seq<u8> },
}

#[verifier::ext_equal]
pub struct RecompactionV {
    pub outcome: RecompactOutcome,
    pub rewrite: RewriteV,
}

impl View for Rewrite {
    type V = RewriteV;

    open spec fn view(&self) -> RewriteV {
        match *self {
            Rewrite::Keep { truncate_to, idx } => RewriteV::Keep {
                truncate_to,
                idx: match idx {
                    Some(b) => Some(b@),
                    None => None,
                },
            },
            Rewrite::Replace { seg, idx } => RewriteV::Replace { seg: seg@, idx: idx@ },
        }
    }
}

impl View for Recompaction {
    type V = RecompactionV;

    open spec fn view(&self) -> RecompactionV {
        RecompactionV { outcome: self.outcome, rewrite: self.rewrite@ }
    }
}

/// The bytes of an index, if there is one.
pub open spec fn view_of(idx: Option<&[u8]>) -> Option<Seq<u8>> {
    match idx {
        Some(b) => Some(b@),
        None => None,
    }
}

/// The first entry from `i` on that points at or behind an offset.
pub open spec fn first_behind(entries: Seq<IdxEntry>, off: int, i: int) -> Option<IdxEntry>
    decreases entries.len() - i,
{
    if i < 0 || i >= entries.len() {
        None
    } else if entries[i].block_off >= off {
        Some(entries[i])
    } else {
        first_behind(entries, off, i + 1)
    }
}

/// Why a torn tail may not be dropped, if so.
pub open spec fn tail_objection(
    idx: Option<Seq<u8>>,
    valid_len: int,
    seg_len: int,
) -> Option<RecompactError> {
    match idx {
        None => None,
        Some(b) => match parsed_idx(b) {
            None => Some(
                RecompactError::TailWithMalformedIdx {
                    valid_len: valid_len as u64,
                    dropped_bytes: (seg_len - valid_len) as u64,
                },
            ),
            Some(entries) => match first_behind(entries, valid_len, 0) {
                Some(e) => Some(
                    RecompactError::TailIndexed {
                        valid_len: valid_len as u64,
                        dropped_bytes: (seg_len - valid_len) as u64,
                        game_id: e.game_id,
                        block_off: e.block_off,
                    },
                ),
                None => None,
            },
        },
    }
}

/// Index entries are written only after their block is on disk, so a tail
/// that a crash left has none. Entries that point there mean damage in the
/// middle of the file, where dropping would lose indexed records.
fn check_torn_tail(idx: Option<&[u8]>, valid_len: u64, seg_len: u64) -> (res: Option<
    RecompactError,
>)
    requires
        valid_len <= seg_len,
    ensures
        res == tail_objection(view_of(idx), valid_len as int, seg_len as int),
{
    let bytes = match idx {
        Some(bytes) => bytes,
        None => {
            return None;
        },
    };
    let entries = match parse_idx_entries(bytes) {
        Some(entries) => entries,
        None => {
            return Some(
                RecompactError::TailWithMalformedIdx {
                    valid_len,
                    dropped_bytes: seg_len - valid_len,
                },
            );
        },
    };
    let mut i: usize = 0;
    while i < entries.len()
        invariant
            i <= entries@.len(),
            valid_len <= seg_len,
            first_behind(entries@, valid_len as int, 0) == first_behind(
                entries@,
                valid_len as int,
                i as int,
            ),
            idx == Some(bytes),
            parsed_idx(bytes@) == Some(entries@),
        decreases entries@.len() - i,
    {
        let e = entries[i];
        if e.block_off >= valid_len {
            return Some(
                RecompactError::TailIndexed {
                    valid_len,
                    dropped_bytes: seg_len - valid_len,
                    game_id: e.game_id,
                    block_off: e.block_off,
                },
            );
        }
        i = i + 1;
    }
    None
}

pub open spec fn min(a: int, b: int) -> int {
    if a <= b {
        a
    } else {
        b
    }
}

/// A columnar block of records.
pub open spec fn columnar_block(records: Seq<Seq<u8>>, level: int) -> Result<
    Seq<u8>,
    RecompactError,
> {
    match block_encoded(records) {
        Err(e) => Err(RecompactError::Encode(e)),
        Ok(payload) => {
            let frame = zstd_frame(payload, level);
            if frame.len() > u32::MAX || payload.len() > u32::MAX {
                Err(RecompactError::BlockTooLarge)
            } else {
                Ok(container(COL_MAGIC, payload.len() as int, frame))
            }
        },
    }
}

/// Turns what the compressor gave back for a payload into a columnar block.
pub fn boxed(payload_len: usize, frame: Option<Vec<u8>>) -> (res: Result<Vec<u8>, RecompactError>)
    ensures
        match frame {
            None => res == Err::<Vec<u8>, RecompactError>(RecompactError::Compress),
            Some(f) => if f@.len() > u32::MAX || payload_len > u32::MAX {
                res == Err::<Vec<u8>, RecompactError>(RecompactError::BlockTooLarge)
            } else {
                res is Ok && (res->Ok_0)@ == container(COL_MAGIC, payload_len as int, f@)
            },
        },
{
    match frame {
        None => Err(RecompactError::Compress),
        Some(f) => {
            if f.len() as u64 > 0xffff_ffff || payload_len as u64 > 0xffff_ffff {
                return Err(RecompactError::BlockTooLarge);
            }
            Ok(build_container(COL_MAGIC, payload_len, f.as_slice()))
        },
    }
}

/// Builds a columnar block of records. The compressor is asked only for records
/// that encode, and only it may give up.
pub fn write_columnar_block(records: &[Vec<u8>], level: i32) -> (res: Result<
    Vec<u8>,
    RecompactError,
>)
    ensures
        res == Err::<Vec<u8>, RecompactError>(RecompactError::Compress) || match columnar_block(
            byte_strings(records@),
            level as int,
        ) {
            Ok(bytes) => res is Ok && (res->Ok_0)@ == bytes,
            Err(e) => res == Err::<Vec<u8>, RecompactError>(e),
        },
        match block_encoded(byte_strings(records@)) {
            Err(e) => res == Err::<Vec<u8>, RecompactError>(RecompactError::Encode(e)),
            Ok(_) => res is Ok || !(res->Err_0 is Encode),
        },
        res is Ok ==> {
            let payload = block_encoded(byte_strings(records@))->Ok_0;
            &&& zstd_content(zstd_frame(payload, level as int)) == Some(payload)
            &&& block_records(payload) is Ok
            &&& encodings(block_records(payload)->Ok_0) == byte_strings(records@)
        },
{
    let payload = match encode_block(records) {
        Ok(payload) => payload,
        Err(e) => {
            return Err(RecompactError::Encode(e));
        },
    };
    let frame = zstd_compress(payload.as_slice(), level);
    boxed(payload.len(), frame)
}

/// The index entries of records in a columnar block at `off`, from ordinal
/// `i` on. Every record decodes.
pub open spec fn columnar_entries(records: Seq<Seq<u8>>, off: int) -> Seq<IdxEntry> {
    Seq::new(
        records.len(),
        |i: int|
            IdxEntry {
                game_id: record_decoded(records[i])->0.game_id,
                block_off: off as u64,
                rec_off: i as u32,
            },
    )
}

/// A segment of columnar blocks, and its index.
#[verifier::ext_equal]
pub struct FilesV {
    pub seg: Seq<u8>,
    pub entries: Seq<IdxEntry>,
}

/// The chunk of records that starts at `k`.
pub open spec fn chunk(records: Seq<Seq<u8>>, k: int) -> Seq<Seq<u8>> {
    records.subrange(
        k,
        min(k + COLUMNAR_RECOMPACT_RECORDS_PER_BLOCK, records.len() as int),
    )
}

/// The columnar blocks of the records from `k` on, the first at offset `off`.
pub open spec fn columnar_files(records: Seq<Seq<u8>>, k: int, off: int) -> Result<
    FilesV,
    RecompactError,
>
    decreases records.len() - k,
{
    if k < 0 || k >= records.len() {
        Ok(FilesV { seg: Seq::empty(), entries: Seq::empty() })
    } else {
        match columnar_block(chunk(records, k), COLUMNAR_RECOMPACT_ZSTD_LEVEL as int) {
            Err(e) => Err(e),
            Ok(block) => match columnar_files(
                records,
                min(k + COLUMNAR_RECOMPACT_RECORDS_PER_BLOCK, records.len() as int),
                off + block.len(),
            ) {
                Err(e) => Err(e),
                Ok(more) => Ok(
                    FilesV {
                        seg: block + more.seg,
                        entries: columnar_entries(chunk(records, k), off) + more.entries,
                    },
                ),
            },
        }
    }
}

/// The compressor is asked for the blocks of these records, as there are some
/// and the first of them encode.
pub open spec fn may_give_up(records: Seq<Seq<u8>>) -> bool {
    records.len() > 0 && block_encoded(chunk(records, 0)) is Ok
}

/// The first record from `i` on that differs.
pub open spec fn first_changed(want: Seq<Seq<u8>>, got: Seq<Seq<u8>>, i: int) -> Option<int>
    decreases want.len() - i,
{
    if i < 0 || i >= want.len() {
        None
    } else if want[i] != got[i] {
        Some(i)
    } else {
        first_changed(want, got, i + 1)
    }
}

/// Why two lists of records are not the same, if so.
pub open spec fn rewrite_objection(want: Seq<Seq<u8>>, got: Seq<Seq<u8>>) -> Option<
    RecompactError,
> {
    if want.len() != got.len() {
        Some(
            RecompactError::VerifyCount { want: want.len() as usize, got: got.len() as usize },
        )
    } else {
        match first_changed(want, got, 0) {
            Some(i) => Some(RecompactError::VerifyBytes { record: i as usize }),
            None => None,
        }
    }
}

pub fn same_bytes(a: &Vec<u8>, b: &Vec<u8>) -> (res: bool)
    ensures
        res == (a@ == b@),
{
    if a.len() != b.len() {
        return false;
    }
    let mut i: usize = 0;
    while i < a.len()
        invariant
            i <= a@.len(),
            a@.len() == b@.len(),
            forall|j: int| 0 <= j < i ==> a@[j] == b@[j],
        decreases a@.len() - i,
    {
        if a[i] != b[i] {
            return false;
        }
        i = i + 1;
    }
    assert(a@ =~= b@);
    true
}

/// Compares the records of a segment with those of its rewrite.
pub fn verify_rewrite(want: &Vec<Vec<u8>>, got: &Vec<Vec<u8>>) -> (res: Option<RecompactError>)
    ensures
        res == rewrite_objection(byte_strings(want@), byte_strings(got@)),
        res is None ==> byte_strings(want@) == byte_strings(got@),
{
    let ghost w = byte_strings(want@);
    let ghost g = byte_strings(got@);
    if want.len() != got.len() {
        return Some(RecompactError::VerifyCount { want: want.len(), got: got.len() });
    }
    let mut i: usize = 0;
    while i < want.len()
        invariant
            i <= want@.len(),
            want@.len() == got@.len(),
            w == byte_strings(want@),
            g == byte_strings(got@),
            first_changed(w, g, 0) == first_changed(w, g, i as int),
            forall|j: int| 0 <= j < i ==> #[trigger] w[j] == g[j],
        decreases want@.len() - i,
    {
        if !same_bytes(&want[i], &got[i]) {
            return Some(RecompactError::VerifyBytes { record: i });
        }
        i = i + 1;
    }
    assert(w =~= g);
    None
}

/// Whether every record decodes.
pub open spec fn all_decode(records: Seq<Seq<u8>>) -> bool {
    forall|i: int| 0 <= i < records.len() ==> record_decoded(#[trigger] records[i]) is Some
}

fn entries_of_chunk(records: &[Vec<u8>], off: u64) -> (out: Vec<IdxEntry>)
    requires
        all_decode(byte_strings(records@)),
        records@.len() <= 0x1_0000_0000,
    ensures
        out@ == columnar_entries(byte_strings(records@), off as int),
{
    let ghost all = byte_strings(records@);
    let mut out: Vec<IdxEntry> = Vec::new();
    let mut i: usize = 0;
    while i < records.len()
        invariant
            i <= records@.len() <= 0x1_0000_0000,
            all == byte_strings(records@),
            all_decode(all),
            out@ == columnar_entries(all, off as int).take(i as int),
        decreases records@.len() - i,
    {
        assert(all[i as int] == records@[i as int]@);
        assert(record_decoded(all[i as int]) is Some);
        match MatchRecord::decode(records[i].as_slice()) {
            Some(r) => {
                out.push(IdxEntry { game_id: r.game_id, block_off: off, rec_off: i as u32 });
            },
            None => {},
        }
        assert(out@ =~= columnar_entries(all, off as int).take(i + 1));
        i = i + 1;
    }
    assert(columnar_entries(all, off as int).take(i as int) =~= columnar_entries(
        all,
        off as int,
    ));
    out
}

/// Appends the block of some records to a segment, and their entries to its
/// index. Every record decodes.
pub fn add_block(
    seg: &mut Vec<u8>,
    entries: &mut Vec<IdxEntry>,
    part: &[Vec<u8>],
    block: &[u8],
)
    requires
        all_decode(byte_strings(part@)),
        part@.len() <= 0x1_0000_0000,
    ensures
        final(seg)@ == old(seg)@ + block@,
        final(entries)@ == old(entries)@ + columnar_entries(
            byte_strings(part@),
            old(seg)@.len() as int,
        ),
{
    let off: u64 = seg.len() as u64;
    let mut more = entries_of_chunk(part, off);
    push_all(seg, block);
    entries.append(&mut more);
}

/// Puts all records into columnar blocks: the segment and its index entries.
fn build_columnar_files(records: &Vec<Vec<u8>>) -> (res: Result<
    (Vec<u8>, Vec<IdxEntry>),
    RecompactError,
>)
    requires
        all_decode(byte_strings(records@)),
    ensures
        res == Err::<(Vec<u8>, Vec<IdxEntry>), RecompactError>(RecompactError::Compress)
            || match columnar_files(byte_strings(records@), 0, 0) {
            Ok(files) => res is Ok && (res->Ok_0).0@ == files.seg && (res->Ok_0).1@
                == files.entries,
            Err(e) => res == Err::<(Vec<u8>, Vec<IdxEntry>), RecompactError>(e),
        },
        res == Err::<(Vec<u8>, Vec<IdxEntry>), RecompactError>(RecompactError::Compress)
            ==> may_give_up(byte_strings(records@)),
        res is Ok ==> sound_from(byte_strings(records@), 0),
{
    let ghost all = byte_strings(records@);
    let ghost goal = columnar_files(all, 0, 0);
    let mut seg: Vec<u8> = Vec::new();
    let mut entries: Vec<IdxEntry> = Vec::new();
    let mut k: usize = 0;
    proof {
        match goal {
            Ok(f) => {
                assert(seg@ + f.seg =~= f.seg);
                assert(entries@ + f.entries =~= f.entries);
            },
            Err(_) => {},
        }
    }
    while k < records.len()
        invariant
            k <= records@.len(),
            all == byte_strings(records@),
            all_decode(all),
            goal == columnar_files(all, 0, 0),
            sound_from(all, k as int) ==> sound_from(all, 0),
            k > 0 ==> may_give_up(all),
            match columnar_files(all, k as int, seg@.len() as int) {
                Ok(more) => goal == Ok::<FilesV, RecompactError>(
                    FilesV { seg: seg@ + more.seg, entries: entries@ + more.entries },
                ),
                Err(e) => goal == Err::<FilesV, RecompactError>(e),
            },
        decreases records@.len() - k,
    {
        let left: usize = records.len() - k;
        let n: usize = if left < COLUMNAR_RECOMPACT_RECORDS_PER_BLOCK {
            left
        } else {
            COLUMNAR_RECOMPACT_RECORDS_PER_BLOCK
        };
        let part = vstd::slice::slice_subrange(records.as_slice(), k, k + n);
        let ghost c = chunk(all, k as int);
        proof {
            assert(byte_strings(part@) =~= c);
            assert forall|i: int| 0 <= i < c.len() implies record_decoded(
                #[trigger] c[i],
            ) is Some by {
                assert(c[i] == all[k + i]);
            }
        }
        let block = match write_columnar_block(part, COLUMNAR_RECOMPACT_ZSTD_LEVEL) {
            Ok(block) => block,
            Err(e) => {
                return Err(e);
            },
        };
        let ghost was_seg = seg@;
        let ghost was_entries = entries@;
        let ghost new_entries = columnar_entries(c, seg@.len() as int);
        add_block(&mut seg, &mut entries, part, block.as_slice());
        proof {
            match columnar_files(all, k + n, seg@.len() as int) {
                Ok(more) => {
                    assert(was_seg + (block@ + more.seg) =~= seg@ + more.seg);
                    assert(was_entries + (new_entries + more.entries) =~= entries@
                        + more.entries);
                },
                Err(_) => {},
            }
        }
        k = k + n;
    }
    proof {
        assert(seg@ + Seq::<u8>::empty() =~= seg@);
        assert(entries@ + Seq::<IdxEntry>::empty() =~= entries@);
    }
    Ok((seg, entries))
}

/// What speaks against a rewritten segment, if anything: it must be readable to
/// its end and hold the records it was made from.
pub open spec fn seg_objection(records: Seq<Seq<u8>>, seg: Seq<u8>) -> Option<RecompactError> {
    match layout_from(seg, 0) {
        Err(e) => Some(RecompactError::VerifyBadRecord(e)),
        Ok(layout) => if layout.torn_at is Some {
            Some(RecompactError::VerifyTorn)
        } else {
            rewrite_objection(records, layout.records)
        },
    }
}

/// Reads a rewritten segment back and compares its records with those it was
/// made from.
pub fn check_rewrite(records: &Vec<Vec<u8>>, seg: &[u8]) -> (res: Option<RecompactError>)
    ensures
        res == seg_objection(byte_strings(records@), seg@),
        res is None ==> layout_from(seg@, 0)->Ok_0.records == byte_strings(records@),
{
    let rewritten = match read_segment_layout(seg) {
        Ok(l) => l,
        Err(e) => {
            return Some(RecompactError::VerifyBadRecord(e));
        },
    };
    if rewritten.torn_at.is_some() {
        return Some(RecompactError::VerifyTorn);
    }
    verify_rewrite(records, &rewritten.records)
}

pub open spec fn dropped(layout: LayoutV, seg_len: int) -> int {
    match layout.torn_at {
        Some(at) => seg_len - at,
        None => 0,
    }
}

/// What becomes of a segment without row blocks.
pub open spec fn kept(layout: LayoutV, seg_len: int, idx: Option<Seq<u8>>) -> RecompactionV {
    let stale = idx is None || parsed_idx(idx->0) != Some(layout.entries);
    let idx_len = if idx is Some {
        idx->0.len() as int
    } else {
        0
    };
    RecompactionV {
        outcome: RecompactOutcome {
            already_compacted: true,
            rebuilt_idx: stale,
            dropped_tail_bytes: dropped(layout, seg_len) as u64,
            before_seg_bytes: seg_len as u64,
            after_seg_bytes: (seg_len - dropped(layout, seg_len)) as u64,
            before_idx_bytes: idx_len as u64,
            after_idx_bytes: if stale {
                idx_bytes(layout.entries).len() as u64
            } else {
                idx_len as u64
            },
            record_count: layout.records.len() as usize,
        },
        rewrite: RewriteV::Keep {
            truncate_to: match layout.torn_at {
                Some(at) => Some(at as u64),
                None => None,
            },
            idx: if stale {
                Some(idx_bytes(layout.entries))
            } else {
                None
            },
        },
    }
}

/// What becomes of a segment with row blocks, given the files that its records
/// were put into.
pub open spec fn rewritten_as(
    layout: LayoutV,
    seg_len: int,
    idx_len: int,
    files: FilesV,
) -> Result<RecompactionV, RecompactError> {
    match seg_objection(layout.records, files.seg) {
        Some(e) => Err(e),
        None => Ok(
            RecompactionV {
                outcome: RecompactOutcome {
                    already_compacted: false,
                    rebuilt_idx: true,
                    dropped_tail_bytes: dropped(layout, seg_len) as u64,
                    before_seg_bytes: seg_len as u64,
                    after_seg_bytes: files.seg.len() as u64,
                    before_idx_bytes: idx_len as u64,
                    after_idx_bytes: idx_bytes(files.entries).len() as u64,
                    record_count: layout.records.len() as usize,
                },
                rewrite: RewriteV::Replace { seg: files.seg, idx: idx_bytes(files.entries) },
            },
        ),
    }
}

/// What becomes of a segment with row blocks.
pub open spec fn replaced(layout: LayoutV, seg_len: int, idx: Option<Seq<u8>>) -> Result<
    RecompactionV,
    RecompactError,
> {
    match columnar_files(layout.records, 0, 0) {
        Err(e) => Err(e),
        Ok(files) => rewritten_as(
            layout,
            seg_len,
            if idx is Some {
                idx->0.len() as int
            } else {
                0
            },
            files,
        ),
    }
}

/// What becomes of a segment and its index.
pub open spec fn recompacted(seg: Seq<u8>, idx: Option<Seq<u8>>) -> Result<
    RecompactionV,
    RecompactError,
> {
    match layout_from(seg, 0) {
        Err(e) => Err(RecompactError::BadRecord(e)),
        Ok(layout) => {
            let objection = match layout.torn_at {
                Some(at) => tail_objection(idx, at, seg.len() as int),
                None => None,
            };
            match objection {
                Some(e) => Err(e),
                None => if layout.has_rows {
                    replaced(layout, seg.len() as int, idx)
                } else {
                    Ok(kept(layout, seg.len() as int, idx))
                },
            }
        },
    }
}

/// Blocks that a reader takes fit their headers.
proof fn lemma_small_fits(records: Seq<Seq<u8>>, k: int, off: int)
    requires
        small_from(records, k),
    ensures
        columnar_files(records, k, off) matches Err(e) ==> e is Encode,
    decreases records.len() - k,
{
    if 0 <= k < records.len() {
        let next = min(k + COLUMNAR_RECOMPACT_RECORDS_PER_BLOCK, records.len() as int);
        match columnar_block(chunk(records, k), COLUMNAR_RECOMPACT_ZSTD_LEVEL as int) {
            Ok(block) => lemma_small_fits(records, next, off + block.len()),
            Err(_) => {},
        }
    }
}

/// Why a segment is left alone whatever the compressor does, if so.
pub open spec fn refusal(seg: Seq<u8>, idx: Option<Seq<u8>>) -> Option<RecompactError> {
    match layout_from(seg, 0) {
        Err(e) => Some(RecompactError::BadRecord(e)),
        Ok(layout) => match layout.torn_at {
            Some(at) => tail_objection(idx, at, seg.len() as int),
            None => None,
        },
    }
}

pub proof fn lemma_entries_decode(b: BlockV, off: int, i: int)
    requires
        0 <= i,
        block_entries(b, off, i) is Ok,
    ensures
        forall|j: int|
            i <= j < b.records.len() ==> record_decoded(#[trigger] b.records[j]) is Some,
        block_entries(b, off, i)->Ok_0 == Seq::new(
            max0(b.records.len() - i),
            |j: int|
                IdxEntry {
                    game_id: record_decoded(b.records[i + j])->0.game_id,
                    block_off: off as u64,
                    rec_off: b.offsets[i + j],
                },
        ),
    decreases b.records.len() - i,
{
    let want = Seq::new(
        max0(b.records.len() - i),
        |j: int|
            IdxEntry {
                game_id: record_decoded(b.records[i + j])->0.game_id,
                block_off: off as u64,
                rec_off: b.offsets[i + j],
            },
    );
    if i < b.records.len() {
        lemma_entries_decode(b, off, i + 1);
        assert(block_entries(b, off, i)->Ok_0 =~= want);
    } else {
        assert(want =~= Seq::empty());
    }
}

pub open spec fn max0(v: int) -> nat {
    if v < 0 {
        0
    } else {
        v as nat
    }
}

/// Every record of a segment that could be laid out decodes, and a torn tail
/// starts within the segment.
pub proof fn lemma_layout_decodes(seg: Seq<u8>, pos: int)
    ensures
        layout_from(seg, pos) matches Ok(l) ==> all_decode(l.records) && (l.torn_at matches Some(
            at,
        ) ==> pos <= at < seg.len()),
    decreases seg.len() - pos,
{
    if 0 <= pos < seg.len() {
        lemma_block_next(seg, pos, true);
        match block_at(seg, pos, true) {
            Ok(b) => {
                match block_entries(b, pos, 0) {
                    Ok(_) => {
                        lemma_entries_decode(b, pos, 0);
                        lemma_layout_decodes(seg, b.next);
                    },
                    Err(_) => {},
                }
            },
            Err(_) => {},
        }
    }
}

fn same_entries(a: &Vec<IdxEntry>, b: &Vec<IdxEntry>) -> (res: bool)
    ensures
        res == (a@ == b@),
{
    if a.len() != b.len() {
        return false;
    }
    let mut i: usize = 0;
    while i < a.len()
        invariant
            i <= a@.len(),
            a@.len() == b@.len(),
            forall|j: int| 0 <= j < i ==> a@[j] == b@[j],
        decreases a@.len() - i,
    {
        if a[i] != b[i] {
            return false;
        }
        i = i + 1;
    }
    assert(a@ =~= b@);
    true
}

/// A block whose encoding and compression keep its records. The encoder and
/// the compressor promise this of every block that they make.
pub open spec fn chunk_sound(c: Seq<Seq<u8>>) -> bool {
    block_encoded(c) matches Ok(payload) ==> {
        &&& zstd_content(zstd_frame(payload, COLUMNAR_RECOMPACT_ZSTD_LEVEL as int)) == Some(
            payload,
        )
        &&& block_records(payload) is Ok
        &&& encodings(block_records(payload)->Ok_0) == c
    }
}

/// Every block of a rewrite from record `k` on keeps its records.
pub open spec fn sound_from(records: Seq<Seq<u8>>, k: int) -> bool
    decreases records.len() - k,
{
    if k < 0 || k >= records.len() {
        true
    } else {
        chunk_sound(chunk(records, k)) && sound_from(
            records,
            min(k + COLUMNAR_RECOMPACT_RECORDS_PER_BLOCK, records.len() as int),
        )
    }
}

/// Every block of a rewrite from record `k` on is small enough for a reader.
pub open spec fn small_from(records: Seq<Seq<u8>>, k: int) -> bool
    decreases records.len() - k,
{
    if k < 0 || k >= records.len() {
        true
    } else {
        &&& block_encoded(chunk(records, k)) matches Ok(payload) ==> {
            &&& payload.len() <= MAX_SEGMENT_BLOCK_BYTES
            &&& zstd_frame(payload, COLUMNAR_RECOMPACT_ZSTD_LEVEL as int).len()
                <= MAX_SEGMENT_BLOCK_BYTES
        }
        &&& small_from(
            records,
            min(k + COLUMNAR_RECOMPACT_RECORDS_PER_BLOCK, records.len() as int),
        )
    }
}

/// A recompaction that passed: what becomes of the two files, and that every
/// block that was written keeps its records.
pub open spec fn is_recompaction(seg: Seq<u8>, idx: Option<Seq<u8>>, r: RecompactionV) -> bool {
    &&& recompacted(seg, idx) == Ok::<RecompactionV, RecompactError>(r)
    &&& r.rewrite is Replace ==> sound_from(layout_from(seg, 0)->Ok_0.records, 0)
}

/// The segment after a recompaction.
pub open spec fn seg_after(seg: Seq<u8>, r: RecompactionV) -> Seq<u8> {
    match r.rewrite {
        RewriteV::Replace { seg, .. } => seg,
        RewriteV::Keep { truncate_to: Some(at), .. } => seg.take(at as int),
        RewriteV::Keep { truncate_to: None, .. } => seg,
    }
}

/// The index after a recompaction.
pub open spec fn idx_after(idx: Option<Seq<u8>>, r: RecompactionV) -> Option<Seq<u8>> {
    match r.rewrite {
        RewriteV::Replace { idx, .. } => Some(idx),
        RewriteV::Keep { idx: Some(b), .. } => Some(b),
        RewriteV::Keep { idx: None, .. } => idx,
    }
}

/// Replaces a segment with row blocks by the files that its records were put
/// into, once those were read back.
pub fn finish_rewrite(
    layout: &SegmentLayout,
    seg_len: u64,
    idx_len: u64,
    seg: Vec<u8>,
    entries: &Vec<IdxEntry>,
) -> (res: Result<Recompaction, RecompactError>)
    requires
        layout@.torn_at matches Some(at) ==> at <= seg_len,
    ensures
        match rewritten_as(
            layout@,
            seg_len as int,
            idx_len as int,
            (FilesV { seg: seg@, entries: entries@ }),
        ) {
            Ok(r) => res is Ok && (res->Ok_0)@ == r,
            Err(e) => res == Err::<Recompaction, RecompactError>(e),
        },
{
    match check_rewrite(&layout.records, seg.as_slice()) {
        Some(e) => {
            return Err(e);
        },
        None => {},
    }
    let dropped_tail_bytes: u64 = match layout.torn_at {
        Some(at) => seg_len - at,
        None => 0,
    };
    let idx = idx_to_bytes(entries);
    assert(layout@.records.len() == layout.records@.len());
    let r = Recompaction {
        outcome: RecompactOutcome {
            already_compacted: false,
            rebuilt_idx: true,
            dropped_tail_bytes,
            before_seg_bytes: seg_len,
            after_seg_bytes: seg.len() as u64,
            before_idx_bytes: idx_len,
            after_idx_bytes: idx.len() as u64,
            record_count: layout.records.len(),
        },
        rewrite: Rewrite::Replace { seg, idx },
    };
    Ok(r)
}

/// Decides what becomes of a segment and its index, given what the two files
/// hold. Nothing is decided on the strength of a compressor that gave up; it is
/// asked only where there are row blocks and nothing speaks against a rewrite.
/// Where its blocks are small enough for a reader, a rewrite passes.
pub fn recompact_segment(seg: &[u8], idx: Option<&[u8]>) -> (res: Result<
    Recompaction,
    RecompactError,
>)
    ensures
        res == Err::<Recompaction, RecompactError>(RecompactError::Compress)
            || match recompacted(seg@, view_of(idx)) {
            Ok(r) => res is Ok && (res->Ok_0)@ == r,
            Err(e) => res == Err::<Recompaction, RecompactError>(e),
        },
        refusal(seg@, view_of(idx)) matches Some(e) ==> res == Err::<Recompaction, RecompactError>(
            e,
        ),
        refusal(seg@, view_of(idx)) is None && !layout_from(seg@, 0)->Ok_0.has_rows ==> res is Ok
            && (res->Ok_0)@ == kept(
            layout_from(seg@, 0)->Ok_0,
            seg@.len() as int,
            view_of(idx),
        ),
        res == Err::<Recompaction, RecompactError>(RecompactError::Compress) ==> {
            &&& refusal(seg@, view_of(idx)) is None
            &&& layout_from(seg@, 0)->Ok_0.has_rows
            &&& may_give_up(layout_from(seg@, 0)->Ok_0.records)
        },
        res matches Ok(r) ==> is_recompaction(seg@, view_of(idx), r@),
        refusal(seg@, view_of(idx)) is None && small_from(layout_from(seg@, 0)->Ok_0.records, 0)
            ==> (res matches Err(e) ==> e is Encode || e is Compress),
{
    let ghost idx_view = view_of(idx);
    let seg_len: u64 = seg.len() as u64;
    let idx_len: u64 = match idx {
        Some(b) => b.len() as u64,
        None => 0,
    };
    let layout = match read_segment_layout(seg) {
        Ok(layout) => layout,
        Err(e) => {
            return Err(RecompactError::BadRecord(e));
        },
    };
    proof {
        lemma_layout_decodes(seg@, 0);
        assert(layout@.records.len() == layout.records@.len());
        if small_from(layout@.records, 0) {
            lemma_small_fits(layout@.records, 0, 0);
        }
    }
    let dropped_tail_bytes: u64 = match layout.torn_at {
        Some(at) => {
            match check_torn_tail(idx, at, seg_len) {
                Some(e) => {
                    return Err(e);
                },
                None => {},
            }
            seg_len - at
        },
        None => 0,
    };
    let record_count: usize = layout.records.len();
    if !layout.has_row_blocks {
        let current = match idx {
            Some(b) => parse_idx_entries(b),
            None => None,
        };
        let stale = match current {
            Some(entries) => !same_entries(&entries, &layout.idx_entries),
            None => true,
        };
        let new_idx = idx_to_bytes(&layout.idx_entries);
        let after_idx_bytes: u64 = if stale {
            new_idx.len() as u64
        } else {
            idx_len
        };
        let r = Recompaction {
            outcome: RecompactOutcome {
                already_compacted: true,
                rebuilt_idx: stale,
                dropped_tail_bytes,
                before_seg_bytes: seg_len,
                after_seg_bytes: seg_len - dropped_tail_bytes,
                before_idx_bytes: idx_len,
                after_idx_bytes,
                record_count,
            },
            rewrite: Rewrite::Keep {
                truncate_to: layout.torn_at,
                idx: if stale {
                    Some(new_idx)
                } else {
                    None
                },
            },
        };
        assert(r@ =~= kept(layout@, seg_len as int, idx_view));
        return Ok(r);
    }
    let (new_seg, new_entries): (Vec<u8>, Vec<IdxEntry>) = match build_columnar_files(
        &layout.records,
    ) {
        Ok(files) => files,
        Err(e) => {
            return Err(e);
        },
    };
    proof {
        if small_from(layout@.records, 0) {
            law_rewrite_is_accepted(layout@.records);
        }
    }
    finish_rewrite(&layout, seg_len, idx_len, new_seg, &new_entries)
}

} // verus!
