//! How records and segments are laid out on disk, byte by byte. What is written
//! today must be read years from now, by other programs too.

use crate::codec::{crc32_of, zstd_content, zstd_frame};
use crate::le::{le, le_value, lemma_le_len};
use crate::record::{
    flat_bytes, flats_bytes, list_fields, record_bytes, row_fields, timeline_bytes, FlatV,
    KillEvent, MatchRecord, MinuteFrame, ObjectiveEvent, Participant, RecordV, WardEvent,
};
use crate::segment::{
    block_at, block_content, entry_bytes, intact_len, parsed_idx, u32_at, BlockV, IdxEntry,
    SegmentFault, COL_MAGIC, SEG_MAGIC,
};
use crate::segment_write::{container, is_block_of, row_bytes, Flushed, WriterV};
use crate::wire::{ints, messages, unzigzag, varint, varints, wrap_i64, wrap_u64, zigzag};
use vstd::prelude::*;
use vstd::utf8::encode_utf8;

verus! {

// ---- numbers ----

/// A fixed number is written byte by byte, the lowest first.
pub proof fn law_fixed_numbers_are_little_endian(v: int, n: int)
    requires
        0 <= v,
        0 < n,
    ensures
        le(v, n).len() == n,
        le(v, n)[0] == v % 256,
        le(v, n).skip(1) == le(v / 256, n - 1),
        le(v, 0).len() == 0,
{
    lemma_le_len(v, n);
    assert(le(v, n).skip(1) =~= le(v / 256, n - 1));
}

/// Four bytes are read as the number that they write.
pub proof fn law_words_are_little_endian(b: Seq<u8>, at: int)
    requires
        0 <= at,
        at + 4 <= b.len(),
    ensures
        u32_at(b, at) == b[at] + 0x100 * b[at + 1] + 0x1_0000 * b[at + 2] + 0x100_0000 * b[at + 3],
{
    let w = b.subrange(at, at + 4);
    reveal_with_fuel(le_value, 5);
    assert(w.skip(1).skip(1) =~= w.skip(2));
    assert(w.skip(2).skip(1) =~= w.skip(3));
    assert(w.skip(3).skip(1).len() == 0);
    assert(w.skip(1)[0] == b[at + 1]);
    assert(w.skip(2)[0] == b[at + 2]);
    assert(w.skip(3)[0] == b[at + 3]);
}

/// A number of any size takes seven bits a byte, the lowest first, and all bytes
/// but the last have the top bit.
pub proof fn law_varints_take_seven_bits_a_byte(low: int, high: int)
    requires
        0 <= low < 128,
        0 <= high,
    ensures
        varint(low) == seq![low as u8],
        high > 0 ==> varint(128 * high + low) == seq![(128 + low) as u8] + varint(high),
{
    if high > 0 {
        assert((128 * high + low) % 128 == low && (128 * high + low) / 128 == high);
    }
}

/// Signed numbers are folded: nothing, minus one, one, minus two, and so on.
pub proof fn law_signs_are_folded(n: int)
    requires
        0 <= n,
    ensures
        zigzag(n) == 2 * n,
        zigzag(-n - 1) == 2 * n + 1,
        unzigzag(2 * n) == n,
        unzigzag(2 * n + 1) == -n - 1,
{
}

/// A time before the epoch is written as the number of sixty-four bits that it
/// is otherwise.
pub proof fn law_negative_times(v: i64)
    ensures
        v >= 0 ==> wrap_u64(v as int) == v,
        v < 0 ==> wrap_u64(v as int) == v + 0x1_0000_0000_0000_0000,
        wrap_i64(wrap_u64(v as int)) == v,
{
}

// ---- records ----

/// A number under a key; nothing at all is written for zero.
pub open spec fn keyed(key: u8, v: int) -> Seq<u8> {
    if v == 0 {
        Seq::empty()
    } else {
        seq![key] + varint(v)
    }
}

/// Bytes under a key, after their length.
pub open spec fn boxed_under(key: u8, body: Seq<u8>) -> Seq<u8> {
    seq![key] + varint(body.len() as int) + body
}

/// The same, but nothing at all for no bytes.
pub open spec fn keyed_bytes(key: u8, body: Seq<u8>) -> Seq<u8> {
    if body.len() == 0 {
        Seq::empty()
    } else {
        boxed_under(key, body)
    }
}

/// Messages under a key, one after the other.
pub open spec fn keyed_each(key: u8, bodies: Seq<Seq<u8>>) -> Seq<u8>
    decreases bodies.len(),
{
    if bodies.len() == 0 {
        Seq::empty()
    } else {
        boxed_under(key, bodies[0]) + keyed_each(key, bodies.skip(1))
    }
}

proof fn lemma_each(field: int, key: u8, bodies: Seq<Seq<u8>>)
    requires
        1 <= field < 16,
        key == field * 8 + 2,
        key < 128,
    ensures
        messages(field, bodies) == keyed_each(key, bodies),
    decreases bodies.len(),
{
    if bodies.len() > 0 {
        lemma_each(field, key, bodies.skip(1));
    }
}

/// The fields of a record: numbers and texts under their keys, in this order,
/// then the participants, the timeline if there is one, and the bans.
pub proof fn law_records_are_laid_out(r: RecordV)
    ensures
        record_bytes(r) == keyed(8, r.schema_version as int) + keyed(16, r.game_id as int)
            + keyed_bytes(26, r.platform) + keyed(32, r.queue_id as int) + keyed(
            40,
            if r.game_start_ms >= 0 {
                r.game_start_ms as int
            } else {
                r.game_start_ms + 0x1_0000_0000_0000_0000
            },
        ) + keyed(48, r.duration_s as int) + keyed(
            56,
            if r.blue_won {
                1
            } else {
                0
            },
        ) + keyed_bytes(66, r.game_version) + keyed(72, r.patch_major as int) + keyed(
            80,
            r.patch_minor as int,
        ) + keyed_each(90, flats_bytes(r.participants)) + (match r.timeline {
            Some(t) => boxed_under(98, timeline_bytes(t)),
            None => Seq::empty(),
        }) + keyed_bytes(106, varints(ints(r.bans))),
{
    lemma_each(11, 90, flats_bytes(r.participants));
}

/// The parts of a timeline: frames, kills, objectives and wards.
pub proof fn law_timelines_are_laid_out(t: Seq<Seq<FlatV>>)
    requires
        t.len() == 4,
    ensures
        timeline_bytes(t) == keyed_each(10, flats_bytes(t[0])) + keyed_each(18, flats_bytes(t[1]))
            + keyed_each(26, flats_bytes(t[2])) + keyed_each(34, flats_bytes(t[3])),
{
    lemma_each(1, 10, flats_bytes(t[0]));
    lemma_each(2, 18, flats_bytes(t[1]));
    lemma_each(3, 26, flats_bytes(t[2]));
    lemma_each(4, 34, flats_bytes(t[3]));
}

/// The numbers of a row from the `k`-th on, each under its key: eight, sixteen,
/// and so on.
pub open spec fn keyed_row(row: Seq<u32>, k: int) -> Seq<u8>
    decreases row.len() - k,
{
    if k < 0 || k >= row.len() {
        Seq::empty()
    } else {
        keyed((8 * (k + 1)) as u8, row[k] as int) + keyed_row(row, k + 1)
    }
}

/// The lists from the `k`-th on, packed, each under its key; the keys go on after
/// those of the row.
pub open spec fn keyed_lists(lists: Seq<Seq<int>>, row_len: int, k: int) -> Seq<u8>
    decreases lists.len() - k,
{
    if k < 0 || k >= lists.len() {
        Seq::empty()
    } else {
        keyed_bytes((8 * (row_len + k + 1) + 2) as u8, varints(lists[k])) + keyed_lists(
            lists,
            row_len,
            k + 1,
        )
    }
}

proof fn lemma_row(row: Seq<u32>, k: int)
    requires
        0 <= k,
        row.len() < 16,
    ensures
        row_fields(row, k) == keyed_row(row, k),
    decreases row.len() - k,
{
    if k < row.len() {
        lemma_row(row, k + 1);
    }
}

proof fn lemma_lists(lists: Seq<Seq<int>>, row_len: int, k: int)
    requires
        0 <= k,
        0 <= row_len,
        row_len + lists.len() < 16,
    ensures
        list_fields(lists, row_len, k) == keyed_lists(lists, row_len, k),
    decreases lists.len() - k,
{
    if k < lists.len() {
        lemma_lists(lists, row_len, k + 1);
    }
}

/// A participant, a frame and an event are a row of numbers and lists of
/// numbers, each under its key, in this order.
pub proof fn law_rows_and_lists_are_laid_out(v: FlatV)
    requires
        v.row.len() + v.lists.len() < 16,
    ensures
        flat_bytes(v) == keyed_row(v.row, 0) + keyed_lists(v.lists, v.row.len() as int, 0),
{
    lemma_row(v.row, 0);
    lemma_lists(v.lists, v.row.len() as int, 0);
}

/// Packed numbers stand back to back.
pub proof fn law_packed_numbers(a: Seq<int>, v: int)
    ensures
        varints(Seq::empty()) == Seq::<u8>::empty(),
        varints(a.push(v)) == varints(a) + varint(v),
    decreases a.len(),
{
    let all = a.push(v);
    if a.len() == 0 {
        assert(all.skip(1) =~= Seq::empty());
        assert(varints(all.skip(1)) =~= Seq::empty());
        assert(all[0] == v);
        assert(varints(all) =~= varints(a) + varint(v));
    } else {
        law_packed_numbers(a.skip(1), v);
        assert(all.skip(1) =~= a.skip(1).push(v));
        assert(all[0] == a[0]);
        assert(varints(all) == varint(a[0]) + (varints(a.skip(1)) + varint(v)));
        assert(varints(all) =~= varints(a) + varint(v));
    }
}

// ---- segments ----

/// A block starts with four letters, a checksum of what is compressed, and both
/// lengths: that of the compressed bytes, and that of the plain ones.
pub proof fn law_blocks_are_laid_out(plain_len: u32, frame: Seq<u8>)
    requires
        frame.len() <= u32::MAX,
    ensures
        container(SEG_MAGIC, plain_len as int, frame) == seq![
            0x31u8,
            0x4C,
            0x53,
            0x47,
        ] + le(crc32_of(frame) as int, 4) + le(frame.len() as int, 4) + le(plain_len as int, 4)
            + frame,
        container(COL_MAGIC, plain_len as int, frame) == seq![
            0x31u8,
            0x43,
            0x4F,
            0x4C,
        ] + le(crc32_of(frame) as int, 4) + le(frame.len() as int, 4) + le(plain_len as int, 4)
            + frame,
{
    reveal_with_fuel(le, 5);
    assert(le(SEG_MAGIC as int, 4) =~= seq![0x31u8, 0x4C, 0x53, 0x47]);
    assert(le(COL_MAGIC as int, 4) =~= seq![0x31u8, 0x43, 0x4F, 0x4C]);
}

/// A record in a row block stands after its length, and an entry of an index is
/// twenty bytes: the game, the place of the block, and that of the record.
pub proof fn law_rows_and_entries_are_laid_out(record: Seq<u8>, e: IdxEntry)
    requires
        record.len() <= u32::MAX,
    ensures
        row_bytes(record) == le(record.len() as int, 4) + record,
        entry_bytes(e) == le(e.game_id as int, 8) + le(e.block_off as int, 8) + le(
            e.rec_off as int,
            4,
        ),
        entry_bytes(e).len() == 20,
{
    lemma_le_len(e.game_id as int, 8);
    lemma_le_len(e.block_off as int, 8);
    lemma_le_len(e.rec_off as int, 4);
}

/// What is flushed is one row block, compressed at level seven, and an entry for
/// each of its records.
pub proof fn law_flushes_are_row_blocks(out: Flushed, writer: WriterV, block_off: u64)
    requires
        is_block_of(out, writer, block_off),
    ensures
        out.seg@ == container(0x4753_4C31, writer.buf.len() as int, zstd_frame(writer.buf, 7)),
        out.records == writer.pending.len(),
{
}

/// The first word of a block that can be read is one of two; all of the block is
/// there; neither length is above a quarter of a gibibyte; and the checksum and
/// the plain length are right. A block is refused for the first of these that
/// does not hold.
pub proof fn law_damaged_blocks_are_refused(seg: Seq<u8>, pos: int, strict: bool)
    requires
        0 <= pos,
    ensures
        pos + 16 > seg.len() ==> block_at(seg, pos, strict) == Err::<BlockV, SegmentFault>(
            SegmentFault::TruncatedHeader,
        ),
        pos + 16 <= seg.len() ==> {
            let magic = u32_at(seg, pos);
            let crc = u32_at(seg, pos + 4);
            let clen = u32_at(seg, pos + 8);
            let ulen = u32_at(seg, pos + 12);
            let frame = seg.subrange(pos + 16, pos + 16 + clen);
            let got = block_at(seg, pos, strict);
            let known = magic == 0x4753_4C31 || magic == 0x4C4F_4331;
            let whole = pos + 16 + clen <= seg.len();
            let small = clen <= 0x1000_0000 && ulen <= 0x1000_0000;
            &&& !known ==> got == Err::<BlockV, SegmentFault>(
                SegmentFault::UnknownMagic(magic as u32),
            )
            &&& known && !whole ==> got == Err::<BlockV, SegmentFault>(SegmentFault::TruncatedBlock)
            &&& known && whole && clen > 0x1000_0000 ==> got == Err::<BlockV, SegmentFault>(
                SegmentFault::CompressedTooLarge(clen as u32),
            )
            &&& known && whole && clen <= 0x1000_0000 && ulen > 0x1000_0000 ==> got == Err::<
                BlockV,
                SegmentFault,
            >(SegmentFault::UncompressedTooLarge(ulen as u32))
            &&& known && whole && small && crc32_of(frame) != crc ==> got == Err::<
                BlockV,
                SegmentFault,
            >(SegmentFault::CrcMismatch)
            &&& known && whole && small && crc32_of(frame) == crc && (zstd_content(frame) is None
                || zstd_content(frame)->0.len() != ulen) ==> got == Err::<BlockV, SegmentFault>(
                SegmentFault::BadContent,
            )
            &&& known && whole && small && crc32_of(frame) == crc && zstd_content(frame) is Some
                && zstd_content(frame)->0.len() == ulen ==> got == block_content(
                zstd_content(frame)->0,
                magic == 0x4C4F_4331,
                pos + 16 + clen,
                strict,
            )
        },
{
    reveal(block_at);
}

/// An index of another length than a multiple of twenty is none.
pub proof fn law_index_lengths(b: Seq<u8>)
    ensures
        parsed_idx(b) is Some <==> b.len() % 20 == 0,
        parsed_idx(b) matches Some(entries) ==> 20 * entries.len() == b.len(),
{
}

/// A segment is intact up to the first block whose first word is unknown or that
/// is not all there.
pub proof fn law_intact_blocks_are_walked(seg: Seq<u8>, pos: int)
    requires
        0 <= pos,
    ensures
        pos + 16 > seg.len() ==> intact_len(seg, pos) == pos,
        pos + 16 <= seg.len() && u32_at(seg, pos) != 0x4753_4C31 && u32_at(seg, pos) != 0x4C4F_4331
            ==> intact_len(seg, pos) == pos,
        pos + 16 <= seg.len() && pos + 16 + u32_at(seg, pos + 8) > seg.len() ==> intact_len(
            seg,
            pos,
        ) == pos,
        pos + 16 <= seg.len() && (u32_at(seg, pos) == 0x4753_4C31 || u32_at(seg, pos)
            == 0x4C4F_4331) && pos + 16 + u32_at(seg, pos + 8) <= seg.len() ==> intact_len(seg, pos)
            == intact_len(seg, pos + 16 + u32_at(seg, pos + 8)),
{
}

// ---- fields ----

/// Which field of a record stands where in its rows and lists.
pub proof fn law_fields_have_their_places(
    p: Participant,
    f: MinuteFrame,
    k: KillEvent,
    o: ObjectiveEvent,
    w: WardEvent,
    i: int,
)
    ensures
        p@.row == seq![p.player_id, p.champion_id, p.position, p.spell1, p.spell2],
        0 <= i < p.runes@.len() ==> p@.lists[0][i] == p.runes@[i],
        0 <= i < p.stats@.len() && p.stats@[i] >= 0 ==> p@.lists[1][i] == 2 * p.stats@[i],
        0 <= i < p.stats@.len() && p.stats@[i] < 0 ==> p@.lists[1][i] == -2 * p.stats@[i] - 1,
        f@.row == seq![f.minute],
        0 <= i < f.total_gold@.len() ==> f@.lists[0][i] == f.total_gold@[i],
        0 <= i < f.xp@.len() ==> f@.lists[1][i] == f.xp@[i],
        0 <= i < f.cs@.len() ==> f@.lists[2][i] == f.cs@[i],
        0 <= i < f.dmg_to_champs@.len() ==> f@.lists[3][i] == f.dmg_to_champs@[i],
        k@.row == seq![k.t_s, k.killer, k.victim, k.assist_mask, k.x, k.y],
        o@.row == seq![o.t_s, o.kind, o.killer, o.losing_team, o.lane],
        w@.row == seq![w.t_s, w.kind, w.participant],
{
}

/// Which field of a match record is which.
pub proof fn law_record_fields(r: MatchRecord)
    ensures
        r@.schema_version == r.schema_version,
        r@.game_id == r.game_id,
        r@.platform == encode_utf8(r.platform@),
        r@.queue_id == r.queue_id,
        r@.game_start_ms == r.game_start_ms,
        r@.duration_s == r.duration_s,
        r@.blue_won == r.blue_won,
        r@.game_version == encode_utf8(r.game_version@),
        r@.patch_major == r.patch_major,
        r@.patch_minor == r.patch_minor,
        r@.participants.len() == r.participants@.len(),
        forall|i: int|
            0 <= i < r.participants@.len() ==> r@.participants[i] == (
            #[trigger] r.participants@[i])@,
        r@.timeline is Some <==> r.timeline is Some,
        r@.bans == r.bans@,
{
}

} // verus!
