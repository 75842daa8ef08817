//! How records and segments are read, whoever wrote them: fields may come in any
//! order and more than once, and fields that are not known are passed over.

use crate::record::{flat_decoded, merge_flat, merge_record, FlatV, RecordV, Shape};
use crate::record_laws::{lemma_all_varints, lemma_bytes, lemma_key};
use crate::segment::{
    block_at, block_entries, layout_from, lenient_records, row_block, rows_from, u32_at,
    RowsV, SegmentError, SegmentFault,
};
use crate::wire::{
    lemma_varint_nonempty, lemma_varint_roundtrip, low32s, take_varint, varint, varints,
    VarintFault,
};
use vstd::prelude::*;
use vstd::utf8::valid_utf8;

verus! {

/// The lowest thirty-two bits of a number.
pub open spec fn lowest(v: int) -> u32 {
    (v % 0x1_0000_0000) as u32
}

/// A number under the key of a field, and more.
pub open spec fn field_then(field: int, v: int, rest: Seq<u8>) -> Seq<u8> {
    varint(field * 8) + (varint(v) + rest)
}

proof fn lemma_field(field: int, v: int, rest: Seq<u8>)
    requires
        1 <= field < 1000,
        0 <= v <= u64::MAX,
    ensures
        crate::wire::take_key(field_then(field, v, rest)) == Some((field, 0int, varint(v) + rest)),
        take_varint(varint(v) + rest) == Ok::<(int, Seq<u8>), VarintFault>((v, rest)),
        field_then(field, v, rest).len() > 0,
{
    lemma_key(field, 0, varint(v) + rest);
    lemma_varint_roundtrip(v, rest);
    lemma_varint_nonempty(field * 8);
}

/// A number that is read takes the place of the one before it, in the field that
/// its key names. What does not fit is cut to its lowest bits.
pub proof fn law_numbers_replace(r: RecordV, v: int, rest: Seq<u8>, depth: int)
    requires
        0 <= v <= u64::MAX,
    ensures
        merge_record(r, field_then(1, v, rest), depth) == merge_record(
            RecordV { schema_version: lowest(v), ..r },
            rest,
            depth,
        ),
        merge_record(r, field_then(2, v, rest), depth) == merge_record(
            RecordV { game_id: v as u64, ..r },
            rest,
            depth,
        ),
        merge_record(r, field_then(4, v, rest), depth) == merge_record(
            RecordV { queue_id: lowest(v), ..r },
            rest,
            depth,
        ),
        merge_record(r, field_then(5, v, rest), depth) == merge_record(
            RecordV {
                game_start_ms: (if v <= i64::MAX {
                    v
                } else {
                    v - 0x1_0000_0000_0000_0000
                }) as i64,
                ..r
            },
            rest,
            depth,
        ),
        merge_record(r, field_then(6, v, rest), depth) == merge_record(
            RecordV { duration_s: lowest(v), ..r },
            rest,
            depth,
        ),
        merge_record(r, field_then(7, v, rest), depth) == merge_record(
            RecordV { blue_won: v != 0, ..r },
            rest,
            depth,
        ),
        merge_record(r, field_then(9, v, rest), depth) == merge_record(
            RecordV { patch_major: lowest(v), ..r },
            rest,
            depth,
        ),
        merge_record(r, field_then(10, v, rest), depth) == merge_record(
            RecordV { patch_minor: lowest(v), ..r },
            rest,
            depth,
        ),
{
    lemma_field(1, v, rest);
    lemma_field(2, v, rest);
    lemma_field(4, v, rest);
    lemma_field(5, v, rest);
    lemma_field(6, v, rest);
    lemma_field(7, v, rest);
    lemma_field(9, v, rest);
    lemma_field(10, v, rest);
}

/// Bytes under the key of a field, and more.
pub open spec fn bytes_then(field: int, body: Seq<u8>, rest: Seq<u8>) -> Seq<u8> {
    varint(field * 8 + 2) + (varint(body.len() as int) + body + rest)
}

proof fn lemma_bytes_field(field: int, body: Seq<u8>, rest: Seq<u8>)
    requires
        1 <= field < 1000,
        body.len() <= u64::MAX,
    ensures
        crate::wire::take_key(bytes_then(field, body, rest)) == Some(
            (field, 2int, varint(body.len() as int) + body + rest),
        ),
        crate::wire::take_bytes(varint(body.len() as int) + body + rest) == Some((body, rest)),
        bytes_then(field, body, rest).len() > 0,
{
    lemma_key(field, 2, varint(body.len() as int) + body + rest);
    lemma_bytes(body, rest);
    lemma_varint_nonempty(field * 8 + 2);
}

/// A text that is read takes the place of the one before it; bytes that are no
/// text are refused.
pub proof fn law_texts_replace(r: RecordV, body: Seq<u8>, rest: Seq<u8>, depth: int)
    requires
        body.len() <= u64::MAX,
    ensures
        valid_utf8(body) ==> merge_record(r, bytes_then(3, body, rest), depth) == merge_record(
            RecordV { platform: body, ..r },
            rest,
            depth,
        ),
        valid_utf8(body) ==> merge_record(r, bytes_then(8, body, rest), depth) == merge_record(
            RecordV { game_version: body, ..r },
            rest,
            depth,
        ),
        !valid_utf8(body) ==> merge_record(r, bytes_then(3, body, rest), depth) is None,
        !valid_utf8(body) ==> merge_record(r, bytes_then(8, body, rest), depth) is None,
{
    lemma_bytes_field(3, body, rest);
    lemma_bytes_field(8, body, rest);
}

/// Every participant that is read is one more; one that cannot be read spoils
/// the record.
pub proof fn law_participants_are_added(r: RecordV, body: Seq<u8>, rest: Seq<u8>, depth: int)
    requires
        body.len() <= u64::MAX,
    ensures
        ({
            let p = flat_decoded(
                Shape { scalars: 5, signed: seq![false, true] },
                body,
                depth - 1,
            );
            &&& p is Some ==> merge_record(r, bytes_then(11, body, rest), depth) == merge_record(
                RecordV { participants: r.participants.push(p->0), ..r },
                rest,
                depth,
            )
            &&& p is None ==> merge_record(r, bytes_then(11, body, rest), depth) is None
        }),
{
    lemma_bytes_field(11, body, rest);
}

/// Bans are read packed and one by one, and added to those before.
pub proof fn law_bans_are_added(
    r: RecordV,
    v: u32,
    values: Seq<int>,
    rest: Seq<u8>,
    depth: int,
)
    requires
        varints(values).len() <= u64::MAX,
        forall|i: int| 0 <= i < values.len() ==> 0 <= #[trigger] values[i] <= u64::MAX,
    ensures
        merge_record(r, field_then(13, v as int, rest), depth) == merge_record(
            RecordV { bans: r.bans.push(v), ..r },
            rest,
            depth,
        ),
        merge_record(r, bytes_then(13, varints(values), rest), depth) == merge_record(
            RecordV { bans: r.bans + values.map_values(|x: int| lowest(x)), ..r },
            rest,
            depth,
        ),
{
    lemma_field(13, v as int, rest);
    lemma_bytes_field(13, varints(values), rest);
    lemma_all_varints(values);
    assert(low32s(seq![v as int]) =~= seq![v]);
    assert(r.bans + seq![v] =~= r.bans.push(v));
    assert(low32s(values) =~= values.map_values(|x: int| lowest(x)));
}

/// A field that is not known is passed over, whatever its kind.
pub proof fn law_unknown_fields_are_passed_over(
    r: RecordV,
    field: int,
    v: int,
    body: Seq<u8>,
    four: Seq<u8>,
    eight: Seq<u8>,
    rest: Seq<u8>,
    depth: int,
)
    requires
        14 <= field < 1000,
        0 <= v <= u64::MAX,
        body.len() <= u64::MAX,
        four.len() == 4,
        eight.len() == 8,
        depth > 0,
    ensures
        merge_record(r, field_then(field, v, rest), depth) == merge_record(r, rest, depth),
        merge_record(r, bytes_then(field, body, rest), depth) == merge_record(r, rest, depth),
        merge_record(r, varint(field * 8 + 5) + (four + rest), depth) == merge_record(
            r,
            rest,
            depth,
        ),
        merge_record(r, varint(field * 8 + 1) + (eight + rest), depth) == merge_record(
            r,
            rest,
            depth,
        ),
{
    lemma_field(field, v, rest);
    lemma_bytes_field(field, body, rest);
    lemma_key(field, 5, four + rest);
    lemma_key(field, 1, eight + rest);
    lemma_varint_nonempty(field * 8 + 5);
    lemma_varint_nonempty(field * 8 + 1);
    assert((four + rest).skip(4) =~= rest);
    assert((eight + rest).skip(8) =~= rest);
}

/// A field of the wrong kind spoils a record: bytes where a number belongs, or a
/// number where bytes do.
pub proof fn law_wrong_kinds_are_refused(
    r: RecordV,
    field: int,
    v: int,
    body: Seq<u8>,
    rest: Seq<u8>,
    depth: int,
)
    requires
        0 <= v <= u64::MAX,
        body.len() <= u64::MAX,
    ensures
        field == 1 || field == 2 || 4 <= field <= 7 || field == 9 || field == 10 ==> merge_record(
            r,
            bytes_then(field, body, rest),
            depth,
        ) is None,
        field == 3 || field == 8 || field == 11 || field == 12 ==> merge_record(
            r,
            field_then(field, v, rest),
            depth,
        ) is None,
        merge_record(r, Seq::empty(), depth) == Some(r),
{
    if 1 <= field <= 12 {
        lemma_field(field, v, rest);
        lemma_bytes_field(field, body, rest);
    }
}

/// The numbers of a row are read in any order, the last one counts, and what is
/// not known is passed over.
pub proof fn law_row_numbers_replace(
    shape: Shape,
    acc: FlatV,
    field: int,
    v: int,
    rest: Seq<u8>,
    depth: int,
)
    requires
        1 <= field < 1000,
        0 <= v <= u64::MAX,
        depth > 0,
    ensures
        field <= shape.scalars ==> merge_flat(shape, acc, field_then(field, v, rest), depth)
            == merge_flat(
            shape,
            FlatV { row: acc.row.update(field - 1, lowest(v)), lists: acc.lists },
            rest,
            depth,
        ),
        field > shape.scalars + shape.signed.len() ==> merge_flat(
            shape,
            acc,
            field_then(field, v, rest),
            depth,
        ) == merge_flat(shape, acc, rest, depth),
        merge_flat(shape, acc, Seq::empty(), depth) == Some(acc),
{
    lemma_field(field, v, rest);
}

// ---- segments ----

/// A row ends where its length says. A block that ends before that has no more
/// rows; a strict reader refuses it and says where.
pub proof fn law_rows_are_read_one_by_one(b: Seq<u8>, off: int)
    requires
        0 <= off < b.len(),
        b.len() <= u32::MAX,
    ensures
        off + 4 > b.len() ==> rows_from(b, off).records.len() == 0 && rows_from(b, off).stop == off,
        off + 4 <= b.len() && off + 4 + u32_at(b, off) > b.len() ==> rows_from(
            b,
            off,
        ).records.len() == 0 && rows_from(b, off).stop == off,
        off + 4 <= b.len() && off + 4 + u32_at(b, off) <= b.len() ==> {
            let end = off + 4 + u32_at(b, off);
            &&& rows_from(b, off).records == seq![b.subrange(off + 4, end)] + rows_from(
                b,
                end,
            ).records
            &&& rows_from(b, off).offsets == seq![off as u32] + rows_from(b, end).offsets
            &&& rows_from(b, off).stop == rows_from(b, end).stop
        },
{
}

/// A lenient reader takes the rows that are there. A strict one takes them only
/// if nothing is left over.
pub proof fn law_strict_readers_want_everything(b: Seq<u8>)
    ensures
        row_block(b, false) == Ok::<RowsV, SegmentFault>(rows_from(b, 0)),
        rows_from(b, 0).stop >= b.len() ==> row_block(b, true) == row_block(b, false),
        rows_from(b, 0).stop < b.len() ==> row_block(b, true) == Err::<RowsV, SegmentFault>(
            if rows_from(b, 0).stop + 4 > b.len() {
                SegmentFault::TruncatedRowLength(rows_from(b, 0).stop as u32)
            } else {
                SegmentFault::TruncatedRowBody(rows_from(b, 0).stop as u32)
            },
        ),
{
}

/// The records of a segment are those of its blocks, up to the first that cannot
/// be read.
pub proof fn law_blocks_are_read_in_order(seg: Seq<u8>, pos: int)
    requires
        0 <= pos < seg.len() <= u64::MAX,
    ensures
        block_at(seg, pos, false) matches Ok(b) ==> (lenient_records(seg, b.next) matches Ok(more)
            ==> lenient_records(seg, pos) == Ok::<Seq<Seq<u8>>, SegmentError>(b.records + more)),
        block_at(seg, pos, false) matches Err(f) && f != SegmentFault::TooManyRecords
            ==> lenient_records(seg, pos) == Ok::<Seq<Seq<u8>>, SegmentError>(Seq::empty()),
        block_at(seg, pos, true) is Err ==> layout_from(seg, pos) is Ok && layout_from(
            seg,
            pos,
        )->Ok_0.torn_at == Some(pos) && layout_from(seg, pos)->Ok_0.records.len() == 0,
        block_at(seg, pos, true) matches Ok(b) ==> (layout_from(seg, b.next) matches Ok(more) ==> (
        block_entries(b, pos, 0) matches Ok(entries) ==> {
            let here = layout_from(seg, pos)->Ok_0;
            &&& layout_from(seg, pos) is Ok
            &&& here.records == b.records + more.records
            &&& here.entries == entries + more.entries
            &&& here.has_rows <==> !b.columnar || more.has_rows
            &&& here.torn_at == more.torn_at
        })),
{
}

} // verus!
