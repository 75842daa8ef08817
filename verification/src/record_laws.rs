//! The record codec is lossless: decoding the encoding of a record gives the
//! record back.

use crate::record::{
    empty_flat, empty_record, empty_timeline, flat_bytes, flat_decoded, flats_bytes, has_shape,
    is_number_tag, lemma_record_valid, list_fields, list_values, merge_flat, merge_record,
    merge_timeline, participant_shape, record_bytes, record_decoded, record_valid, row_fields,
    timeline_bytes, timeline_shape, timeline_valid, with_body, with_list, with_number, FlatV,
    MatchRecord, RecordV, Shape,
};
use crate::wire::{
    field_bytes, field_message, field_varint, ints, lemma_varint_nonempty, lemma_varint_roundtrip,
    low32, low32s, messages, take_all_varints, take_bytes, take_key, take_repeated, varint, varints,
    wrap_u64, RECURSION_LIMIT,
};
use vstd::prelude::*;

verus! {

pub proof fn lemma_key(field: int, wire: int, rest: Seq<u8>)
    requires
        1 <= field < 1000,
        0 <= wire <= 5,
    ensures
        take_key(varint(field * 8 + wire) + rest) == Some((field, wire, rest)),
{
    lemma_varint_roundtrip(field * 8 + wire, rest);
    assert((field * 8 + wire) / 8 == field && (field * 8 + wire) % 8 == wire);
}

pub proof fn lemma_bytes(body: Seq<u8>, rest: Seq<u8>)
    requires
        body.len() <= u64::MAX,
    ensures
        take_bytes(varint(body.len() as int) + body + rest) == Some((body, rest)),
{
    let n = body.len() as int;
    assert(varint(n) + body + rest =~= varint(n) + (body + rest));
    lemma_varint_roundtrip(n, body + rest);
    assert((body + rest).take(n) =~= body);
    assert((body + rest).skip(n) =~= rest);
}

pub proof fn lemma_all_varints(values: Seq<int>)
    requires
        forall|i: int| 0 <= i < values.len() ==> 0 <= #[trigger] values[i] <= u64::MAX,
    ensures
        take_all_varints(varints(values)) == Some(values),
        values.len() > 0 ==> varints(values).len() > 0,
    decreases values.len(),
{
    if values.len() > 0 {
        let more = values.skip(1);
        lemma_all_varints(more);
        lemma_varint_roundtrip(values[0], varints(more));
        lemma_varint_nonempty(values[0]);
        assert(seq![values[0]] + more =~= values);
    }
}

spec fn partial_row(row: Seq<u32>, k: int) -> Seq<u32> {
    Seq::new(
        row.len(),
        |i: int|
            if i < k {
                row[i]
            } else {
                0
            },
    )
}

spec fn partial_lists(lists: Seq<Seq<int>>, k: int) -> Seq<Seq<int>> {
    Seq::new(
        lists.len(),
        |i: int|
            if i < k {
                lists[i]
            } else {
                Seq::empty()
            },
    )
}

proof fn lemma_row(shape: Shape, v: FlatV, lists: Seq<Seq<int>>, k: int, tail: Seq<u8>, depth: int)
    requires
        has_shape(v, shape),
        shape.scalars < 100,
        0 <= k <= v.row.len(),
    ensures
        merge_flat(
            shape,
            FlatV { row: partial_row(v.row, k), lists },
            row_fields(v.row, k) + tail,
            depth,
        ) == merge_flat(shape, FlatV { row: v.row, lists }, tail, depth),
    decreases v.row.len() - k,
{
    let acc = FlatV { row: partial_row(v.row, k), lists };
    if k == v.row.len() {
        assert(acc.row =~= v.row);
        assert(row_fields(v.row, k) + tail =~= tail);
    } else {
        let next = FlatV { row: partial_row(v.row, k + 1), lists };
        let more = row_fields(v.row, k + 1) + tail;
        let x = v.row[k] as int;
        lemma_row(shape, v, lists, k + 1, tail, depth);
        if x == 0 {
            assert(acc.row =~= next.row);
            assert(row_fields(v.row, k) + tail =~= more);
        } else {
            let b = row_fields(v.row, k) + tail;
            assert(b =~= varint((k + 1) * 8) + (varint(x) + more));
            lemma_key(k + 1, 0, varint(x) + more);
            lemma_varint_roundtrip(x, more);
            lemma_varint_nonempty((k + 1) * 8);
            assert(low32(x) == v.row[k]);
            assert(acc.row.update(k, v.row[k]) =~= next.row);
        }
    }
}

proof fn lemma_lists(shape: Shape, v: FlatV, k: int, depth: int)
    requires
        has_shape(v, shape),
        shape.scalars < 100,
        shape.signed.len() < 100,
        0 <= k <= v.lists.len(),
        list_fields(v.lists, shape.scalars, k).len() <= u64::MAX,
    ensures
        merge_flat(
            shape,
            FlatV { row: v.row, lists: partial_lists(v.lists, k) },
            list_fields(v.lists, shape.scalars, k),
            depth,
        ) == Some(v),
    decreases v.lists.len() - k,
{
    let acc = FlatV { row: v.row, lists: partial_lists(v.lists, k) };
    if k == v.lists.len() {
        assert(acc.lists =~= v.lists);
    } else {
        let next = FlatV { row: v.row, lists: partial_lists(v.lists, k + 1) };
        let more = list_fields(v.lists, shape.scalars, k + 1);
        let list = v.lists[k];
        let body = varints(list);
        let tag = shape.scalars + k + 1;
        assert forall|i: int| 0 <= i < list.len() implies 0 <= #[trigger] list[i]
            <= u64::MAX by {
            assert(0 <= v.lists[k][i]);
        }
        lemma_all_varints(list);
        lemma_lists(shape, v, k + 1, depth);
        if list.len() == 0 {
            assert(acc.lists =~= next.lists) by {
                assert(list =~= Seq::empty());
            }
            assert(list_fields(v.lists, shape.scalars, k) =~= more);
        } else {
            let b = list_fields(v.lists, shape.scalars, k);
            let rest = varint(body.len() as int) + body + more;
            assert(b =~= varint(tag * 8 + 2) + rest);
            lemma_key(tag, 2, rest);
            lemma_bytes(body, more);
            lemma_varint_nonempty(tag * 8 + 2);
            assert(take_repeated(2, rest) == Some((list, more)));
            assert(list_values(shape.signed[k], list) =~= list) by {
                assert forall|i: int| 0 <= i < list.len() implies list_values(
                    shape.signed[k],
                    list,
                )[i] == list[i] by {
                    assert(0 <= v.lists[k][i]);
                }
            }
            assert(acc.lists[k] + list =~= list);
            assert(with_list(shape, acc, k, list).lists =~= next.lists);
        }
    }
}

/// A flat message decodes to itself.
pub proof fn lemma_flat_roundtrip(shape: Shape, v: FlatV, depth: int)
    requires
        has_shape(v, shape),
        shape.scalars < 100,
        shape.signed.len() < 100,
        flat_bytes(v).len() <= u64::MAX,
    ensures
        flat_decoded(shape, flat_bytes(v), depth) == Some(v),
{
    let lists = partial_lists(v.lists, 0);
    let tail = list_fields(v.lists, shape.scalars, 0);
    assert(empty_flat(shape).row =~= partial_row(v.row, 0));
    assert(empty_flat(shape).lists =~= lists);
    lemma_row(shape, v, lists, 0, tail, depth);
    lemma_lists(shape, v, 0, depth);
}

proof fn lemma_timeline_list(
    acc: Seq<Seq<FlatV>>,
    tag: int,
    items: Seq<FlatV>,
    tail: Seq<u8>,
    depth: int,
)
    requires
        acc.len() == 4,
        1 <= tag <= 4,
        forall|i: int|
            0 <= i < items.len() ==> has_shape(#[trigger] items[i], timeline_shape(tag)),
        messages(tag, flats_bytes(items)).len() <= u64::MAX,
    ensures
        merge_timeline(acc, messages(tag, flats_bytes(items)) + tail, depth) == merge_timeline(
            acc.update(tag - 1, acc[tag - 1] + items),
            tail,
            depth,
        ),
    decreases items.len(),
{
    let bodies = flats_bytes(items);
    if items.len() == 0 {
        assert(acc[tag - 1] + items =~= acc[tag - 1]);
        assert(acc.update(tag - 1, acc[tag - 1]) =~= acc);
        assert(messages(tag, bodies) + tail =~= tail);
    } else {
        let first = items[0];
        let others = items.skip(1);
        let body = flat_bytes(first);
        assert(bodies.skip(1) =~= flats_bytes(others));
        assert(bodies[0] == body);
        let more = messages(tag, flats_bytes(others)) + tail;
        let rest = varint(body.len() as int) + body + more;
        let b = messages(tag, bodies) + tail;
        assert(messages(tag, bodies) =~= field_message(tag, body) + messages(
            tag,
            flats_bytes(others),
        ));
        assert(b =~= varint(tag * 8 + 2) + rest);
        lemma_key(tag, 2, rest);
        lemma_bytes(body, more);
        lemma_varint_nonempty(tag * 8 + 2);
        lemma_flat_roundtrip(timeline_shape(tag), first, depth - 1);
        let next = acc.update(tag - 1, acc[tag - 1].push(first));
        assert forall|i: int| 0 <= i < others.len() implies has_shape(
            #[trigger] others[i],
            timeline_shape(tag),
        ) by {
            assert(others[i] == items[i + 1]);
        }
        lemma_timeline_list(next, tag, others, tail, depth);
        assert(next[tag - 1] + others =~= acc[tag - 1] + items);
        assert(next.update(tag - 1, next[tag - 1] + others) =~= acc.update(
            tag - 1,
            acc[tag - 1] + items,
        ));
    }
}

/// A timeline decodes to itself.
pub proof fn lemma_timeline_roundtrip(t: Seq<Seq<FlatV>>, depth: int)
    requires
        timeline_valid(t),
        timeline_bytes(t).len() <= u64::MAX,
    ensures
        merge_timeline(empty_timeline(), timeline_bytes(t), depth) == Some(t),
{
    let e = Seq::<FlatV>::empty();
    let m1 = messages(1, flats_bytes(t[0]));
    let m2 = messages(2, flats_bytes(t[1]));
    let m3 = messages(3, flats_bytes(t[2]));
    let m4 = messages(4, flats_bytes(t[3]));
    let none = Seq::<u8>::empty();
    assert(timeline_bytes(t) =~= m1 + (m2 + (m3 + (m4 + none))));
    assert forall|k: int, i: int| 0 <= k < 4 && 0 <= i < t[k].len() implies has_shape(
        #[trigger] t[k][i],
        timeline_shape(k + 1),
    ) by {}
    let a0 = empty_timeline();
    lemma_timeline_list(a0, 1, t[0], m2 + (m3 + (m4 + none)), depth);
    let a1 = a0.update(0, a0[0] + t[0]);
    assert(a0[0] + t[0] =~= t[0]);
    lemma_timeline_list(a1, 2, t[1], m3 + (m4 + none), depth);
    let a2 = a1.update(1, a1[1] + t[1]);
    assert(a1[1] + t[1] =~= t[1]);
    lemma_timeline_list(a2, 3, t[2], m4 + none, depth);
    let a3 = a2.update(2, a2[2] + t[2]);
    assert(a2[2] + t[2] =~= t[2]);
    lemma_timeline_list(a3, 4, t[3], none, depth);
    let a4 = a3.update(3, a3[3] + t[3]);
    assert(a3[3] + t[3] =~= t[3]);
    assert(a4 =~= t);
}

proof fn lemma_number(acc: RecordV, tag: int, v: int, tail: Seq<u8>, depth: int)
    requires
        1 <= tag <= 13,
        is_number_tag(tag),
        0 <= v <= u64::MAX,
        with_number(acc, tag, 0) == acc,
    ensures
        merge_record(acc, field_varint(tag, v) + tail, depth) == merge_record(
            with_number(acc, tag, v),
            tail,
            depth,
        ),
{
    if v == 0 {
        assert(field_varint(tag, v) + tail =~= tail);
    } else {
        assert(field_varint(tag, v) + tail =~= varint(tag * 8) + (varint(v) + tail));
        lemma_key(tag, 0, varint(v) + tail);
        lemma_varint_roundtrip(v, tail);
        lemma_varint_nonempty(tag * 8);
    }
}

proof fn lemma_body(
    acc: RecordV,
    tag: int,
    body: Seq<u8>,
    next: RecordV,
    tail: Seq<u8>,
    depth: int,
)
    requires
        tag == 3 || tag == 8 || tag == 11 || tag == 12,
        body.len() <= u64::MAX,
        with_body(acc, tag, body, depth) == Some(next),
    ensures
        merge_record(acc, field_message(tag, body) + tail, depth) == merge_record(
            next,
            tail,
            depth,
        ),
{
    let rest = varint(body.len() as int) + body + tail;
    assert(field_message(tag, body) + tail =~= varint(tag * 8 + 2) + rest);
    lemma_key(tag, 2, rest);
    lemma_bytes(body, tail);
    lemma_varint_nonempty(tag * 8 + 2);
}

proof fn lemma_participants(acc: RecordV, items: Seq<FlatV>, tail: Seq<u8>, depth: int)
    requires
        forall|i: int|
            0 <= i < items.len() ==> has_shape(#[trigger] items[i], participant_shape()),
        messages(11, flats_bytes(items)).len() <= u64::MAX,
    ensures
        merge_record(acc, messages(11, flats_bytes(items)) + tail, depth) == merge_record(
            RecordV { participants: acc.participants + items, ..acc },
            tail,
            depth,
        ),
    decreases items.len(),
{
    let bodies = flats_bytes(items);
    if items.len() == 0 {
        assert(acc.participants + items =~= acc.participants);
        assert(messages(11, bodies) + tail =~= tail);
    } else {
        let first = items[0];
        let others = items.skip(1);
        let body = flat_bytes(first);
        assert(bodies.skip(1) =~= flats_bytes(others));
        assert(bodies[0] == body);
        let more = messages(11, flats_bytes(others)) + tail;
        assert(messages(11, bodies) + tail =~= field_message(11, body) + more);
        let next = RecordV { participants: acc.participants.push(first), ..acc };
        lemma_flat_roundtrip(participant_shape(), first, depth - 1);
        lemma_body(acc, 11, body, next, more, depth);
        assert forall|i: int| 0 <= i < others.len() implies has_shape(
            #[trigger] others[i],
            participant_shape(),
        ) by {
            assert(others[i] == items[i + 1]);
        }
        lemma_participants(next, others, tail, depth);
        assert(next.participants + others =~= acc.participants + items);
    }
}

proof fn lemma_bans(acc: RecordV, bans: Seq<u32>, depth: int)
    requires
        acc.bans.len() == 0,
        field_bytes(13, varints(ints(bans))).len() <= u64::MAX,
    ensures
        merge_record(acc, field_bytes(13, varints(ints(bans))), depth) == Some(
            RecordV { bans, ..acc },
        ),
{
    reveal_with_fuel(merge_record, 2);
    let body = varints(ints(bans));
    lemma_all_varints(ints(bans));
    if bans.len() == 0 {
        assert(acc.bans =~= bans);
    } else {
        let none = Seq::<u8>::empty();
        let rest = varint(body.len() as int) + body + none;
        assert(field_message(13, body) =~= varint(13int * 8 + 2) + rest);
        lemma_key(13, 2, rest);
        lemma_bytes(body, none);
        lemma_varint_nonempty(13int * 8 + 2);
        assert(take_repeated(2, rest) == Some((ints(bans), none)));
        assert(acc.bans + low32s(ints(bans)) =~= bans);
    }
}

proof fn lemma_assoc(a: Seq<u8>, b: Seq<u8>, c: Seq<u8>)
    ensures
        (a + b) + c == a + (b + c),
{
    assert((a + b) + c =~= a + (b + c));
}

/// A record's fields before its participants.
spec fn head_fields(r: RecordV) -> Seq<Seq<u8>> {
    seq![
        field_varint(1, r.schema_version as int),
        field_varint(2, r.game_id as int),
        field_bytes(3, r.platform),
        field_varint(4, r.queue_id as int),
        field_varint(5, wrap_u64(r.game_start_ms as int)),
        field_varint(6, r.duration_s as int),
        field_varint(
            7,
            if r.blue_won {
                1
            } else {
                0
            },
        ),
        field_bytes(8, r.game_version),
        field_varint(9, r.patch_major as int),
        field_varint(10, r.patch_minor as int),
    ]
}

/// A record whose first `k` fields are those of `r` and whose others are empty.
spec fn head_record(r: RecordV, k: int) -> RecordV {
    RecordV {
        schema_version: if k >= 1 {
            r.schema_version
        } else {
            0
        },
        game_id: if k >= 2 {
            r.game_id
        } else {
            0
        },
        platform: if k >= 3 {
            r.platform
        } else {
            Seq::empty()
        },
        queue_id: if k >= 4 {
            r.queue_id
        } else {
            0
        },
        game_start_ms: if k >= 5 {
            r.game_start_ms
        } else {
            0
        },
        duration_s: if k >= 6 {
            r.duration_s
        } else {
            0
        },
        blue_won: k >= 7 && r.blue_won,
        game_version: if k >= 8 {
            r.game_version
        } else {
            Seq::empty()
        },
        patch_major: if k >= 9 {
            r.patch_major
        } else {
            0
        },
        patch_minor: if k >= 10 {
            r.patch_minor
        } else {
            0
        },
        participants: Seq::empty(),
        timeline: None,
        bans: Seq::empty(),
    }
}

#[verifier::spinoff_prover]
#[verifier::rlimit(30)]
proof fn lemma_head_step(r: RecordV, k: int, tail: Seq<u8>, depth: int)
    requires
        record_valid(r),
        0 <= k < 10,
        head_fields(r)[k].len() <= u64::MAX,
    ensures
        merge_record(head_record(r, k), head_fields(r)[k] + tail, depth) == merge_record(
            head_record(r, k + 1),
            tail,
            depth,
        ),
{
    let acc = head_record(r, k);
    let next = head_record(r, k + 1);
    if k == 0 {
        lemma_number(acc, 1, r.schema_version as int, tail, depth);
        assert(with_number(acc, 1, r.schema_version as int) == next);
    } else if k == 1 {
        lemma_number(acc, 2, r.game_id as int, tail, depth);
        assert(with_number(acc, 2, r.game_id as int) == next);
    } else if k == 2 {
        if r.platform.len() == 0 {
            assert(r.platform =~= Seq::empty());
        }
        lemma_text(acc, 3, r.platform, next, tail, depth);
    } else if k == 3 {
        lemma_number(acc, 4, r.queue_id as int, tail, depth);
        assert(with_number(acc, 4, r.queue_id as int) == next);
    } else if k == 4 {
        lemma_number(acc, 5, wrap_u64(r.game_start_ms as int), tail, depth);
        assert(with_number(acc, 5, wrap_u64(r.game_start_ms as int)) == next);
    } else if k == 5 {
        lemma_number(acc, 6, r.duration_s as int, tail, depth);
        assert(with_number(acc, 6, r.duration_s as int) == next);
    } else if k == 6 {
        let won: int = if r.blue_won {
            1
        } else {
            0
        };
        lemma_number(acc, 7, won, tail, depth);
        assert(with_number(acc, 7, won) == next);
    } else if k == 7 {
        if r.game_version.len() == 0 {
            assert(r.game_version =~= Seq::empty());
        }
        lemma_text(acc, 8, r.game_version, next, tail, depth);
    } else if k == 8 {
        lemma_number(acc, 9, r.patch_major as int, tail, depth);
        assert(with_number(acc, 9, r.patch_major as int) == next);
    } else {
        lemma_number(acc, 10, r.patch_minor as int, tail, depth);
        assert(with_number(acc, 10, r.patch_minor as int) == next);
    }
}

proof fn lemma_text(
    acc: RecordV,
    tag: int,
    text: Seq<u8>,
    next: RecordV,
    tail: Seq<u8>,
    depth: int,
)
    requires
        tag == 3 || tag == 8,
        text.len() <= u64::MAX,
        text.len() == 0 ==> acc == next,
        with_body(acc, tag, text, depth) == Some(next),
    ensures
        merge_record(acc, field_bytes(tag, text) + tail, depth) == merge_record(
            next,
            tail,
            depth,
        ),
{
    if text.len() == 0 {
        assert(field_bytes(tag, text) + tail =~= tail);
    } else {
        lemma_body(acc, tag, text, next, tail, depth);
    }
}

/// Fields back to back, from field `k` on.
spec fn joined(fields: Seq<Seq<u8>>, k: int, tail: Seq<u8>) -> Seq<u8>
    decreases fields.len() - k,
{
    if k >= fields.len() || k < 0 {
        tail
    } else {
        fields[k] + joined(fields, k + 1, tail)
    }
}

proof fn lemma_head(r: RecordV, k: int, tail: Seq<u8>, depth: int)
    requires
        record_valid(r),
        0 <= k <= 10,
        joined(head_fields(r), k, tail).len() <= u64::MAX,
    ensures
        merge_record(head_record(r, k), joined(head_fields(r), k, tail), depth) == merge_record(
            head_record(r, 10),
            tail,
            depth,
        ),
    decreases 10 - k,
{
    if k < 10 {
        lemma_head_step(r, k, joined(head_fields(r), k + 1, tail), depth);
        lemma_head(r, k + 1, tail, depth);
    }
}

spec fn timeline_field(r: RecordV) -> Seq<u8> {
    match r.timeline {
        Some(t) => field_message(12, timeline_bytes(t)),
        None => Seq::empty(),
    }
}

spec fn tail_bytes(r: RecordV) -> Seq<u8> {
    messages(11, flats_bytes(r.participants)) + (timeline_field(r) + field_bytes(
        13,
        varints(ints(r.bans)),
    ))
}

proof fn lemma_record_bytes_split(r: RecordV)
    ensures
        record_bytes(r) == joined(head_fields(r), 0, tail_bytes(r)),
{
    let f = head_fields(r);
    let t = tail_bytes(r);
    reveal_with_fuel(joined, 11);
    let p1 = f[0];
    let p2 = p1 + f[1];
    let p3 = p2 + f[2];
    let p4 = p3 + f[3];
    let p5 = p4 + f[4];
    let p6 = p5 + f[5];
    let p7 = p6 + f[6];
    let p8 = p7 + f[7];
    let p9 = p8 + f[8];
    let p10 = p9 + f[9];
    let m = messages(11, flats_bytes(r.participants));
    let tl = timeline_field(r);
    let bans = field_bytes(13, varints(ints(r.bans)));
    assert(record_bytes(r) == p10 + m + tl + bans);
    lemma_assoc(p10 + m, tl, bans);
    lemma_assoc(p10, m, tl + bans);
    lemma_assoc(p9, f[9], joined(f, 10, t));
    lemma_assoc(p8, f[8], joined(f, 9, t));
    lemma_assoc(p7, f[7], joined(f, 8, t));
    lemma_assoc(p6, f[6], joined(f, 7, t));
    lemma_assoc(p5, f[5], joined(f, 6, t));
    lemma_assoc(p4, f[4], joined(f, 5, t));
    lemma_assoc(p3, f[3], joined(f, 4, t));
    lemma_assoc(p2, f[2], joined(f, 3, t));
    lemma_assoc(p1, f[1], joined(f, 2, t));
}

proof fn lemma_joined_len(fields: Seq<Seq<u8>>, k: int, tail: Seq<u8>)
    requires
        0 <= k <= fields.len(),
    ensures
        tail.len() <= joined(fields, k, tail).len(),
    decreases fields.len() - k,
{
    if k < fields.len() {
        lemma_joined_len(fields, k + 1, tail);
    }
}

/// Lossless: a valid record decodes from its canonical encoding unchanged.
pub proof fn law_record_roundtrip(r: RecordV)
    requires
        record_valid(r),
        record_bytes(r).len() <= u64::MAX,
    ensures
        record_decoded(record_bytes(r)) == Some(r),
{
    reveal(record_decoded);
    let d = RECURSION_LIMIT as int;
    lemma_record_bytes_split(r);
    lemma_joined_len(head_fields(r), 0, tail_bytes(r));
    assert(head_record(r, 0) =~= empty_record());
    lemma_head(r, 0, tail_bytes(r), d);
    let a10 = head_record(r, 10);
    let bans = field_bytes(13, varints(ints(r.bans)));
    let after = timeline_field(r) + bans;
    lemma_participants(a10, r.participants, after, d);
    assert(a10.participants + r.participants =~= r.participants);
    let a11 = RecordV { participants: r.participants, ..a10 };
    let a12 = RecordV { timeline: r.timeline, ..a11 };
    match r.timeline {
        Some(t) => {
            assert(timeline_bytes(t).len() <= field_message(12, timeline_bytes(t)).len());
            lemma_timeline_roundtrip(t, d - 1);
            lemma_body(a11, 12, timeline_bytes(t), a12, bans, d);
        },
        None => {
            assert(after =~= bans);
        },
    }
    lemma_bans(a12, r.bans, d);
    assert(RecordV { bans: r.bans, ..a12 } =~= r);
}

/// Two valid records with one encoding are one record.
pub proof fn law_record_bytes_injective(r: RecordV, q: RecordV)
    requires
        record_valid(r),
        record_valid(q),
        record_bytes(r).len() <= u64::MAX,
        record_bytes(r) == record_bytes(q),
    ensures
        r == q,
{
    law_record_roundtrip(r);
    law_record_roundtrip(q);
}

/// A match record that is encoded and decoded again says what it said.
pub proof fn law_match_record_roundtrip(r: MatchRecord)
    requires
        record_bytes(r@).len() <= u64::MAX,
    ensures
        record_decoded(record_bytes(r@)) == Some(r@),
{
    lemma_record_valid(r);
    law_record_roundtrip(r@);
}

} // verus!
