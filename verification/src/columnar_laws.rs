//! What columns hold for given records, and that reading them gives the
//! records back.

use crate::columnar::{
    as_streams, at_or_zero, block_records, column, cut, first_unconsumed, has_column, manifest,
    no_series, nth_column, preamble, slot, take_all_series, take_col, take_delta, take_event_list,
    take_events, take_frames, take_head, take_head_tail, take_header, take_lengths, take_list,
    take_optional_timeline, take_participant, take_participants, take_record, take_records,
    take_row, take_series, take_slots, take_text, take_timeline, total, with_column, BlockError,
    BlockFault, Column, HeaderField, Streams, BANS, BANS_N, BLUE, DUR, F_GOLD_N, F_MINUTE, GID_D,
    GV, GV_LEN, K_T, NFRAMES, NKILLS, NMISC, NOBJS, NPARTS, NWARDS, O_T, PLAT, PLAT_LEN, PMAJ,
    P_PLAYER, P_RUNES_N, P_STATS_N, QUEUE, SCHEMA, START_D, TL_PRESENT, W_T,
};
use crate::record::{
    empty_record, has_shape, participant_shape, timeline_shape, timeline_valid, FlatV, RecordV,
};
use crate::wire::{
    lemma_varint_nonempty, lemma_varint_roundtrip, lemma_zigzag_roundtrip, take_varint_from, varint,
    varints, zigzag, VarintFault,
};
use vstd::prelude::*;

verus! {

/// A varint put in front of a column.
pub open spec fn put_col(s: Streams, c: Column, v: int) -> Streams {
    with_column(s, c, varint(v) + column(s, c))
}

/// Bytes put in front of a column.
pub open spec fn put_raw(s: Streams, c: Column, bytes: Seq<u8>) -> Streams {
    with_column(s, c, bytes + column(s, c))
}

/// The values of a row from index `k` on, each in its own column.
pub open spec fn put_row(s: Streams, row: Seq<u32>, base: int, k: int) -> Streams
    decreases row.len() - k,
{
    if k < 0 || k >= row.len() {
        s
    } else {
        put_col(put_row(s, row, base, k + 1), Column::Fixed((base + k) as usize), row[k] as int)
    }
}

/// The values of a list from index `k` on, all in one column.
pub open spec fn put_list(s: Streams, c: Column, list: Seq<u32>, k: int) -> Streams
    decreases list.len() - k,
{
    if k < 0 || k >= list.len() {
        s
    } else {
        put_col(put_list(s, c, list, k + 1), c, list[k] as int)
    }
}

/// The values of a list from index `k` on, each in its dynamic column.
pub open spec fn put_slots(s: Streams, stats: bool, list: Seq<int>, k: int) -> Streams
    decreases list.len() - k,
{
    if k < 0 || k >= list.len() {
        s
    } else {
        put_col(put_slots(s, stats, list, k + 1), slot(stats, k), list[k])
    }
}

pub open spec fn put_participant(s: Streams, p: FlatV) -> Streams {
    let s4 = put_slots(s, true, p.lists[1], 0);
    let s3 = put_col(s4, Column::Fixed(P_STATS_N), p.lists[1].len() as int);
    let s2 = put_slots(s3, false, p.lists[0], 0);
    let s1 = put_col(s2, Column::Fixed(P_RUNES_N), p.lists[0].len() as int);
    put_row(s1, p.row, P_PLAYER as int, 0)
}

pub open spec fn put_participants(s: Streams, ps: Seq<FlatV>, k: int) -> Streams
    decreases ps.len() - k,
{
    if k < 0 || k >= ps.len() {
        s
    } else {
        put_participant(put_participants(s, ps, k + 1), ps[k])
    }
}

/// A series as differences to the same slots of the one before.
pub open spec fn put_series(s: Streams, c: Column, prev: Seq<int>, list: Seq<int>, k: int) -> Streams
    decreases list.len() - k,
{
    if k < 0 || k >= list.len() {
        s
    } else {
        put_col(put_series(s, c, prev, list, k + 1), c, zigzag(list[k] - at_or_zero(prev, k)))
    }
}

pub open spec fn count_column(i: int) -> Column {
    Column::Fixed((F_GOLD_N + 2 * i) as usize)
}

pub open spec fn value_column(i: int) -> Column {
    Column::Fixed((F_GOLD_N + 2 * i + 1) as usize)
}

pub open spec fn put_all_series(
    s: Streams,
    prev: Seq<Seq<int>>,
    lists: Seq<Seq<int>>,
    i: int,
) -> Streams
    decreases 4 - i,
{
    if i < 0 || i >= 4 {
        s
    } else {
        let s2 = put_all_series(s, prev, lists, i + 1);
        let s1 = put_series(s2, value_column(i), prev[i], lists[i], 0);
        put_col(s1, count_column(i), lists[i].len() as int)
    }
}

pub open spec fn put_frames(
    s: Streams,
    prev: Seq<Seq<int>>,
    frames: Seq<FlatV>,
    k: int,
) -> Streams
    decreases frames.len() - k,
{
    if k < 0 || k >= frames.len() {
        s
    } else {
        let s2 = put_frames(s, frames[k].lists, frames, k + 1);
        let s1 = put_all_series(s2, prev, frames[k].lists, 0);
        put_col(s1, Column::Fixed(F_MINUTE), frames[k].row[0] as int)
    }
}

pub open spec fn put_events(
    s: Streams,
    prev: int,
    base: int,
    events: Seq<FlatV>,
    k: int,
) -> Streams
    decreases events.len() - k,
{
    if k < 0 || k >= events.len() {
        s
    } else {
        let row = events[k].row;
        let s2 = put_events(s, row[0] as int, base, events, k + 1);
        let s1 = put_row(s2, row.skip(1), base + 1, 0);
        put_col(s1, Column::Fixed(base as usize), zigzag(row[0] - prev))
    }
}

pub open spec fn put_event_list(
    s: Streams,
    count: usize,
    base: usize,
    events: Seq<FlatV>,
) -> Streams {
    put_col(put_events(s, 0, base as int, events, 0), Column::Fixed(count), events.len() as int)
}

pub open spec fn put_timeline(s: Streams, t: Seq<Seq<FlatV>>) -> Streams {
    let s4 = put_event_list(s, NWARDS, W_T, t[3]);
    let s3 = put_event_list(s4, NOBJS, O_T, t[2]);
    let s2 = put_event_list(s3, NKILLS, K_T, t[1]);
    let s1 = put_frames(s2, no_series(), t[0], 0);
    put_col(s1, Column::Fixed(NFRAMES), t[0].len() as int)
}

pub open spec fn put_text(s: Streams, len: usize, text: usize, bytes: Seq<u8>) -> Streams {
    put_col(put_raw(s, Column::Fixed(text), bytes), Column::Fixed(len), bytes.len() as int)
}

pub open spec fn put_head_tail(s: Streams, r: RecordV) -> Streams {
    let s3 = put_row(s, seq![r.patch_major, r.patch_minor], PMAJ as int, 0);
    let s2 = put_text(s3, GV_LEN, GV, r.game_version);
    let s1 = put_col(
        s2,
        Column::Fixed(BLUE),
        if r.blue_won {
            1
        } else {
            0
        },
    );
    put_col(s1, Column::Fixed(DUR), r.duration_s as int)
}

pub open spec fn put_head(s: Streams, r: RecordV, game_id: int, start: int) -> Streams {
    let s5 = put_head_tail(s, r);
    let s4 = put_col(s5, Column::Fixed(START_D), zigzag(r.game_start_ms - start));
    let s3 = put_col(s4, Column::Fixed(QUEUE), r.queue_id as int);
    let s2 = put_text(s3, PLAT_LEN, PLAT, r.platform);
    let s1 = put_col(s2, Column::Fixed(GID_D), zigzag(r.game_id - game_id));
    put_col(s1, Column::Fixed(SCHEMA), r.schema_version as int)
}

pub open spec fn put_optional_timeline(s: Streams, t: Option<Seq<Seq<FlatV>>>) -> Streams {
    match t {
        Some(t) => put_col(put_timeline(s, t), Column::Fixed(TL_PRESENT), 1),
        None => put_col(s, Column::Fixed(TL_PRESENT), 0),
    }
}

pub open spec fn put_record(s: Streams, r: RecordV, game_id: int, start: int) -> Streams {
    let s5 = put_list(s, Column::Fixed(BANS), r.bans, 0);
    let s4 = put_col(s5, Column::Fixed(BANS_N), r.bans.len() as int);
    let s3 = put_optional_timeline(s4, r.timeline);
    let s2 = put_participants(s3, r.participants, 0);
    let s1 = put_col(s2, Column::Fixed(NPARTS), r.participants.len() as int);
    put_head(s1, r, game_id, start)
}

pub open spec fn put_records(
    s: Streams,
    rs: Seq<RecordV>,
    game_id: int,
    start: int,
    k: int,
) -> Streams
    decreases rs.len() - k,
{
    if k < 0 || k >= rs.len() {
        s
    } else {
        put_record(
            put_records(s, rs, rs[k].game_id as int, rs[k].game_start_ms as int, k + 1),
            rs[k],
            game_id,
            start,
        )
    }
}

/// The same columns are there, whatever they hold.
pub open spec fn same_widths(a: Streams, b: Streams) -> bool {
    &&& a.fixed.len() == b.fixed.len()
    &&& a.stat.len() == b.stat.len()
    &&& a.rune.len() == b.rune.len()
}

pub open spec fn widths_ok(s: Streams) -> bool {
    &&& s.fixed.len() == NMISC
    &&& s.stat.len() <= usize::MAX
    &&& s.rune.len() <= usize::MAX
}

/// Whether a message's list lengths are machine integers.
pub open spec fn flat_sized(v: FlatV) -> bool {
    forall|k: int| 0 <= k < v.lists.len() ==> (#[trigger] v.lists[k]).len() <= usize::MAX
}

pub open spec fn flats_sized(vs: Seq<FlatV>) -> bool {
    &&& vs.len() <= usize::MAX
    &&& forall|i: int| 0 <= i < vs.len() ==> flat_sized(#[trigger] vs[i])
}

pub open spec fn timeline_sized(t: Seq<Seq<FlatV>>) -> bool {
    &&& timeline_valid(t)
    &&& forall|k: int| 0 <= k < t.len() ==> flats_sized(#[trigger] t[k])
}

/// What is true of every record that a machine can hold: its parts have their
/// shapes, and its lengths are machine integers.
pub open spec fn record_sized(r: RecordV) -> bool {
    &&& r.platform.len() <= usize::MAX
    &&& r.game_version.len() <= usize::MAX
    &&& r.bans.len() <= usize::MAX
    &&& flats_sized(r.participants)
    &&& forall|i: int|
        0 <= i < r.participants.len() ==> has_shape(
            #[trigger] r.participants[i],
            participant_shape(),
        )
    &&& r.timeline matches Some(t) ==> timeline_sized(t)
}

/// Whether there are dynamic columns enough for a record's lists.
pub open spec fn has_slots(s: Streams, ps: Seq<FlatV>) -> bool {
    forall|i: int|
        0 <= i < ps.len() ==> (#[trigger] ps[i]).lists[0].len() <= s.rune.len()
            && ps[i].lists[1].len() <= s.stat.len()
}

/// A record's game id and start time are near enough to those before it.
pub open spec fn deltas_fit(r: RecordV, game_id: int, start: int) -> bool {
    &&& i64::MIN <= r.game_id - game_id <= i64::MAX
    &&& i64::MIN <= r.game_start_ms - start <= i64::MAX
}

pub(crate) proof fn lemma_put_col(s: Streams, c: Column, v: int)
    requires
        has_column(s, c),
        0 <= v <= u64::MAX,
    ensures
        take_col(put_col(s, c, v), c) == Ok::<(int, Streams), BlockFault>((v, s)),
        same_widths(put_col(s, c, v), s),
{
    lemma_varint_roundtrip(v, column(s, c));
    let t = put_col(s, c, v);
    assert(with_column(t, c, column(s, c)) =~= s) by {
        match c {
            Column::Fixed(i) => {
                assert(t.fixed.update(i as int, s.fixed[i as int]) =~= s.fixed);
            },
            Column::Stat(i) => {
                assert(t.stat.update(i as int, s.stat[i as int]) =~= s.stat);
            },
            Column::Rune(i) => {
                assert(t.rune.update(i as int, s.rune[i as int]) =~= s.rune);
            },
        }
    }
}

pub(crate) proof fn lemma_put_delta(s: Streams, c: Column, v: int, prev: int, lo: int, hi: int)
    requires
        has_column(s, c),
        lo <= v <= hi,
        i64::MIN <= v - prev <= i64::MAX,
    ensures
        take_delta(put_col(s, c, zigzag(v - prev)), c, prev, lo, hi) == Ok::<
            (int, Streams),
            BlockFault,
        >((v, s)),
        same_widths(put_col(s, c, zigzag(v - prev)), s),
{
    lemma_zigzag_roundtrip(v - prev);
    lemma_put_col(s, c, zigzag(v - prev));
}

pub(crate) proof fn lemma_put_text(s: Streams, len: usize, text: usize, bytes: Seq<u8>)
    requires
        widths_ok(s),
        len < NMISC,
        text < NMISC,
        bytes.len() <= usize::MAX,
    ensures
        take_text(put_text(s, len, text, bytes), len, text) == Ok::<
            (Seq<u8>, Streams),
            BlockFault,
        >((bytes, s)),
        same_widths(put_text(s, len, text, bytes), s),
{
    let c = Column::Fixed(text);
    let t = put_raw(s, c, bytes);
    lemma_put_col(t, Column::Fixed(len), bytes.len() as int);
    assert(column(t, c) =~= bytes + column(s, c));
    assert(column(t, c).take(bytes.len() as int) =~= bytes);
    assert(column(t, c).skip(bytes.len() as int) =~= column(s, c));
    assert(with_column(t, c, column(s, c)) =~= s) by {
        assert(t.fixed.update(text as int, s.fixed[text as int]) =~= s.fixed);
    }
}

pub(crate) proof fn lemma_put_row(s: Streams, row: Seq<u32>, base: int, k: int)
    requires
        widths_ok(s),
        0 <= base,
        base + row.len() <= NMISC,
        0 <= k <= row.len(),
    ensures
        take_row(put_row(s, row, base, k), base + k, row.len() - k) == Ok::<
            (Seq<u32>, Streams),
            BlockFault,
        >((row.skip(k), s)),
        same_widths(put_row(s, row, base, k), s),
    decreases row.len() - k,
{
    if k < row.len() {
        lemma_put_row(s, row, base, k + 1);
        lemma_put_col(
            put_row(s, row, base, k + 1),
            Column::Fixed((base + k) as usize),
            row[k] as int,
        );
        assert(seq![row[k]] + row.skip(k + 1) =~= row.skip(k));
    } else {
        assert(row.skip(k) =~= Seq::empty());
    }
}

pub(crate) proof fn lemma_put_list(s: Streams, c: Column, list: Seq<u32>, k: int)
    requires
        has_column(s, c),
        0 <= k <= list.len(),
    ensures
        take_list(put_list(s, c, list, k), c, list.len() - k) == Ok::<
            (Seq<u32>, Streams),
            BlockFault,
        >((list.skip(k), s)),
        same_widths(put_list(s, c, list, k), s),
    decreases list.len() - k,
{
    if k < list.len() {
        lemma_put_list(s, c, list, k + 1);
        lemma_put_col(put_list(s, c, list, k + 1), c, list[k] as int);
        assert(seq![list[k]] + list.skip(k + 1) =~= list.skip(k));
    } else {
        assert(list.skip(k) =~= Seq::empty());
    }
}

pub open spec fn slot_max(stats: bool) -> int {
    if stats {
        u64::MAX as int
    } else {
        u32::MAX as int
    }
}

pub(crate) proof fn lemma_put_slots(s: Streams, stats: bool, list: Seq<int>, k: int)
    requires
        widths_ok(s),
        0 <= k <= list.len(),
        list.len() <= (if stats {
            s.stat.len()
        } else {
            s.rune.len()
        }),
        forall|i: int| 0 <= i < list.len() ==> 0 <= #[trigger] list[i] <= slot_max(stats),
    ensures
        take_slots(put_slots(s, stats, list, k), stats, k, list.len() as int) == Ok::<
            (Seq<int>, Streams),
            BlockFault,
        >((list.skip(k), s)),
        same_widths(put_slots(s, stats, list, k), s),
    decreases list.len() - k,
{
    if k < list.len() {
        lemma_put_slots(s, stats, list, k + 1);
        lemma_put_col(put_slots(s, stats, list, k + 1), slot(stats, k), list[k]);
        assert(seq![list[k]] + list.skip(k + 1) =~= list.skip(k));
    } else {
        assert(list.skip(k) =~= Seq::empty());
    }
}

pub(crate) proof fn lemma_put_participant(s: Streams, p: FlatV)
    requires
        widths_ok(s),
        has_shape(p, participant_shape()),
        p.lists[0].len() <= s.rune.len(),
        p.lists[1].len() <= s.stat.len(),
    ensures
        take_participant(put_participant(s, p)) == Ok::<(FlatV, Streams), BlockFault>((p, s)),
        same_widths(put_participant(s, p), s),
{
    let runes = p.lists[0];
    let stats = p.lists[1];
    assert forall|i: int| 0 <= i < runes.len() implies 0 <= #[trigger] runes[i] <= slot_max(
        false,
    ) by {
        assert(p.lists[0][i] >= 0);
    }
    assert forall|i: int| 0 <= i < stats.len() implies 0 <= #[trigger] stats[i] <= slot_max(
        true,
    ) by {
        assert(p.lists[1][i] >= 0);
    }
    let s4 = put_slots(s, true, stats, 0);
    lemma_put_slots(s, true, stats, 0);
    let s3 = put_col(s4, Column::Fixed(P_STATS_N), stats.len() as int);
    lemma_put_col(s4, Column::Fixed(P_STATS_N), stats.len() as int);
    let s2 = put_slots(s3, false, runes, 0);
    lemma_put_slots(s3, false, runes, 0);
    let s1 = put_col(s2, Column::Fixed(P_RUNES_N), runes.len() as int);
    lemma_put_col(s2, Column::Fixed(P_RUNES_N), runes.len() as int);
    lemma_put_row(s1, p.row, P_PLAYER as int, 0);
    assert(p.row.skip(0) =~= p.row);
    assert(runes.skip(0) =~= runes);
    assert(stats.skip(0) =~= stats);
    assert(seq![runes, stats] =~= p.lists);
}

pub(crate) proof fn lemma_put_participants(s: Streams, ps: Seq<FlatV>, k: int)
    requires
        widths_ok(s),
        0 <= k <= ps.len(),
        forall|i: int|
            0 <= i < ps.len() ==> has_shape(#[trigger] ps[i], participant_shape()),
        has_slots(s, ps),
    ensures
        take_participants(put_participants(s, ps, k), ps.len() - k) == Ok::<
            (Seq<FlatV>, Streams),
            BlockFault,
        >((ps.skip(k), s)),
        same_widths(put_participants(s, ps, k), s),
    decreases ps.len() - k,
{
    if k < ps.len() {
        lemma_put_participants(s, ps, k + 1);
        lemma_put_participant(put_participants(s, ps, k + 1), ps[k]);
        assert(seq![ps[k]] + ps.skip(k + 1) =~= ps.skip(k));
    } else {
        assert(ps.skip(k) =~= Seq::empty());
    }
}

/// Values that fit 32 bits.
pub open spec fn small(list: Seq<int>) -> bool {
    forall|i: int| 0 <= i < list.len() ==> 0 <= #[trigger] list[i] <= u32::MAX
}

pub(crate) proof fn lemma_put_series(s: Streams, c: Column, prev: Seq<int>, list: Seq<int>, k: int)
    requires
        has_column(s, c),
        0 <= k <= list.len(),
        small(prev),
        small(list),
    ensures
        take_series(put_series(s, c, prev, list, k), c, prev, k, list.len() as int) == Ok::<
            (Seq<int>, Streams),
            BlockFault,
        >((list.skip(k), s)),
        same_widths(put_series(s, c, prev, list, k), s),
    decreases list.len() - k,
{
    if k < list.len() {
        lemma_put_series(s, c, prev, list, k + 1);
        lemma_put_delta(
            put_series(s, c, prev, list, k + 1),
            c,
            list[k],
            at_or_zero(prev, k),
            0,
            u32::MAX as int,
        );
        assert(seq![list[k]] + list.skip(k + 1) =~= list.skip(k));
    } else {
        assert(list.skip(k) =~= Seq::empty());
    }
}

pub(crate) proof fn lemma_put_all_series(s: Streams, prev: Seq<Seq<int>>, lists: Seq<Seq<int>>, i: int)
    requires
        widths_ok(s),
        0 <= i <= 4,
        prev.len() == 4,
        lists.len() == 4,
        forall|j: int| 0 <= j < 4 ==> small(#[trigger] prev[j]),
        forall|j: int| 0 <= j < 4 ==> small(#[trigger] lists[j]),
        forall|j: int| 0 <= j < 4 ==> (#[trigger] lists[j]).len() <= usize::MAX,
    ensures
        take_all_series(put_all_series(s, prev, lists, i), prev, i) == Ok::<
            (Seq<Seq<int>>, Streams),
            BlockFault,
        >((lists.skip(i), s)),
        same_widths(put_all_series(s, prev, lists, i), s),
    decreases 4 - i,
{
    if i < 4 {
        lemma_put_all_series(s, prev, lists, i + 1);
        let s2 = put_all_series(s, prev, lists, i + 1);
        lemma_put_series(s2, value_column(i), prev[i], lists[i], 0);
        let s1 = put_series(s2, value_column(i), prev[i], lists[i], 0);
        lemma_put_col(s1, count_column(i), lists[i].len() as int);
        assert(lists[i].skip(0) =~= lists[i]);
        assert(seq![lists[i]] + lists.skip(i + 1) =~= lists.skip(i));
    } else {
        assert(lists.skip(i) =~= Seq::empty());
    }
}

pub(crate) proof fn lemma_frame_small(f: FlatV)
    requires
        has_shape(f, timeline_shape(1)),
    ensures
        f.lists.len() == 4,
        forall|j: int| 0 <= j < 4 ==> small(#[trigger] f.lists[j]),
{
    assert forall|j: int| 0 <= j < 4 implies small(#[trigger] f.lists[j]) by {
        assert forall|i: int| 0 <= i < f.lists[j].len() implies 0 <= #[trigger] f.lists[j][i]
            <= u32::MAX by {
            assert(!timeline_shape(1).signed[j]);
        }
    }
}

pub(crate) proof fn lemma_put_frames(s: Streams, prev: Seq<Seq<int>>, frames: Seq<FlatV>, k: int)
    requires
        widths_ok(s),
        0 <= k <= frames.len(),
        prev.len() == 4,
        forall|j: int| 0 <= j < 4 ==> small(#[trigger] prev[j]),
        flats_sized(frames),
        forall|i: int|
            0 <= i < frames.len() ==> has_shape(#[trigger] frames[i], timeline_shape(1)),
    ensures
        take_frames(put_frames(s, prev, frames, k), prev, frames.len() - k) == Ok::<
            (Seq<FlatV>, Streams),
            BlockFault,
        >((frames.skip(k), s)),
        same_widths(put_frames(s, prev, frames, k), s),
    decreases frames.len() - k,
{
    if k < frames.len() {
        let f = frames[k];
        lemma_frame_small(f);
        assert(flat_sized(f));
        lemma_put_frames(s, f.lists, frames, k + 1);
        let s2 = put_frames(s, f.lists, frames, k + 1);
        lemma_put_all_series(s2, prev, f.lists, 0);
        let s1 = put_all_series(s2, prev, f.lists, 0);
        lemma_put_col(s1, Column::Fixed(F_MINUTE), f.row[0] as int);
        assert(f.lists.skip(0) =~= f.lists);
        assert(seq![f.row[0]] =~= f.row);
        assert(seq![f] + frames.skip(k + 1) =~= frames.skip(k));
    } else {
        assert(frames.skip(k) =~= Seq::empty());
    }
}

pub(crate) proof fn lemma_put_events(
    s: Streams,
    prev: int,
    base: int,
    scalars: int,
    events: Seq<FlatV>,
    k: int,
)
    requires
        widths_ok(s),
        0 <= k <= events.len(),
        0 <= prev <= u32::MAX,
        0 <= base,
        1 <= scalars,
        base + scalars <= NMISC,
        forall|i: int|
            0 <= i < events.len() ==> (#[trigger] events[i]).row.len() == scalars
                && events[i].lists.len() == 0,
    ensures
        take_events(
            put_events(s, prev, base, events, k),
            prev,
            base,
            scalars,
            events.len() - k,
        ) == Ok::<(Seq<FlatV>, Streams), BlockFault>((events.skip(k), s)),
        same_widths(put_events(s, prev, base, events, k), s),
    decreases events.len() - k,
{
    if k < events.len() {
        let e = events[k];
        let t = e.row[0] as int;
        lemma_put_events(s, t, base, scalars, events, k + 1);
        let s2 = put_events(s, t, base, events, k + 1);
        lemma_put_row(s2, e.row.skip(1), base + 1, 0);
        let s1 = put_row(s2, e.row.skip(1), base + 1, 0);
        lemma_put_delta(s1, Column::Fixed(base as usize), t, prev, 0, u32::MAX as int);
        assert(e.row.skip(1).skip(0) =~= e.row.skip(1));
        assert(seq![e.row[0]] + e.row.skip(1) =~= e.row);
        assert(e.lists =~= Seq::empty());
        assert(FlatV { row: e.row, lists: Seq::empty() } =~= e);
        assert(seq![e] + events.skip(k + 1) =~= events.skip(k));
    } else {
        assert(events.skip(k) =~= Seq::empty());
    }
}

pub(crate) proof fn lemma_put_event_list(
    s: Streams,
    count: usize,
    base: usize,
    scalars: int,
    events: Seq<FlatV>,
)
    requires
        widths_ok(s),
        count < NMISC,
        1 <= scalars,
        base + scalars <= NMISC,
        events.len() <= usize::MAX,
        forall|i: int|
            0 <= i < events.len() ==> (#[trigger] events[i]).row.len() == scalars
                && events[i].lists.len() == 0,
    ensures
        take_event_list(put_event_list(s, count, base, events), count, base, scalars) == Ok::<
            (Seq<FlatV>, Streams),
            BlockFault,
        >((events, s)),
        same_widths(put_event_list(s, count, base, events), s),
{
    lemma_put_events(s, 0, base as int, scalars, events, 0);
    lemma_put_col(
        put_events(s, 0, base as int, events, 0),
        Column::Fixed(count),
        events.len() as int,
    );
    assert(events.skip(0) =~= events);
}

pub(crate) proof fn lemma_put_timeline(s: Streams, t: Seq<Seq<FlatV>>)
    requires
        widths_ok(s),
        timeline_sized(t),
    ensures
        take_timeline(put_timeline(s, t)) == Ok::<(Seq<Seq<FlatV>>, Streams), BlockFault>((t, s)),
        same_widths(put_timeline(s, t), s),
{
    assert(flats_sized(t[0]) && flats_sized(t[1]) && flats_sized(t[2]) && flats_sized(t[3]));
    assert forall|k: int, i: int| 0 <= k < 4 && 0 <= i < t[k].len() implies has_shape(
        #[trigger] t[k][i],
        timeline_shape(k + 1),
    ) by {}
    let s4 = put_event_list(s, NWARDS, W_T, t[3]);
    lemma_put_event_list(s, NWARDS, W_T, 3, t[3]);
    let s3 = put_event_list(s4, NOBJS, O_T, t[2]);
    lemma_put_event_list(s4, NOBJS, O_T, 5, t[2]);
    let s2 = put_event_list(s3, NKILLS, K_T, t[1]);
    lemma_put_event_list(s3, NKILLS, K_T, 6, t[1]);
    let s1 = put_frames(s2, no_series(), t[0], 0);
    lemma_put_frames(s2, no_series(), t[0], 0);
    lemma_put_col(s1, Column::Fixed(NFRAMES), t[0].len() as int);
    assert(t[0].skip(0) =~= t[0]);
    assert(seq![t[0], t[1], t[2], t[3]] =~= t);
}

pub(crate) proof fn lemma_put_head_tail(s: Streams, r: RecordV, first: RecordV)
    requires
        widths_ok(s),
        r.game_version.len() <= usize::MAX,
    ensures
        take_head_tail(put_head_tail(s, r), first) == Ok::<(RecordV, Streams), BlockFault>(
            (
                RecordV {
                    duration_s: r.duration_s,
                    blue_won: r.blue_won,
                    game_version: r.game_version,
                    patch_major: r.patch_major,
                    patch_minor: r.patch_minor,
                    ..first
                },
                s,
            ),
        ),
        same_widths(put_head_tail(s, r), s),
{
    let patch = seq![r.patch_major, r.patch_minor];
    let won: int = if r.blue_won {
        1
    } else {
        0
    };
    lemma_put_row(s, patch, PMAJ as int, 0);
    let s3 = put_row(s, patch, PMAJ as int, 0);
    assert(patch.skip(0) =~= patch);
    lemma_put_text(s3, GV_LEN, GV, r.game_version);
    let s2 = put_text(s3, GV_LEN, GV, r.game_version);
    lemma_put_col(s2, Column::Fixed(BLUE), won);
    let s1 = put_col(s2, Column::Fixed(BLUE), won);
    lemma_put_col(s1, Column::Fixed(DUR), r.duration_s as int);
}

pub(crate) proof fn lemma_put_head(s: Streams, r: RecordV, game_id: int, start: int)
    requires
        widths_ok(s),
        r.platform.len() <= usize::MAX,
        r.game_version.len() <= usize::MAX,
        deltas_fit(r, game_id, start),
    ensures
        take_head(put_head(s, r, game_id, start), game_id, start) == Ok::<
            (RecordV, Streams),
            BlockFault,
        >(
            (
                RecordV {
                    participants: Seq::empty(),
                    timeline: None,
                    bans: Seq::empty(),
                    ..r
                },
                s,
            ),
        ),
        same_widths(put_head(s, r, game_id, start), s),
{
    let first = RecordV {
        schema_version: r.schema_version,
        game_id: r.game_id,
        platform: r.platform,
        queue_id: r.queue_id,
        game_start_ms: r.game_start_ms,
        ..empty_record()
    };
    lemma_put_head_tail(s, r, first);
    let s5 = put_head_tail(s, r);
    lemma_put_delta(
        s5,
        Column::Fixed(START_D),
        r.game_start_ms as int,
        start,
        i64::MIN as int,
        i64::MAX as int,
    );
    let s4 = put_col(s5, Column::Fixed(START_D), zigzag(r.game_start_ms - start));
    lemma_put_col(s4, Column::Fixed(QUEUE), r.queue_id as int);
    let s3 = put_col(s4, Column::Fixed(QUEUE), r.queue_id as int);
    lemma_put_text(s3, PLAT_LEN, PLAT, r.platform);
    let s2 = put_text(s3, PLAT_LEN, PLAT, r.platform);
    lemma_put_delta(s2, Column::Fixed(GID_D), r.game_id as int, game_id, 0, u64::MAX as int);
    let s1 = put_col(s2, Column::Fixed(GID_D), zigzag(r.game_id - game_id));
    lemma_put_col(s1, Column::Fixed(SCHEMA), r.schema_version as int);
}

pub(crate) proof fn lemma_put_optional_timeline(s: Streams, t: Option<Seq<Seq<FlatV>>>)
    requires
        widths_ok(s),
        t matches Some(t) ==> timeline_sized(t),
    ensures
        take_optional_timeline(put_optional_timeline(s, t)) == Ok::<
            (Option<Seq<Seq<FlatV>>>, Streams),
            BlockFault,
        >((t, s)),
        same_widths(put_optional_timeline(s, t), s),
{
    match t {
        Some(t) => {
            lemma_put_timeline(s, t);
            lemma_put_col(put_timeline(s, t), Column::Fixed(TL_PRESENT), 1);
        },
        None => {
            lemma_put_col(s, Column::Fixed(TL_PRESENT), 0);
        },
    }
}

pub(crate) proof fn lemma_put_record(s: Streams, r: RecordV, game_id: int, start: int)
    requires
        widths_ok(s),
        record_sized(r),
        has_slots(s, r.participants),
        deltas_fit(r, game_id, start),
    ensures
        take_record(put_record(s, r, game_id, start), game_id, start) == Ok::<
            (RecordV, Streams),
            BlockFault,
        >((r, s)),
        same_widths(put_record(s, r, game_id, start), s),
{
    let s5 = put_list(s, Column::Fixed(BANS), r.bans, 0);
    lemma_put_list(s, Column::Fixed(BANS), r.bans, 0);
    let s4 = put_col(s5, Column::Fixed(BANS_N), r.bans.len() as int);
    lemma_put_col(s5, Column::Fixed(BANS_N), r.bans.len() as int);
    let s3 = put_optional_timeline(s4, r.timeline);
    lemma_put_optional_timeline(s4, r.timeline);
    let s2 = put_participants(s3, r.participants, 0);
    lemma_put_participants(s3, r.participants, 0);
    let s1 = put_col(s2, Column::Fixed(NPARTS), r.participants.len() as int);
    lemma_put_col(s2, Column::Fixed(NPARTS), r.participants.len() as int);
    lemma_put_head(s1, r, game_id, start);
    assert(r.participants.skip(0) =~= r.participants);
    assert(r.bans.skip(0) =~= r.bans);
}

/// Each record's deltas fit, from record `k` on.
pub open spec fn all_deltas_fit(rs: Seq<RecordV>, game_id: int, start: int, k: int) -> bool
    decreases rs.len() - k,
{
    if k < 0 || k >= rs.len() {
        true
    } else {
        deltas_fit(rs[k], game_id, start) && all_deltas_fit(
            rs,
            rs[k].game_id as int,
            rs[k].game_start_ms as int,
            k + 1,
        )
    }
}

pub open spec fn records_sized(rs: Seq<RecordV>) -> bool {
    forall|i: int| 0 <= i < rs.len() ==> record_sized(#[trigger] rs[i])
}

pub(crate) proof fn lemma_put_records(s: Streams, rs: Seq<RecordV>, game_id: int, start: int, k: int)
    requires
        widths_ok(s),
        0 <= k <= rs.len(),
        records_sized(rs),
        forall|i: int| 0 <= i < rs.len() ==> has_slots(s, (#[trigger] rs[i]).participants),
        all_deltas_fit(rs, game_id, start, k),
    ensures
        take_records(
            put_records(s, rs, game_id, start, k),
            game_id,
            start,
            k,
            rs.len() as int,
        ) == Ok::<(Seq<RecordV>, Streams), BlockError>((rs.skip(k), s)),
        same_widths(put_records(s, rs, game_id, start, k), s),
    decreases rs.len() - k,
{
    if k < rs.len() {
        let r = rs[k];
        lemma_put_records(s, rs, r.game_id as int, r.game_start_ms as int, k + 1);
        let s1 = put_records(s, rs, r.game_id as int, r.game_start_ms as int, k + 1);
        assert(has_slots(s, r.participants));
        lemma_put_record(s1, r, game_id, start);
        assert(seq![r] + rs.skip(k + 1) =~= rs.skip(k));
    } else {
        assert(rs.skip(k) =~= Seq::empty());
    }
}

pub open spec fn max(a: int, b: int) -> int {
    if a >= b {
        a
    } else {
        b
    }
}

/// The length of the longest list `j` among messages.
pub open spec fn list_width(ps: Seq<FlatV>, j: int) -> int
    decreases ps.len(),
{
    if ps.len() == 0 {
        0
    } else {
        max(list_width(ps.drop_last(), j), ps.last().lists[j].len() as int)
    }
}

/// The length of the longest participant list `j` of a block: 0 are the runes,
/// 1 the stats.
pub open spec fn block_width(rs: Seq<RecordV>, j: int) -> int
    decreases rs.len(),
{
    if rs.len() == 0 {
        0
    } else {
        max(block_width(rs.drop_last(), j), list_width(rs.last().participants, j))
    }
}

pub proof fn lemma_list_width(ps: Seq<FlatV>, j: int, i: int)
    requires
        0 <= i < ps.len(),
    ensures
        ps[i].lists[j].len() <= list_width(ps, j),
    decreases ps.len(),
{
    if i < ps.len() - 1 {
        lemma_list_width(ps.drop_last(), j, i);
    }
}

pub proof fn lemma_block_width(rs: Seq<RecordV>, j: int, i: int)
    requires
        0 <= i < rs.len(),
    ensures
        list_width(rs[i].participants, j) <= block_width(rs, j),
    decreases rs.len(),
{
    if i < rs.len() - 1 {
        lemma_block_width(rs.drop_last(), j, i);
    }
}

pub open spec fn empty_columns(n: int) -> Seq<Seq<u8>> {
    Seq::new(n as nat, |i: int| Seq::empty())
}

/// As many columns as given, all empty.
pub open spec fn empty_streams(stats: int, runes: int) -> Streams {
    Streams {
        fixed: empty_columns(NMISC as int),
        stat: empty_columns(stats),
        rune: empty_columns(runes),
    }
}

/// The columns of a block of records.
pub open spec fn block_streams(rs: Seq<RecordV>) -> Streams {
    put_records(empty_streams(block_width(rs, 1), block_width(rs, 0)), rs, 0, 0, 0)
}

pub open spec fn all_columns(s: Streams) -> Seq<Seq<u8>> {
    s.fixed + s.stat + s.rune
}

pub open spec fn lengths(columns: Seq<Seq<u8>>) -> Seq<int> {
    columns.map_values(|c: Seq<u8>| c.len() as int)
}

pub open spec fn concat(columns: Seq<Seq<u8>>) -> Seq<u8>
    decreases columns.len(),
{
    if columns.len() == 0 {
        Seq::empty()
    } else {
        columns[0] + concat(columns.skip(1))
    }
}

/// Header, lengths and data of `n` records in the given columns.
pub open spec fn payload_of(n: int, s: Streams) -> Seq<u8> {
    preamble() + varint(n) + varint(s.stat.len() as int) + varint(s.rune.len() as int) + varints(
        lengths(all_columns(s)),
    ) + concat(all_columns(s))
}

/// The payload of a block of records.
pub open spec fn block_payload(rs: Seq<RecordV>) -> Seq<u8> {
    payload_of(rs.len() as int, block_streams(rs))
}

proof fn lemma_take_lengths(values: Seq<int>, k: int, data: Seq<u8>)
    requires
        0 <= k <= values.len(),
        forall|i: int| 0 <= i < values.len() ==> 0 <= #[trigger] values[i] <= usize::MAX,
    ensures
        take_lengths(varints(values.skip(k)) + data, k, values.len() as int) == Ok::<
            (Seq<int>, Seq<u8>),
            BlockFault,
        >((values.skip(k), data)),
        varints(values.skip(k)).len() >= values.len() - k,
    decreases values.len() - k,
{
    let rest = values.skip(k);
    if k < values.len() {
        lemma_take_lengths(values, k + 1, data);
        assert(rest.skip(1) =~= values.skip(k + 1));
        let more = varints(values.skip(k + 1)) + data;
        assert(varints(rest) + data =~= varint(values[k]) + more);
        lemma_varint_roundtrip(values[k], more);
        lemma_varint_nonempty(values[k]);
        assert(seq![values[k]] + values.skip(k + 1) =~= rest);
    } else {
        assert(rest =~= Seq::empty());
        assert(varints(rest) + data =~= data);
    }
}

proof fn lemma_cut_concat(columns: Seq<Seq<u8>>)
    ensures
        total(lengths(columns)) == concat(columns).len(),
        cut(concat(columns), lengths(columns)) == columns,
    decreases columns.len(),
{
    if columns.len() > 0 {
        let more = columns.skip(1);
        lemma_cut_concat(more);
        assert(lengths(columns).skip(1) =~= lengths(more));
        let all = concat(columns);
        assert(all.take(columns[0].len() as int) =~= columns[0]);
        assert(all.skip(columns[0].len() as int) =~= concat(more));
        assert(seq![columns[0]] + more =~= columns);
    } else {
        assert(cut(concat(columns), lengths(columns)) =~= columns);
    }
}

proof fn lemma_concat_len(columns: Seq<Seq<u8>>, i: int)
    requires
        0 <= i < columns.len(),
    ensures
        columns[i].len() <= concat(columns).len(),
    decreases columns.len(),
{
    if i > 0 {
        lemma_concat_len(columns.skip(1), i - 1);
    }
}

/// A payload's header names the columns that the payload was built from.
proof fn lemma_manifest(n: int, s: Streams)
    requires
        widths_ok(s),
        0 <= n <= usize::MAX,
        payload_of(n, s).len() <= usize::MAX,
    ensures
        manifest(payload_of(n, s)) == Ok::<(int, Streams), BlockFault>((n, s)),
{
    let payload = payload_of(n, s);
    let stats = s.stat.len() as int;
    let runes = s.rune.len() as int;
    let columns = all_columns(s);
    let lens = lengths(columns);
    let data = concat(columns);
    let b3 = varints(lens) + data;
    let b2 = varint(runes) + b3;
    let b1 = varint(stats) + b2;
    let b0 = varint(n) + b1;
    assert(payload =~= preamble() + b0);
    assert(payload.take(4) =~= preamble().take(4));
    assert(payload.skip(5) =~= b0);
    assert(payload[4] == preamble()[4]);
    lemma_varint_roundtrip(n, b1);
    lemma_varint_roundtrip(stats, b2);
    lemma_varint_roundtrip(runes, b3);
    assert forall|i: int| 0 <= i < lens.len() implies 0 <= #[trigger] lens[i] <= usize::MAX by {
        lemma_concat_len(columns, i);
    }
    lemma_take_lengths(lens, 0, data);
    assert(lens.skip(0) =~= lens);
    lemma_cut_concat(columns);
    assert(as_streams(columns, stats).fixed =~= s.fixed);
    assert(as_streams(columns, stats).stat =~= s.stat);
    assert(as_streams(columns, stats).rune =~= s.rune);
}

proof fn lemma_nothing_left(stats: int, runes: int, i: int)
    requires
        0 <= i <= NMISC + stats + runes,
        0 <= stats <= usize::MAX,
        0 <= runes <= usize::MAX,
    ensures
        first_unconsumed(empty_streams(stats, runes), i) is None,
    decreases NMISC + stats + runes - i,
{
    let s = empty_streams(stats, runes);
    if i < NMISC + stats + runes {
        lemma_nothing_left(stats, runes, i + 1);
        assert(column(s, nth_column(s, i)).len() == 0);
    }
}

proof fn lemma_width_bounds(rs: Seq<RecordV>, j: int)
    requires
        records_sized(rs),
        0 <= j < 2,
    ensures
        0 <= block_width(rs, j) <= usize::MAX,
    decreases rs.len(),
{
    if rs.len() > 0 {
        assert forall|i: int| 0 <= i < rs.drop_last().len() implies record_sized(
            #[trigger] rs.drop_last()[i],
        ) by {
            assert(record_sized(rs[i]));
        }
        lemma_width_bounds(rs.drop_last(), j);
        assert(record_sized(rs[rs.len() - 1]));
        lemma_list_width_bounds(rs.last().participants, j);
    }
}

proof fn lemma_list_width_bounds(ps: Seq<FlatV>, j: int)
    requires
        forall|i: int|
            0 <= i < ps.len() ==> has_shape(#[trigger] ps[i], participant_shape()) && flat_sized(
                ps[i],
            ),
        0 <= j < 2,
    ensures
        0 <= list_width(ps, j) <= usize::MAX,
    decreases ps.len(),
{
    if ps.len() > 0 {
        assert forall|i: int| 0 <= i < ps.drop_last().len() implies has_shape(
            #[trigger] ps.drop_last()[i],
            participant_shape(),
        ) && flat_sized(ps.drop_last()[i]) by {
            assert(has_shape(ps[i], participant_shape()));
        }
        lemma_list_width_bounds(ps.drop_last(), j);
        let p = ps[ps.len() - 1];
        assert(flat_sized(p));
        assert(p.lists[j].len() <= usize::MAX);
    }
}

/// A block's columns are enough for each of its records.
pub(crate) proof fn lemma_block_slots(rs: Seq<RecordV>)
    requires
        records_sized(rs),
    ensures
        ({
            let none = empty_streams(block_width(rs, 1), block_width(rs, 0));
            &&& widths_ok(none)
            &&& forall|i: int|
                0 <= i < rs.len() ==> has_slots(none, (#[trigger] rs[i]).participants)
        }),
{
    let stats = block_width(rs, 1);
    let runes = block_width(rs, 0);
    let none = empty_streams(stats, runes);
    lemma_width_bounds(rs, 0);
    lemma_width_bounds(rs, 1);
    assert forall|i: int| 0 <= i < rs.len() implies has_slots(
        none,
        (#[trigger] rs[i]).participants,
    ) by {
        let ps = rs[i].participants;
        lemma_block_width(rs, 0, i);
        lemma_block_width(rs, 1, i);
        assert forall|j: int| 0 <= j < ps.len() implies (#[trigger] ps[j]).lists[0].len()
            <= none.rune.len() && ps[j].lists[1].len() <= none.stat.len() by {
            lemma_list_width(ps, 0, j);
            lemma_list_width(ps, 1, j);
        }
    }
}

/// Lossless: the payload of a block gives back its records, in order, and
/// nothing else.
pub proof fn law_block_roundtrip(rs: Seq<RecordV>)
    requires
        records_sized(rs),
        rs.len() <= usize::MAX,
        all_deltas_fit(rs, 0, 0, 0),
        block_payload(rs).len() <= usize::MAX,
    ensures
        block_records(block_payload(rs)) == Ok::<Seq<RecordV>, BlockError>(rs),
{
    reveal(block_records);
    let stats = block_width(rs, 1);
    let runes = block_width(rs, 0);
    let none = empty_streams(stats, runes);
    lemma_block_slots(rs);
    lemma_put_records(none, rs, 0, 0, 0);
    lemma_manifest(rs.len() as int, block_streams(rs));
    lemma_nothing_left(stats, runes, 0);
    assert(rs.skip(0) =~= rs);
}

// ---- no payload goes on in another ----

proof fn lemma_varint_goes_on(b: Seq<u8>, idx: int, more: Seq<u8>)
    ensures
        take_varint_from(b, idx) matches Ok((v, rest)) ==> take_varint_from(b + more, idx) == Ok::<
            (int, Seq<u8>),
            VarintFault,
        >((v, rest + more)),
    decreases b.len(),
{
    if b.len() > 0 {
        assert((b + more).skip(1) =~= b.skip(1) + more);
        if !(idx >= 9 && b[0] > 1) && b[0] >= 128 {
            lemma_varint_goes_on(b.skip(1), idx + 1, more);
        }
    }
}

proof fn lemma_header_goes_on(b: Seq<u8>, field: HeaderField, more: Seq<u8>)
    ensures
        take_header(b, field) matches Ok((v, rest)) ==> take_header(b + more, field) == Ok::<
            (int, Seq<u8>),
            BlockFault,
        >((v, rest + more)),
{
    lemma_varint_goes_on(b, 0, more);
}

proof fn lemma_lengths_go_on(b: Seq<u8>, k: int, n: int, more: Seq<u8>)
    ensures
        take_lengths(b, k, n) matches Ok((lengths, data)) ==> take_lengths(b + more, k, n) == Ok::<
            (Seq<int>, Seq<u8>),
            BlockFault,
        >((lengths, data + more)),
    decreases n - k,
{
    if k < n {
        let field = HeaderField::ColumnLength(k as usize);
        lemma_header_goes_on(b, field, more);
        match take_header(b, field) {
            Ok((_, rest)) => lemma_lengths_go_on(rest, k + 1, n, more),
            Err(_) => {},
        }
    }
}

/// A payload that a block was read from is the whole of it: with anything
/// behind it, it is refused for what comes behind.
pub proof fn law_trailing_bytes_are_refused(payload: Seq<u8>, more: Seq<u8>)
    requires
        block_records(payload) is Ok,
        more.len() > 0,
    ensures
        block_records(payload + more) == Err::<Seq<RecordV>, BlockError>(
            BlockError { record: None, fault: BlockFault::TrailingData },
        ),
{
    reveal(block_records);
    let all = payload + more;
    assert(all.take(4) =~= payload.take(4));
    let b = payload.skip(5);
    assert(all.skip(5) =~= b + more);
    lemma_header_goes_on(b, HeaderField::Records, more);
    let b1 = take_header(b, HeaderField::Records)->Ok_0.1;
    lemma_header_goes_on(b1, HeaderField::StatColumns, more);
    let (stats, b2) = take_header(b1, HeaderField::StatColumns)->Ok_0;
    lemma_header_goes_on(b2, HeaderField::RuneColumns, more);
    let (runes, b3) = take_header(b2, HeaderField::RuneColumns)->Ok_0;
    lemma_lengths_go_on(b3, 0, NMISC + stats + runes, more);
}

/// A payload that is cut short anywhere is refused.
pub proof fn law_truncation_is_refused(payload: Seq<u8>, k: int)
    requires
        block_records(payload) is Ok,
        0 <= k < payload.len(),
    ensures
        block_records(payload.take(k)) is Err,
{
    if block_records(payload.take(k)) is Ok {
        assert(payload.take(k) + payload.skip(k) =~= payload);
        law_trailing_bytes_are_refused(payload.take(k), payload.skip(k));
    }
}

} // verus!
