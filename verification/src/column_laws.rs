//! Which column of a block holds what.

use crate::columnar::{
    block_records, no_series, preamble, BlockError, BlockFault, Column, EncodeError, Streams,
};
use crate::columnar_laws::{
    all_columns, concat, lengths, payload_of, put_all_series, put_col, put_events, put_frames,
    put_head, put_list, put_participant, put_participants, put_record, put_row, put_series,
    put_slots, put_timeline,
};
use crate::record::{record_decoded, FlatV, RecordV};
use crate::wire::{varint, varints};
use crate::columnar_encode::{first_diff, input_records};
use vstd::prelude::*;

verus! {

/// A signed number as it is folded.
pub open spec fn folded(v: int) -> int {
    if v >= 0 {
        2 * v
    } else {
        -2 * v - 1
    }
}

/// A column gained bytes at its front.
pub open spec fn gained(s: Streams, t: Streams, c: int, bytes: Seq<u8>) -> bool {
    t.fixed[c] == bytes + s.fixed[c]
}

/// A block starts with four letters and its version; then come the number of
/// records, those of the columns for statistics and for runes, the length of
/// every column, and the columns: the fifty fixed ones first.
pub proof fn law_blocks_start_with_their_sizes(n: int, s: Streams)
    ensures
        payload_of(n, s) == seq![0x4Cu8, 0x43, 0x4F, 0x4C, 1] + varint(n) + varint(
            s.stat.len() as int,
        ) + varint(s.rune.len() as int) + varints(lengths(s.fixed + s.stat + s.rune)) + concat(
            s.fixed + s.stat + s.rune,
        ),
{
    assert(all_columns(s) =~= s.fixed + s.stat + s.rune);
}

/// The columns of what is said of a match as a whole. The game and the start are
/// differences to those of the record before.
pub proof fn law_columns_of_a_match(s: Streams, r: RecordV, game_id: int, start: int, c: int)
    requires
        s.fixed.len() == 50,
    ensures
        ({
            let t = put_head(s, r, game_id, start);
            &&& t.fixed.len() == 50
            &&& gained(s, t, 0, varint(r.schema_version as int))
            &&& gained(s, t, 1, varint(folded(r.game_id - game_id)))
            &&& gained(s, t, 2, varint(r.platform.len() as int))
            &&& gained(s, t, 3, r.platform)
            &&& gained(s, t, 4, varint(r.queue_id as int))
            &&& gained(s, t, 5, varint(folded(r.game_start_ms - start)))
            &&& gained(s, t, 6, varint(r.duration_s as int))
            &&& gained(
                s,
                t,
                7,
                varint(
                    if r.blue_won {
                        1
                    } else {
                        0
                    },
                ),
            )
            &&& gained(s, t, 8, varint(r.game_version.len() as int))
            &&& gained(s, t, 9, r.game_version)
            &&& gained(s, t, 10, varint(r.patch_major as int))
            &&& gained(s, t, 11, varint(r.patch_minor as int))
            &&& 12 <= c < 50 ==> t.fixed[c] == s.fixed[c]
            &&& t.stat == s.stat && t.rune == s.rune
        }),
{
    reveal_with_fuel(put_row, 3);
}

/// The columns of a participant: player, champion, seat and spells, how many
/// runes and how many statistics; each rune and each statistic has a column of
/// its own.
pub proof fn law_columns_of_a_participant(s: Streams, p: FlatV, c: int, k: int)
    requires
        s.fixed.len() == 50,
        p.row.len() == 5,
        p.lists.len() == 2,
        p.lists[0].len() <= s.rune.len() <= usize::MAX,
        p.lists[1].len() <= s.stat.len() <= usize::MAX,
    ensures
        ({
            let t = put_participant(s, p);
            &&& t.fixed.len() == 50
            &&& gained(s, t, 15, varint(p.row[0] as int))
            &&& gained(s, t, 16, varint(p.row[1] as int))
            &&& gained(s, t, 17, varint(p.row[2] as int))
            &&& gained(s, t, 18, varint(p.row[3] as int))
            &&& gained(s, t, 19, varint(p.row[4] as int))
            &&& gained(s, t, 20, varint(p.lists[0].len() as int))
            &&& gained(s, t, 21, varint(p.lists[1].len() as int))
            &&& 0 <= c < 15 || 22 <= c < 50 ==> t.fixed[c] == s.fixed[c]
            &&& 0 <= k < p.lists[0].len() ==> t.rune[k] == varint(p.lists[0][k]) + s.rune[k]
            &&& p.lists[0].len() <= k < s.rune.len() ==> t.rune[k] == s.rune[k]
            &&& 0 <= k < p.lists[1].len() ==> t.stat[k] == varint(p.lists[1][k]) + s.stat[k]
            &&& p.lists[1].len() <= k < s.stat.len() ==> t.stat[k] == s.stat[k]
        }),
{
    reveal_with_fuel(put_row, 6);
    let s4 = put_slots(s, true, p.lists[1], 0);
    lemma_slots(s, true, p.lists[1], 0, k);
    let s3 = put_col(s4, Column::Fixed(21), p.lists[1].len() as int);
    lemma_slots(s3, false, p.lists[0], 0, k);
}

proof fn lemma_slots(s: Streams, stats: bool, list: Seq<int>, from: int, k: int)
    requires
        0 <= from,
        stats ==> list.len() <= s.stat.len() <= usize::MAX,
        !stats ==> list.len() <= s.rune.len() <= usize::MAX,
    ensures
        ({
            let t = put_slots(s, stats, list, from);
            &&& t.fixed == s.fixed
            &&& stats ==> t.rune == s.rune && t.stat.len() == s.stat.len()
            &&& !stats ==> t.stat == s.stat && t.rune.len() == s.rune.len()
            &&& stats && 0 <= k < s.stat.len() ==> t.stat[k] == (if from <= k < list.len() {
                varint(list[k]) + s.stat[k]
            } else {
                s.stat[k]
            })
            &&& !stats && 0 <= k < s.rune.len() ==> t.rune[k] == (if from <= k < list.len() {
                varint(list[k]) + s.rune[k]
            } else {
                s.rune[k]
            })
        }),
    decreases list.len() - from,
{
    if from < list.len() {
        lemma_slots(s, stats, list, from + 1, k);
        lemma_slots(s, stats, list, from + 1, from);
    }
}

/// A record without players and timeline still says so, in the columns for their
/// number and for its presence; its bans are counted and listed.
pub proof fn law_columns_of_bans(s: Streams, r: RecordV, game_id: int, start: int)
    requires
        s.fixed.len() == 50,
        r.participants.len() == 0,
        r.timeline is None,
    ensures
        ({
            let t = put_record(s, r, game_id, start);
            &&& gained(s, t, 12, varint(r.bans.len() as int))
            &&& t.fixed[13] == put_list(s, Column::Fixed(13), r.bans, 0).fixed[13]
            &&& gained(s, t, 14, varint(0))
            &&& gained(s, t, 22, varint(0))
            &&& gained(s, t, 0, varint(r.schema_version as int))
        }),
{
    lemma_list(s, 13, r.bans, 0, 12);
    lemma_list(s, 13, r.bans, 0, 14);
    lemma_list(s, 13, r.bans, 0, 22);
    lemma_list(s, 13, r.bans, 0, 0);
    lemma_list(s, 13, r.bans, 0, 13);
    let s5 = put_list(s, Column::Fixed(13), r.bans, 0);
    let s4 = put_col(s5, Column::Fixed(12), r.bans.len() as int);
    let s3 = put_col(s4, Column::Fixed(22), 0);
    assert(put_participants(s3, r.participants, 0) == s3);
    let s1 = put_col(s3, Column::Fixed(14), 0);
    law_columns_of_a_match(s1, r, game_id, start, 12);
    law_columns_of_a_match(s1, r, game_id, start, 13);
    law_columns_of_a_match(s1, r, game_id, start, 14);
    law_columns_of_a_match(s1, r, game_id, start, 22);
}

proof fn lemma_list(s: Streams, c: usize, list: Seq<u32>, from: int, other: int)
    requires
        s.fixed.len() == 50,
        c < 50,
        0 <= from,
        0 <= other < 50,
    ensures
        put_list(s, Column::Fixed(c), list, from).fixed.len() == 50,
        other != c ==> put_list(s, Column::Fixed(c), list, from).fixed[other] == s.fixed[other],
    decreases list.len() - from,
{
    if from < list.len() {
        lemma_list(s, c, list, from + 1, other);
    }
}

/// Events have a column for each of their numbers; the first is the time, as
/// the difference to that of the event before.
pub proof fn law_columns_of_an_event(s: Streams, prev: int, base: int, e: FlatV, c: int)
    requires
        s.fixed.len() == 50,
        0 <= base,
        e.row.len() == 3,
        base + 3 <= 50,
    ensures
        ({
            let t = put_events(s, prev, base, seq![e], 0);
            &&& t.fixed.len() == 50
            &&& gained(s, t, base, varint(folded(e.row[0] - prev)))
            &&& gained(s, t, base + 1, varint(e.row[1] as int))
            &&& gained(s, t, base + 2, varint(e.row[2] as int))
            &&& 0 <= c < base || base + 3 <= c < 50 ==> t.fixed[c] == s.fixed[c]
        }),
{
    reveal_with_fuel(put_events, 2);
    reveal_with_fuel(put_row, 3);
    assert(e.row.skip(1)[0] == e.row[1] && e.row.skip(1)[1] == e.row[2]);
}

/// A timeline counts its frames, kills, objectives and wards, each in a column of
/// its own.
pub proof fn law_columns_of_a_timeline(s: Streams, t: Seq<Seq<FlatV>>, w: FlatV, c: int)
    requires
        s.fixed.len() == 50,
        t.len() == 4,
        t[0].len() == 0 && t[1].len() == 0 && t[2].len() == 0,
        t[3] == seq![w],
        w.row.len() == 3,
    ensures
        ({
            let u = put_timeline(s, t);
            &&& u.fixed.len() == 50
            &&& gained(s, u, 23, varint(0))
            &&& gained(s, u, 33, varint(0))
            &&& gained(s, u, 40, varint(0))
            &&& gained(s, u, 46, varint(1))
            &&& gained(s, u, 47, varint(folded(w.row[0] as int)))
            &&& gained(s, u, 48, varint(w.row[1] as int))
            &&& gained(s, u, 49, varint(w.row[2] as int))
            &&& 24 <= c < 33 || 34 <= c < 40 || 41 <= c < 46 ==> u.fixed[c] == s.fixed[c]
        }),
{
    law_columns_of_an_event(s, 0, 47, w, c);
    law_columns_of_an_event(s, 0, 47, w, 46);
    law_columns_of_an_event(s, 0, 47, w, 40);
    law_columns_of_an_event(s, 0, 47, w, 33);
    law_columns_of_an_event(s, 0, 47, w, 23);
    reveal_with_fuel(put_frames, 2);
    let s4 = put_events(s, 0, 47, t[3], 0);
    assert(put_events(s4, 0, 41, t[2], 0) == s4);
}

/// A frame has a column for its minute, and for each of its four series one for
/// the number of players and one for the values, as differences to the frame
/// before.
pub proof fn law_columns_of_a_frame(s: Streams, f: FlatV, v: Seq<int>, c: int)
    requires
        s.fixed.len() == 50,
        f.row.len() == 1,
        v.len() == 4,
        f.lists == seq![seq![v[0]], seq![v[1]], seq![v[2]], seq![v[3]]],
    ensures
        ({
            let t = put_frames(s, no_series(), seq![f], 0);
            &&& t.fixed.len() == 50
            &&& gained(s, t, 24, varint(f.row[0] as int))
            &&& gained(s, t, 25, varint(1))
            &&& gained(s, t, 26, varint(folded(v[0])))
            &&& gained(s, t, 27, varint(1))
            &&& gained(s, t, 28, varint(folded(v[1])))
            &&& gained(s, t, 29, varint(1))
            &&& gained(s, t, 30, varint(folded(v[2])))
            &&& gained(s, t, 31, varint(1))
            &&& gained(s, t, 32, varint(folded(v[3])))
            &&& 0 <= c < 24 || 33 <= c < 50 ==> t.fixed[c] == s.fixed[c]
        }),
{
    reveal_with_fuel(put_frames, 2);
    reveal_with_fuel(put_all_series, 5);
    reveal_with_fuel(put_series, 2);
}

/// A block that does not start with its letters and version one is refused.
pub proof fn law_other_blocks_are_refused(payload: Seq<u8>)
    ensures
        payload.len() < 5 ==> block_records(payload) == Err::<Seq<RecordV>, BlockError>(
            BlockError { record: None, fault: BlockFault::TruncatedHeader },
        ),
        payload.len() >= 5 && (payload[0] != 0x4C || payload[1] != 0x43 || payload[2] != 0x4F
            || payload[3] != 0x4C) ==> block_records(payload) == Err::<Seq<RecordV>, BlockError>(
            BlockError { record: None, fault: BlockFault::BadMagic },
        ),
        payload.len() >= 5 && payload[0] == 0x4C && payload[1] == 0x43 && payload[2] == 0x4F
            && payload[3] == 0x4C && payload[4] != 1 ==> block_records(payload) == Err::<
            Seq<RecordV>,
            BlockError,
        >(BlockError { record: None, fault: BlockFault::UnsupportedVersion }),
{
    reveal(block_records);
    if payload.len() >= 5 {
        let head = payload.take(4);
        let want = preamble().take(4);
        assert(head[0] == payload[0] && head[1] == payload[1] && head[2] == payload[2] && head[3]
            == payload[3]);
        assert(want[0] == 0x4C && want[1] == 0x43 && want[2] == 0x4F && want[3] == 0x4C);
        if payload[0] == 0x4C && payload[1] == 0x43 && payload[2] == 0x4F && payload[3] == 0x4C {
            assert(head =~= want);
        }
    }
}

/// Records are taken as they are: the first that cannot be read, or that is too
/// far from the one before it, is named. A record that would not come back as it
/// was is named with the place of the first difference.
pub proof fn law_unfit_records_are_named(inputs: Seq<Seq<u8>>, k: int, prev: int, start: int)
    requires
        0 <= k < inputs.len() <= usize::MAX,
    ensures
        record_decoded(inputs[k]) is None ==> input_records(inputs, prev, start, k) == Err::<
            Seq<RecordV>,
            EncodeError,
        >(EncodeError::Undecodable { record: k as usize }),
        record_decoded(inputs[k]) matches Some(r) ==> {
            let far = r.game_id - prev > 0x7fff_ffff_ffff_ffff || r.game_id - prev
                < -0x8000_0000_0000_0000;
            let late = r.game_start_ms - start > 0x7fff_ffff_ffff_ffff || r.game_start_ms - start
                < -0x8000_0000_0000_0000;
            &&& far ==> input_records(inputs, prev, start, k) == Err::<Seq<RecordV>, EncodeError>(
                EncodeError::GameIdDelta { record: k as usize },
            )
            &&& !far && late ==> input_records(inputs, prev, start, k) == Err::<
                Seq<RecordV>,
                EncodeError,
            >(EncodeError::StartDelta { record: k as usize })
            &&& !far && !late && k == inputs.len() - 1 ==> input_records(inputs, prev, start, k)
                == Ok::<Seq<RecordV>, EncodeError>(seq![r])
        },
{
    if k == inputs.len() - 1 {
        reveal_with_fuel(input_records, 2);
        assert(record_decoded(inputs[k]) matches Some(r) ==> seq![r] + Seq::<RecordV>::empty()
            =~= seq![r]);
    }
}

/// Two texts of bytes differ first where one ends or the bytes are not the same.
pub proof fn law_first_difference(a: Seq<u8>, b: Seq<u8>, from: int, i: int)
    requires
        0 <= from <= i,
        i <= a.len(),
        i <= b.len(),
        forall|j: int| from <= j < i ==> a[j] == b[j],
        i == a.len() || i == b.len() || a[i] != b[i],
    ensures
        first_diff(a, b, from) == i,
    decreases i - from,
{
    if from < i {
        assert(a[from] == b[from]);
        law_first_difference(a, b, from + 1, i);
    }
}

} // verus!
