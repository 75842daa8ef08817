//! What a timeline says of a match, told from the document alone.

use crate::json::{array_member, JsonV};
use crate::limit_laws::lemma_decimal_digits;
use crate::parse::ParseError;
use crate::parse_laws::{
    lacks, law_arrays_are_read, law_members_are_found, law_numbers_are_read, law_texts_are_read,
    member_is,
};
use crate::record::{empty_timeline, FlatV};
use crate::text::{decimal, law_decimal_roundtrip, parsed_i64};
use crate::timeline::{
    assists, frame_key, frame_of, frame_series, frame_values, map_ok, mapped, parsed_timeline,
    timeline_of, with_event, with_events,
};
use vstd::prelude::*;

verus! {

/// The document has these frames.
pub open spec fn frames_are(t: JsonV, frames: Seq<JsonV>) -> bool {
    exists|info: JsonV| #[trigger]
        member_is(t, "info"@, info) && member_is(info, "frames"@, JsonV::Array(frames))
}

proof fn lemma_frames(t: JsonV, frames: Seq<JsonV>, map: Seq<int>)
    requires
        frames_are(t, frames),
    ensures
        parsed_timeline(t, map) == Ok::<Seq<Seq<FlatV>>, ParseError>(
            timeline_of(frames, map, frames.len() as int),
        ),
{
    let info = choose|info: JsonV| #[trigger]
        member_is(t, "info"@, info) && member_is(info, "frames"@, JsonV::Array(frames));
    law_members_are_found(t, "info"@, info);
    law_arrays_are_read(info, "frames"@, frames);
}

proof fn lemma_prefix(a: Seq<JsonV>, b: Seq<JsonV>, map: Seq<int>, n: int)
    requires
        0 <= n <= a.len(),
        n <= b.len(),
        a.take(n) == b.take(n),
    ensures
        timeline_of(a, map, n) == timeline_of(b, map, n),
    decreases n,
{
    if n > 0 {
        assert(a.take(n - 1) =~= a.take(n).take(n - 1));
        assert(b.take(n - 1) =~= b.take(n).take(n - 1));
        assert(a[n - 1] == a.take(n)[n - 1]);
        assert(b[n - 1] == b.take(n)[n - 1]);
        lemma_prefix(a, b, map, n - 1);
    }
}

proof fn lemma_events_prefix(
    tl: Seq<Seq<FlatV>>,
    a: Seq<JsonV>,
    b: Seq<JsonV>,
    map: Seq<int>,
    n: int,
)
    requires
        0 <= n <= a.len(),
        n <= b.len(),
        a.take(n) == b.take(n),
    ensures
        with_events(tl, a, map, n) == with_events(tl, b, map, n),
    decreases n,
{
    if n > 0 {
        assert(a.take(n - 1) =~= a.take(n).take(n - 1));
        assert(b.take(n - 1) =~= b.take(n).take(n - 1));
        assert(a[n - 1] == a.take(n)[n - 1]);
        assert(b[n - 1] == b.take(n)[n - 1]);
        lemma_events_prefix(tl, a, b, map, n - 1);
    }
}

proof fn lemma_four(tl: Seq<Seq<FlatV>>, events: Seq<JsonV>, map: Seq<int>, n: int)
    requires
        tl.len() == 4,
    ensures
        with_events(tl, events, map, n).len() == 4,
        with_events(tl, events, map, n)[0] == tl[0],
    decreases n,
{
    if n > 0 {
        lemma_four(tl, events, map, n - 1);
    }
}

proof fn lemma_timeline_four(frames: Seq<JsonV>, map: Seq<int>, n: int)
    ensures
        timeline_of(frames, map, n).len() == 4,
        n >= 0 ==> timeline_of(frames, map, n)[0].len() == n,
    decreases n,
{
    if n > 0 {
        lemma_timeline_four(frames, map, n - 1);
        let prev = timeline_of(frames, map, n - 1);
        let grown = prev.update(0, prev[0].push(frame_of(frames[n - 1], n - 1, map)));
        match array_member(frames[n - 1], "events"@) {
            Some(events) => {
                lemma_four(grown, events, map, events.len() as int);
            },
            None => {},
        }
    }
}

/// A timeline without frames is empty, and one that has no list of frames at
/// all is no timeline.
pub proof fn law_timelines_start_empty(t: JsonV, map: Seq<int>)
    ensures
        frames_are(t, Seq::empty()) ==> parsed_timeline(t, map) == Ok::<
            Seq<Seq<FlatV>>,
            ParseError,
        >(seq![Seq::empty(), Seq::empty(), Seq::empty(), Seq::empty()]),
        lacks(t, "info"@) ==> parsed_timeline(t, map) == Err::<Seq<Seq<FlatV>>, ParseError>(
            ParseError::NoTimelineFrames,
        ),
{
    if frames_are(t, Seq::empty()) {
        lemma_frames(t, Seq::empty(), map);
        assert(empty_timeline() =~= seq![
            Seq::<FlatV>::empty(),
            Seq::<FlatV>::empty(),
            Seq::<FlatV>::empty(),
            Seq::<FlatV>::empty(),
        ]);
    }
    if lacks(t, "info"@) {
        law_members_are_found(t, "info"@, JsonV::Null);
    }
}

/// A frame more is a minute more: the frame is filed under the number of those
/// before it, and without events it brings nothing else.
pub proof fn law_frames_are_minutes(
    t: JsonV,
    longer: JsonV,
    frames: Seq<JsonV>,
    frame: JsonV,
    map: Seq<int>,
)
    requires
        frames_are(t, frames),
        frames_are(longer, frames.push(frame)),
        frames.len() <= u32::MAX,
        lacks(frame, "events"@) || member_is(frame, "events"@, JsonV::Array(Seq::empty())),
    ensures
        parsed_timeline(t, map) is Ok,
        parsed_timeline(longer, map) is Ok,
        ({
            let a = parsed_timeline(t, map)->Ok_0;
            let b = parsed_timeline(longer, map)->Ok_0;
            &&& a.len() == 4 && b.len() == 4
            &&& a[0].len() == frames.len() && b[0].len() == frames.len() + 1
            &&& b[0].drop_last() == a[0]
            &&& b[0].last().row == seq![frames.len() as u32]
            &&& b[0].last() == frame_of(frame, frames.len() as int, map)
            &&& b[1] == a[1]
            &&& b[2] == a[2]
            &&& b[3] == a[3]
        }),
{
    lemma_frames(t, frames, map);
    lemma_frames(longer, frames.push(frame), map);
    let n = frames.len() as int;
    assert(frames.push(frame).take(n) =~= frames.take(n));
    lemma_prefix(frames.push(frame), frames, map, n);
    lemma_timeline_four(frames, map, n);
    law_members_are_found(frame, "events"@, JsonV::Array(Seq::empty()));
    let a = timeline_of(frames, map, n);
    let b = timeline_of(frames.push(frame), map, n + 1);
    assert(frames.push(frame)[n] == frame);
    assert(b[0].drop_last() =~= a[0]);
}

/// An event more at the end of the last frame is one step more, whatever came
/// before it.
pub proof fn law_events_are_taken_one_by_one(
    t: JsonV,
    longer: JsonV,
    frames: Seq<JsonV>,
    one: JsonV,
    other: JsonV,
    people: JsonV,
    events: Seq<JsonV>,
    e: JsonV,
    map: Seq<int>,
)
    requires
        frames_are(t, frames.push(one)),
        frames_are(longer, frames.push(other)),
        member_is(one, "participantFrames"@, people),
        member_is(other, "participantFrames"@, people),
        member_is(one, "events"@, JsonV::Array(events)),
        member_is(other, "events"@, JsonV::Array(events.push(e))),
    ensures
        parsed_timeline(t, map) is Ok,
        parsed_timeline(longer, map) == Ok::<Seq<Seq<FlatV>>, ParseError>(
            with_event(parsed_timeline(t, map)->Ok_0, e, map),
        ),
{
    let n = frames.len() as int;
    lemma_frames(t, frames.push(one), map);
    lemma_frames(longer, frames.push(other), map);
    assert(frames.push(one).take(n) =~= frames.push(other).take(n));
    lemma_prefix(frames.push(one), frames.push(other), map, n);
    assert(frames.push(one)[n] == one && frames.push(other)[n] == other);
    law_members_are_found(one, "participantFrames"@, people);
    law_members_are_found(other, "participantFrames"@, people);
    law_arrays_are_read(one, "events"@, events);
    law_arrays_are_read(other, "events"@, events.push(e));
    let prev = timeline_of(frames.push(one), map, n);
    let grown = prev.update(0, prev[0].push(frame_of(one, n, map)));
    let k = events.len() as int;
    assert(events.push(e).take(k) =~= events.take(k));
    lemma_events_prefix(grown, events.push(e), events, map, k);
    assert(events.push(e)[k] == e);
}

/// One list of a timeline has one entry more, and the others are as before.
pub open spec fn gains(
    before: Seq<Seq<FlatV>>,
    after: Seq<Seq<FlatV>>,
    list: int,
    row: Seq<u32>,
) -> bool {
    &&& after.len() == before.len()
    &&& forall|k: int|
        0 <= k < before.len() && k != list ==> #[trigger] after[k] == before[k]
    &&& after[list].len() == before[list].len() + 1
    &&& after[list].drop_last() == before[list]
    &&& after[list].last().row == row
    &&& after[list].last().lists == Seq::<Seq<int>>::empty()
}

/// Who a timeline's number stands for: one to ten are the players, all else is
/// nobody, which is written as 255.
pub proof fn law_nobody_is_255(map: Seq<int>, pid: int)
    requires
        map_ok(map),
    ensures
        1 <= pid <= 10 ==> mapped(map, pid) == map[pid - 1],
        pid < 1 || 10 < pid ==> mapped(map, pid) == 255,
{
    if 1 <= pid <= 10 {
        assert(0 <= map[pid - 1] < 10);
    }
}

/// A kill names its time in seconds, the killer, the victim, who helped and
/// where it was.
pub proof fn law_kills_are_filed(
    tl: Seq<Seq<FlatV>>,
    e: JsonV,
    map: Seq<int>,
    ms: u32,
    killer: i64,
    victim: i64,
    helpers: Seq<JsonV>,
    position: JsonV,
    x: u32,
    y: u32,
)
    requires
        tl.len() == 4,
        member_is(e, "type"@, JsonV::Str("CHAMPION_KILL"@)),
        member_is(e, "timestamp"@, JsonV::Int(ms as i64)),
        member_is(e, "killerId"@, JsonV::Int(killer)),
        member_is(e, "victimId"@, JsonV::Int(victim)),
        member_is(e, "assistingParticipantIds"@, JsonV::Array(helpers)),
        member_is(e, "position"@, position),
        member_is(position, "x"@, JsonV::Int(x as i64)),
        member_is(position, "y"@, JsonV::Int(y as i64)),
    ensures
        gains(
            tl,
            with_event(tl, e, map),
            1,
            seq![
                ms / 1000,
                mapped(map, killer as int),
                mapped(map, victim as int),
                assists(helpers, map, helpers.len() as int),
                x,
                y,
            ],
        ),
{
    law_texts_are_read(e, "type"@, "CHAMPION_KILL"@);
    law_numbers_are_read(e, "timestamp"@, ms as i64, true);
    law_numbers_are_read(e, "killerId"@, killer, true);
    law_numbers_are_read(e, "victimId"@, victim, true);
    law_arrays_are_read(e, "assistingParticipantIds"@, helpers);
    law_members_are_found(e, "position"@, position);
    law_numbers_are_read(position, "x"@, x as i64, true);
    law_numbers_are_read(position, "y"@, y as i64, true);
    let after = with_event(tl, e, map);
    assert(after[1].drop_last() =~= tl[1]);
    assert(after[1].last().row =~= seq![
        ms / 1000,
        mapped(map, killer as int),
        mapped(map, victim as int),
        assists(helpers, map, helpers.len() as int),
        x,
        y,
    ]);
}

/// The helpers of a kill are bits: the bit of a player is set exactly if the
/// list names the player.
pub proof fn law_helpers_are_bits(ids: Seq<JsonV>, map: Seq<int>, n: int, k: u32)
    requires
        map_ok(map),
        0 <= n <= ids.len(),
        k < 10,
    ensures
        (assists(ids, map, n) & (1u32 << k) != 0) <==> exists|i: int|
            0 <= i < n && names(#[trigger] ids[i], map, k),
    decreases n,
{
    let bit = 1u32 << k;
    if n == 0 {
        assert(0u32 & bit == 0) by (bit_vector);
    } else {
        law_helpers_are_bits(ids, map, n - 1, k);
        let prev = assists(ids, map, n - 1);
        let pid = match ids[n - 1] {
            JsonV::Int(i) => i as int,
            _ => 0,
        };
        law_nobody_is_255(map, pid);
        let idx = mapped(map, pid);
        if idx < 10 {
            assert(((prev | (1u32 << idx)) & (1u32 << k) != 0) == (prev & (1u32 << k) != 0 || idx
                == k)) by (bit_vector)
                requires
                    idx < 10,
                    k < 10,
            ;
        }
        assert(names(ids[n - 1], map, k) == (idx == k));
        let now = assists(ids, map, n) & bit != 0;
        if now {
            if prev & bit != 0 {
                let i = choose|i: int| 0 <= i < n - 1 && names(#[trigger] ids[i], map, k);
                assert(0 <= i < n && names(ids[i], map, k));
            } else {
                assert(names(ids[n - 1], map, k));
            }
        }
    }
}

/// An entry of a list of players names one of the record.
pub open spec fn names(id: JsonV, map: Seq<int>, k: u32) -> bool {
    match id {
        JsonV::Int(pid) => 1 <= pid <= 10 && map[pid - 1] == k,
        _ => false,
    }
}

/// What a monster is filed as: a dragon, a herald, a baron, a horde, an elder
/// dragon, Atakhan, or another.
pub open spec fn monster_code(kind: Seq<char>, elder: bool, code: u32) -> bool {
    ||| kind == "DRAGON"@ && !elder && code == 1
    ||| kind == "RIFTHERALD"@ && code == 2
    ||| kind == "BARON_NASHOR"@ && code == 3
    ||| kind == "HORDE"@ && code == 4
    ||| kind == "DRAGON"@ && elder && code == 5
    ||| kind == "ATAKHAN"@ && code == 6
    ||| code == 20 && kind != "DRAGON"@ && kind != "RIFTHERALD"@ && kind != "BARON_NASHOR"@ && kind
        != "HORDE"@ && kind != "ATAKHAN"@
}

/// What a building is filed as: a tower, an inhibitor, or another.
pub open spec fn building_code(kind: Seq<char>, code: u32) -> bool {
    ||| kind == "TOWER_BUILDING"@ && code == 7
    ||| kind == "INHIBITOR_BUILDING"@ && code == 8
    ||| code == 21 && kind != "TOWER_BUILDING"@ && kind != "INHIBITOR_BUILDING"@
}

/// The number of a lane; no lane is zero.
pub open spec fn lane_code(lane: Seq<char>, code: u32) -> bool {
    ||| lane == "TOP_LANE"@ && code == 1
    ||| lane == "MID_LANE"@ && code == 2
    ||| lane == "BOT_LANE"@ && code == 3
    ||| code == 0 && lane != "TOP_LANE"@ && lane != "MID_LANE"@ && lane != "BOT_LANE"@
}

proof fn lemma_names_differ()
    ensures
        "DRAGON"@ != "RIFTHERALD"@,
        "DRAGON"@ != "BARON_NASHOR"@,
        "DRAGON"@ != "HORDE"@,
        "DRAGON"@ != "ATAKHAN"@,
        "RIFTHERALD"@ != "BARON_NASHOR"@,
        "RIFTHERALD"@ != "HORDE"@,
        "RIFTHERALD"@ != "ATAKHAN"@,
        "BARON_NASHOR"@ != "HORDE"@,
        "BARON_NASHOR"@ != "ATAKHAN"@,
        "HORDE"@ != "ATAKHAN"@,
        "TOWER_BUILDING"@ != "INHIBITOR_BUILDING"@,
        "TOP_LANE"@ != "MID_LANE"@,
        "TOP_LANE"@ != "BOT_LANE"@,
        "MID_LANE"@ != "BOT_LANE"@,
        "CHAMPION_KILL"@ != "ELITE_MONSTER_KILL"@,
        "CHAMPION_KILL"@ != "BUILDING_KILL"@,
        "CHAMPION_KILL"@ != "TURRET_PLATE_DESTROYED"@,
        "CHAMPION_KILL"@ != "WARD_PLACED"@,
        "CHAMPION_KILL"@ != "WARD_KILL"@,
        "ELITE_MONSTER_KILL"@ != "BUILDING_KILL"@,
        "ELITE_MONSTER_KILL"@ != "TURRET_PLATE_DESTROYED"@,
        "ELITE_MONSTER_KILL"@ != "WARD_PLACED"@,
        "ELITE_MONSTER_KILL"@ != "WARD_KILL"@,
        "BUILDING_KILL"@ != "TURRET_PLATE_DESTROYED"@,
        "BUILDING_KILL"@ != "WARD_PLACED"@,
        "BUILDING_KILL"@ != "WARD_KILL"@,
        "TURRET_PLATE_DESTROYED"@ != "WARD_PLACED"@,
        "TURRET_PLATE_DESTROYED"@ != "WARD_KILL"@,
        "WARD_PLACED"@ != "WARD_KILL"@,
{
    reveal_strlit("DRAGON");
    reveal_strlit("RIFTHERALD");
    reveal_strlit("BARON_NASHOR");
    reveal_strlit("HORDE");
    reveal_strlit("ATAKHAN");
    reveal_strlit("TOWER_BUILDING");
    reveal_strlit("INHIBITOR_BUILDING");
    reveal_strlit("TOP_LANE");
    reveal_strlit("MID_LANE");
    reveal_strlit("BOT_LANE");
    reveal_strlit("CHAMPION_KILL");
    reveal_strlit("ELITE_MONSTER_KILL");
    reveal_strlit("BUILDING_KILL");
    reveal_strlit("TURRET_PLATE_DESTROYED");
    reveal_strlit("WARD_PLACED");
    reveal_strlit("WARD_KILL");
    assert("TOP_LANE"@[0] != "MID_LANE"@[0] && "TOP_LANE"@[0] != "BOT_LANE"@[0]
        && "MID_LANE"@[0] != "BOT_LANE"@[0]);
    assert("CHAMPION_KILL"@[0] != "BUILDING_KILL"@[0]);
    assert("TOWER_BUILDING"@.len() == 14 && "INHIBITOR_BUILDING"@.len() == 18);
    assert("ELITE_MONSTER_KILL"@.len() == 18 && "TURRET_PLATE_DESTROYED"@.len() == 22);
    assert("WARD_PLACED"@.len() == 11 && "WARD_KILL"@.len() == 9);
    assert("DRAGON"@.len() != "RIFTHERALD"@.len());
    assert("BARON_NASHOR"@.len() == 12 && "HORDE"@.len() == 5 && "ATAKHAN"@.len() == 7);
}

/// A monster's death names its time, what it was and who killed it.
pub proof fn law_monsters_are_filed(
    tl: Seq<Seq<FlatV>>,
    e: JsonV,
    map: Seq<int>,
    ms: u32,
    killer: i64,
    kind: Seq<char>,
    elder: bool,
    code: u32,
)
    requires
        tl.len() == 4,
        member_is(e, "type"@, JsonV::Str("ELITE_MONSTER_KILL"@)),
        member_is(e, "timestamp"@, JsonV::Int(ms as i64)),
        member_is(e, "killerId"@, JsonV::Int(killer)),
        member_is(e, "monsterType"@, JsonV::Str(kind)),
        elder == member_is(e, "monsterSubType"@, JsonV::Str("ELDER_DRAGON"@)),
        monster_code(kind, elder, code),
    ensures
        gains(
            tl,
            with_event(tl, e, map),
            2,
            seq![ms / 1000, code, mapped(map, killer as int), 0, 0],
        ),
{
    lemma_names_differ();
    law_texts_are_read(e, "type"@, "ELITE_MONSTER_KILL"@);
    law_numbers_are_read(e, "timestamp"@, ms as i64, true);
    law_numbers_are_read(e, "killerId"@, killer, true);
    law_texts_are_read(e, "monsterType"@, kind);
    law_texts_are_read(e, "monsterSubType"@, "ELDER_DRAGON"@);
    reveal_strlit("ELDER_DRAGON");
    let after = with_event(tl, e, map);
    assert(after[2].drop_last() =~= tl[2]);
    assert(after[2].last().row =~= seq![ms / 1000, code, mapped(map, killer as int), 0, 0]);
}

/// A building's fall names its time, what it was, who took it, whose it was and
/// in which lane.
pub proof fn law_buildings_are_filed(
    tl: Seq<Seq<FlatV>>,
    e: JsonV,
    map: Seq<int>,
    ms: u32,
    killer: i64,
    kind: Seq<char>,
    code: u32,
    team: u32,
    lane: Seq<char>,
    lane_number: u32,
)
    requires
        tl.len() == 4,
        member_is(e, "type"@, JsonV::Str("BUILDING_KILL"@)),
        member_is(e, "timestamp"@, JsonV::Int(ms as i64)),
        member_is(e, "killerId"@, JsonV::Int(killer)),
        member_is(e, "buildingType"@, JsonV::Str(kind)),
        member_is(e, "teamId"@, JsonV::Int(team as i64)),
        member_is(e, "laneType"@, JsonV::Str(lane)),
        building_code(kind, code),
        lane_code(lane, lane_number),
    ensures
        gains(
            tl,
            with_event(tl, e, map),
            2,
            seq![ms / 1000, code, mapped(map, killer as int), team, lane_number],
        ),
{
    lemma_names_differ();
    law_texts_are_read(e, "type"@, "BUILDING_KILL"@);
    law_numbers_are_read(e, "timestamp"@, ms as i64, true);
    law_numbers_are_read(e, "killerId"@, killer, true);
    law_texts_are_read(e, "buildingType"@, kind);
    law_numbers_are_read(e, "teamId"@, team as i64, true);
    law_texts_are_read(e, "laneType"@, lane);
    let after = with_event(tl, e, map);
    assert(after[2].drop_last() =~= tl[2]);
    assert(after[2].last().row =~= seq![
        ms / 1000,
        code,
        mapped(map, killer as int),
        team,
        lane_number,
    ]);
}

/// A plate falls to nobody in particular.
pub proof fn law_plates_are_filed(
    tl: Seq<Seq<FlatV>>,
    e: JsonV,
    map: Seq<int>,
    ms: u32,
    team: u32,
    lane: Seq<char>,
    lane_number: u32,
)
    requires
        tl.len() == 4,
        member_is(e, "type"@, JsonV::Str("TURRET_PLATE_DESTROYED"@)),
        member_is(e, "timestamp"@, JsonV::Int(ms as i64)),
        member_is(e, "teamId"@, JsonV::Int(team as i64)),
        member_is(e, "laneType"@, JsonV::Str(lane)),
        lane_code(lane, lane_number),
    ensures
        gains(tl, with_event(tl, e, map), 2, seq![ms / 1000, 9, 255, team, lane_number]),
{
    lemma_names_differ();
    law_texts_are_read(e, "type"@, "TURRET_PLATE_DESTROYED"@);
    law_numbers_are_read(e, "timestamp"@, ms as i64, true);
    law_numbers_are_read(e, "teamId"@, team as i64, true);
    law_texts_are_read(e, "laneType"@, lane);
    let after = with_event(tl, e, map);
    assert(after[2].drop_last() =~= tl[2]);
    assert(after[2].last().row =~= seq![ms / 1000, 9, 255, team, lane_number]);
}

/// Wards are filed with who placed them, or who removed them.
pub proof fn law_wards_are_filed(
    tl: Seq<Seq<FlatV>>,
    e: JsonV,
    map: Seq<int>,
    ms: u32,
    who: i64,
)
    requires
        tl.len() == 4,
        member_is(e, "timestamp"@, JsonV::Int(ms as i64)),
    ensures
        member_is(e, "type"@, JsonV::Str("WARD_PLACED"@)) && member_is(
            e,
            "creatorId"@,
            JsonV::Int(who),
        ) ==> gains(tl, with_event(tl, e, map), 3, seq![ms / 1000, 1, mapped(map, who as int)]),
        member_is(e, "type"@, JsonV::Str("WARD_KILL"@)) && member_is(
            e,
            "killerId"@,
            JsonV::Int(who),
        ) ==> gains(tl, with_event(tl, e, map), 3, seq![ms / 1000, 2, mapped(map, who as int)]),
{
    lemma_names_differ();
    law_texts_are_read(e, "type"@, "WARD_PLACED"@);
    law_texts_are_read(e, "type"@, "WARD_KILL"@);
    law_numbers_are_read(e, "timestamp"@, ms as i64, true);
    law_numbers_are_read(e, "creatorId"@, who, true);
    law_numbers_are_read(e, "killerId"@, who, true);
    let after = with_event(tl, e, map);
    if member_is(e, "type"@, JsonV::Str("WARD_PLACED"@)) && member_is(
        e,
        "creatorId"@,
        JsonV::Int(who),
    ) {
        assert(after[3].drop_last() =~= tl[3]);
        assert(after[3].last().row =~= seq![ms / 1000, 1, mapped(map, who as int)]);
    }
    if member_is(e, "type"@, JsonV::Str("WARD_KILL"@)) && member_is(
        e,
        "killerId"@,
        JsonV::Int(who),
    ) {
        assert(after[3].drop_last() =~= tl[3]);
        assert(after[3].last().row =~= seq![ms / 1000, 2, mapped(map, who as int)]);
    }
}

/// Events of any other type leave a timeline as it is.
pub proof fn law_other_events_are_not_filed(
    tl: Seq<Seq<FlatV>>,
    e: JsonV,
    map: Seq<int>,
    kind: Seq<char>,
)
    requires
        member_is(e, "type"@, JsonV::Str(kind)),
        kind != "CHAMPION_KILL"@,
        kind != "ELITE_MONSTER_KILL"@,
        kind != "BUILDING_KILL"@,
        kind != "TURRET_PLATE_DESTROYED"@,
        kind != "WARD_PLACED"@,
        kind != "WARD_KILL"@,
    ensures
        with_event(tl, e, map) == tl,
{
    law_texts_are_read(e, "type"@, kind);
}

/// A player's numbers stand in a frame at the player's place: gold, experience,
/// creeps of lane and jungle together, and damage to champions. Who has no
/// entry has nothing.
pub proof fn law_frames_hold_everybody(
    frame: JsonV,
    people: Seq<(Seq<char>, JsonV)>,
    minute: int,
    map: Seq<int>,
    i: int,
    pid: int,
    gold: u32,
    xp: u32,
    lane: u32,
    jungle: u32,
    damage: u32,
    stats: JsonV,
)
    requires
        map_ok(map),
        map.no_duplicates(),
        member_is(frame, "participantFrames"@, JsonV::Object(people)),
        0 <= i < people.len(),
        1 <= pid <= 10,
        people[i].0 == decimal(pid),
        forall|j: int| i < j < people.len() ==> frame_key(#[trigger] people[j].0) != pid,
        member_is(people[i].1, "totalGold"@, JsonV::Int(gold as i64)),
        member_is(people[i].1, "xp"@, JsonV::Int(xp as i64)),
        member_is(people[i].1, "minionsKilled"@, JsonV::Int(lane as i64)),
        member_is(people[i].1, "jungleMinionsKilled"@, JsonV::Int(jungle as i64)),
        lane + jungle <= u32::MAX,
        member_is(people[i].1, "damageStats"@, stats),
        member_is(stats, "totalDamageDoneToChampions"@, JsonV::Int(damage as i64)),
    ensures
        ({
            let f = frame_of(frame, minute, map);
            let k = map[pid - 1];
            &&& f.lists.len() == 4
            &&& f.lists[0][k] == gold
            &&& f.lists[1][k] == xp
            &&& f.lists[2][k] == lane + jungle
            &&& f.lists[3][k] == damage
        }),
{
    law_members_are_found(frame, "participantFrames"@, JsonV::Object(people));
    let p = people[i].1;
    law_numbers_are_read(p, "totalGold"@, gold as i64, true);
    law_numbers_are_read(p, "xp"@, xp as i64, true);
    law_numbers_are_read(p, "minionsKilled"@, lane as i64, true);
    law_numbers_are_read(p, "jungleMinionsKilled"@, jungle as i64, true);
    law_members_are_found(p, "damageStats"@, stats);
    law_numbers_are_read(stats, "totalDamageDoneToChampions"@, damage as i64, true);
    law_decimal_roundtrip(pid);
    lemma_decimal_digits(pid);
    let d = decimal(pid);
    assert(d[0] != '-' && d[0] != '+');
    assert(parsed_i64(d) == Some(pid));
    lemma_series(people, map, i, pid, people.len() as int);
}

proof fn lemma_series(
    people: Seq<(Seq<char>, JsonV)>,
    map: Seq<int>,
    i: int,
    pid: int,
    n: int,
)
    requires
        map_ok(map),
        map.no_duplicates(),
        0 <= i < n <= people.len(),
        1 <= pid <= 10,
        frame_key(people[i].0) == pid,
        forall|j: int| i < j < people.len() ==> frame_key(#[trigger] people[j].0) != pid,
    ensures
        frame_series(people, map, n).len() == 4,
        forall|s: int|
            0 <= s < 4 ==> (#[trigger] frame_series(people, map, n)[s]).len() == 10
                && frame_series(people, map, n)[s][map[pid - 1]] == frame_values(people[i].1)[s],
    decreases n,
{
    lemma_series_len(people, map, n - 1);
    assert(0 <= map[pid - 1] < 10);
    let key = frame_key(people[n - 1].0);
    if n - 1 > i {
        lemma_series(people, map, i, pid, n - 1);
        if 1 <= key <= 10 {
            assert(0 <= map[key - 1] < 10);
            assert(map[key - 1] != map[pid - 1]);
        }
    }
    let prev = frame_series(people, map, n - 1);
    let now = frame_series(people, map, n);
    assert forall|s: int| 0 <= s < 4 implies (#[trigger] now[s]).len() == 10
        && now[s][map[pid - 1]] == frame_values(people[i].1)[s] by {
        assert(prev[s].len() == 10);
        if n - 1 > i {
            assert(prev[s][map[pid - 1]] == frame_values(people[i].1)[s]);
        }
    }
}

proof fn lemma_series_len(people: Seq<(Seq<char>, JsonV)>, map: Seq<int>, n: int)
    requires
        map_ok(map),
    ensures
        frame_series(people, map, n).len() == 4,
        forall|s: int| 0 <= s < 4 ==> (#[trigger] frame_series(people, map, n)[s]).len() == 10,
    decreases n,
{
    if n > 0 {
        lemma_series_len(people, map, n - 1);
        let prev = frame_series(people, map, n - 1);
        assert(prev[0].len() == 10 && prev[1].len() == 10 && prev[2].len() == 10 && prev[3].len()
            == 10);
        let key = frame_key(people[n - 1].0);
        if 1 <= key <= 10 {
            assert(0 <= map[key - 1] < 10);
        }
    }
}

} // verus!
