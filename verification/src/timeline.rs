//! Turning a timeline document into per-minute frames and events.

use crate::json::{
    array_member, get, get_array, get_number, get_text, json_views, member, number, text_member,
    Json, JsonV,
};
use crate::parse::{
    clamp, clamped, ParseError, ATAKHAN, BARON, DRAGON, ELDER_DRAGON, HORDE, INHIBITOR, LANE_BOT,
    LANE_MID, LANE_NONE, LANE_TOP, NO_PARTICIPANT, OTHER_BUILDING, OTHER_MONSTER, PLATE,
    RIFT_HERALD, TOWER, WARD_KILLED, WARD_PLACED,
};
use crate::record::{
    empty_timeline, views, FlatV, KillEvent, MinuteFrame, ObjectiveEvent, TimelineLite, WardEvent,
};
use crate::text::{chars_of, parse_i64, parsed_i64, same_text};
use crate::wire::ints;
use vstd::prelude::*;

verus! {

/// The record's index of a participant that a timeline numbers from 1 in the
/// document's order, or 255.
pub open spec fn mapped(map: Seq<int>, pid: int) -> u32 {
    if 1 <= pid <= 10 {
        map[pid - 1] as u32
    } else {
        NO_PARTICIPANT
    }
}

pub open spec fn indices(map: Seq<usize>) -> Seq<int> {
    map.map_values(|v: usize| v as int)
}

/// What a participant map must be: ten record indices.
pub open spec fn map_ok(map: Seq<int>) -> bool {
    map.len() == 10 && forall|i: int| 0 <= i < 10 ==> 0 <= #[trigger] map[i] < 10
}

fn map_pid(map: &Vec<usize>, pid: i64) -> (res: u32)
    requires
        map_ok(indices(map@)),
    ensures
        res == mapped(indices(map@), pid as int),
        res < 10 || res == NO_PARTICIPANT,
{
    if 1 <= pid && pid <= 10 {
        assert(indices(map@)[pid - 1] < 10);
        assert(map@.len() == 10);
        assert(indices(map@)[pid - 1] == map@[pid - 1]);
        map[(pid - 1) as usize] as u32
    } else {
        NO_PARTICIPANT
    }
}

/// Two 64-bit numbers added, with wrap-around.
pub open spec fn wrapping_sum(a: int, b: int) -> int {
    if a + b > i64::MAX {
        a + b - 0x1_0000_0000_0000_0000
    } else if a + b < i64::MIN {
        a + b + 0x1_0000_0000_0000_0000
    } else {
        a + b
    }
}

fn wrapping_add(a: i64, b: i64) -> (res: i64)
    ensures
        res as int == wrapping_sum(a as int, b as int),
{
    let sum: i128 = a as i128 + b as i128;
    if sum > i64::MAX as i128 {
        (sum - 0x1_0000_0000_0000_0000) as i64
    } else if sum < i64::MIN as i128 {
        (sum + 0x1_0000_0000_0000_0000) as i64
    } else {
        sum as i64
    }
}

/// A participant's numbers in a frame: gold, experience, creeps and damage.
pub open spec fn frame_values(pf: JsonV) -> Seq<u32> {
    seq![
        clamped(number(pf, "totalGold"@)),
        clamped(number(pf, "xp"@)),
        clamped(
            wrapping_sum(number(pf, "minionsKilled"@), number(pf, "jungleMinionsKilled"@)),
        ),
        clamped(
            match member(pf, "damageStats"@) {
                Some(d) => number(d, "totalDamageDoneToChampions"@),
                None => 0,
            },
        ),
    ]
}

/// The number that a participant frame is filed under, or 0.
pub open spec fn frame_key(key: Seq<char>) -> int {
    match parsed_i64(key) {
        Some(v) => v,
        None => 0,
    }
}

pub open spec fn ten_zeros() -> Seq<u32> {
    Seq::new(10, |i: int| 0u32)
}

/// The four series of a frame after its first `n` members.
pub open spec fn frame_series(
    members: Seq<(Seq<char>, JsonV)>,
    map: Seq<int>,
    n: int,
) -> Seq<Seq<u32>>
    decreases n,
{
    if n <= 0 {
        seq![ten_zeros(), ten_zeros(), ten_zeros(), ten_zeros()]
    } else {
        let prev = frame_series(members, map, n - 1);
        let idx = mapped(map, frame_key(members[n - 1].0));
        let v = frame_values(members[n - 1].1);
        if idx == NO_PARTICIPANT {
            prev
        } else {
            seq![
                prev[0].update(idx as int, v[0]),
                prev[1].update(idx as int, v[1]),
                prev[2].update(idx as int, v[2]),
                prev[3].update(idx as int, v[3]),
            ]
        }
    }
}

/// The members of the object that a frame keeps its participants in.
pub open spec fn frame_members(frame: JsonV) -> Seq<(Seq<char>, JsonV)> {
    match member(frame, "participantFrames"@) {
        Some(JsonV::Object(members)) => members,
        _ => Seq::empty(),
    }
}

/// A frame of the record.
pub open spec fn frame_of(frame: JsonV, minute: int, map: Seq<int>) -> FlatV {
    let members = frame_members(frame);
    let series = frame_series(members, map, members.len() as int);
    FlatV {
        row: seq![minute as u32],
        lists: seq![ints(series[0]), ints(series[1]), ints(series[2]), ints(series[3])],
    }
}

/// An event's time in seconds.
pub open spec fn event_time(e: JsonV) -> u32 {
    let ts = number(e, "timestamp"@);
    clamped(
        if ts <= 0 {
            0
        } else {
            ts / 1000
        },
    )
}

/// The bits of the first `n` assisting participants.
pub open spec fn assists(ids: Seq<JsonV>, map: Seq<int>, n: int) -> u32
    decreases n,
{
    if n <= 0 {
        0
    } else {
        let prev = assists(ids, map, n - 1);
        let idx = mapped(
            map,
            match ids[n - 1] {
                JsonV::Int(i) => i as int,
                _ => 0,
            },
        );
        if idx < 10 {
            prev | (1u32 << idx)
        } else {
            prev
        }
    }
}

pub open spec fn coordinate(e: JsonV, axis: Seq<char>) -> u32 {
    clamped(
        match member(e, "position"@) {
            Some(p) => number(p, axis),
            None => 0,
        },
    )
}

pub open spec fn kill_of(e: JsonV, map: Seq<int>) -> FlatV {
    let mask = match array_member(e, "assistingParticipantIds"@) {
        Some(ids) => assists(ids, map, ids.len() as int),
        None => 0,
    };
    FlatV {
        row: seq![
            event_time(e),
            mapped(map, number(e, "killerId"@)),
            mapped(map, number(e, "victimId"@)),
            mask,
            coordinate(e, "x"@),
            coordinate(e, "y"@),
        ],
        lists: Seq::empty(),
    }
}

pub open spec fn monster_kind(e: JsonV) -> u32 {
    let kind = text_member(e, "monsterType"@);
    if kind == "DRAGON"@ {
        if text_member(e, "monsterSubType"@) == "ELDER_DRAGON"@ {
            ELDER_DRAGON
        } else {
            DRAGON
        }
    } else if kind == "RIFTHERALD"@ {
        RIFT_HERALD
    } else if kind == "BARON_NASHOR"@ {
        BARON
    } else if kind == "HORDE"@ {
        HORDE
    } else if kind == "ATAKHAN"@ {
        ATAKHAN
    } else {
        OTHER_MONSTER
    }
}

pub open spec fn building_kind(e: JsonV) -> u32 {
    let kind = text_member(e, "buildingType"@);
    if kind == "TOWER_BUILDING"@ {
        TOWER
    } else if kind == "INHIBITOR_BUILDING"@ {
        INHIBITOR
    } else {
        OTHER_BUILDING
    }
}

pub open spec fn lane_of(name: Seq<char>) -> u32 {
    if name == "TOP_LANE"@ {
        LANE_TOP
    } else if name == "MID_LANE"@ {
        LANE_MID
    } else if name == "BOT_LANE"@ {
        LANE_BOT
    } else {
        LANE_NONE
    }
}

pub open spec fn objective(t: u32, kind: u32, killer: u32, team: u32, lane: u32) -> FlatV {
    FlatV { row: seq![t, kind, killer, team, lane], lists: Seq::empty() }
}

pub open spec fn ward(t: u32, kind: u32, participant: u32) -> FlatV {
    FlatV { row: seq![t, kind, participant], lists: Seq::empty() }
}

/// A timeline with one more entry in list `k`.
pub open spec fn with_entry(tl: Seq<Seq<FlatV>>, k: int, v: FlatV) -> Seq<Seq<FlatV>> {
    tl.update(k, tl[k].push(v))
}

/// A timeline after one more event. Events of other types leave it as it is.
pub open spec fn with_event(tl: Seq<Seq<FlatV>>, e: JsonV, map: Seq<int>) -> Seq<Seq<FlatV>> {
    let t = event_time(e);
    let kind = text_member(e, "type"@);
    let team = clamped(number(e, "teamId"@));
    let lane = lane_of(text_member(e, "laneType"@));
    let killer = mapped(map, number(e, "killerId"@));
    if kind == "CHAMPION_KILL"@ {
        with_entry(tl, 1, kill_of(e, map))
    } else if kind == "ELITE_MONSTER_KILL"@ {
        with_entry(tl, 2, objective(t, monster_kind(e), killer, 0, LANE_NONE))
    } else if kind == "BUILDING_KILL"@ {
        with_entry(tl, 2, objective(t, building_kind(e), killer, team, lane))
    } else if kind == "TURRET_PLATE_DESTROYED"@ {
        with_entry(tl, 2, objective(t, PLATE, NO_PARTICIPANT, team, lane))
    } else if kind == "WARD_PLACED"@ {
        with_entry(tl, 3, ward(t, WARD_PLACED, mapped(map, number(e, "creatorId"@))))
    } else if kind == "WARD_KILL"@ {
        with_entry(tl, 3, ward(t, WARD_KILLED, killer))
    } else {
        tl
    }
}

pub open spec fn with_events(
    tl: Seq<Seq<FlatV>>,
    events: Seq<JsonV>,
    map: Seq<int>,
    n: int,
) -> Seq<Seq<FlatV>>
    decreases n,
{
    if n <= 0 {
        tl
    } else {
        with_event(with_events(tl, events, map, n - 1), events[n - 1], map)
    }
}

/// The timeline of the first `n` frames.
pub open spec fn timeline_of(frames: Seq<JsonV>, map: Seq<int>, n: int) -> Seq<Seq<FlatV>>
    decreases n,
{
    if n <= 0 {
        empty_timeline()
    } else {
        let prev = timeline_of(frames, map, n - 1);
        let frame = frames[n - 1];
        let grown = with_entry(prev, 0, frame_of(frame, n - 1, map));
        match array_member(frame, "events"@) {
            Some(events) => with_events(grown, events, map, events.len() as int),
            None => grown,
        }
    }
}

/// The frames of a timeline document.
pub open spec fn frames_of(t: JsonV) -> Option<Seq<JsonV>> {
    match member(t, "info"@) {
        Some(info) => array_member(info, "frames"@),
        None => None,
    }
}

pub open spec fn parsed_timeline(t: JsonV, map: Seq<int>) -> Result<Seq<Seq<FlatV>>, ParseError> {
    match frames_of(t) {
        Some(frames) => Ok(timeline_of(frames, map, frames.len() as int)),
        None => Err(ParseError::NoTimelineFrames),
    }
}

fn zeros() -> (res: Vec<u32>)
    ensures
        res@ == ten_zeros(),
{
    let res: Vec<u32> = vec![0, 0, 0, 0, 0, 0, 0, 0, 0, 0];
    assert(res@ =~= ten_zeros());
    res
}

fn build_frame(frame: &Json, minute: usize, map: &Vec<usize>) -> (res: MinuteFrame)
    requires
        map_ok(indices(map@)),
    ensures
        res@ == frame_of(frame@, minute as int, indices(map@)),
{
    let ghost m = indices(map@);
    let ghost members = frame_members(frame@);
    let mut gold = zeros();
    let mut xp = zeros();
    let mut cs = zeros();
    let mut dmg = zeros();
    match get(frame, "participantFrames") {
        Some(pframes) => match pframes {
            Json::Object(entries) => {
                let mut i: usize = 0;
                assert(members.len() == entries@.len());
                while i < entries.len()
                    invariant
                        i <= entries@.len(),
                        map_ok(m),
                        m == indices(map@),
                        members.len() == entries@.len(),
                        forall|j: int|
                            0 <= j < entries@.len() ==> #[trigger] members[j] == (
                                entries@[j].0@,
                                entries@[j].1@,
                            ),
                        gold@.len() == 10,
                        xp@.len() == 10,
                        cs@.len() == 10,
                        dmg@.len() == 10,
                        frame_series(members, m, i as int) == seq![gold@, xp@, cs@, dmg@],
                    decreases entries@.len() - i,
                {
                    let (key, pf) = &entries[i];
                    assert(members[i as int] == (key@, pf@));
                    let orig: i64 = match parse_i64(&chars_of(key.as_str())) {
                        Some(v) => v,
                        None => 0,
                    };
                    let idx: u32 = map_pid(map, orig);
                    if idx != NO_PARTICIPANT {
                        let at: usize = idx as usize;
                        gold.set(at, clamp(get_number(pf, "totalGold")));
                        xp.set(at, clamp(get_number(pf, "xp")));
                        let lane: i64 = get_number(pf, "minionsKilled");
                        let jungle: i64 = get_number(pf, "jungleMinionsKilled");
                        cs.set(at, clamp(wrapping_add(lane, jungle)));
                        let damage: i64 = match get(pf, "damageStats") {
                            Some(d) => get_number(d, "totalDamageDoneToChampions"),
                            None => 0,
                        };
                        dmg.set(at, clamp(damage));
                    }
                    assert(frame_series(members, m, i + 1) =~= seq![gold@, xp@, cs@, dmg@]);
                    i = i + 1;
                }
            },
            _ => {},
        },
        None => {},
    }
    let f = MinuteFrame {
        minute: #[verifier::truncate] (minute as u32),
        total_gold: gold,
        xp,
        cs,
        dmg_to_champs: dmg,
    };
    assert(f@ =~= frame_of(frame@, minute as int, m));
    f
}

fn event_seconds(e: &Json) -> (res: u32)
    ensures
        res == event_time(e@),
{
    let ts: i64 = get_number(e, "timestamp");
    if ts <= 0 {
        0
    } else {
        clamp(ts / 1000)
    }
}

fn assist_mask(ids: &Vec<Json>, map: &Vec<usize>) -> (res: u32)
    requires
        map_ok(indices(map@)),
    ensures
        res == assists(json_views(ids@), indices(map@), ids@.len() as int),
{
    let ghost all = json_views(ids@);
    let ghost m = indices(map@);
    let mut mask: u32 = 0;
    let mut i: usize = 0;
    while i < ids.len()
        invariant
            i <= ids@.len(),
            all == json_views(ids@),
            m == indices(map@),
            map_ok(m),
            mask == assists(all, m, i as int),
        decreases ids@.len() - i,
    {
        assert(all[i as int] == ids@[i as int]@);
        let pid: i64 = match &ids[i] {
            Json::Int(v) => *v,
            _ => 0,
        };
        let idx: u32 = map_pid(map, pid);
        if idx < 10 {
            mask = mask | (1u32 << idx);
        }
        i = i + 1;
    }
    mask
}

fn read_coordinate(e: &Json, axis: &str) -> (res: u32)
    ensures
        res == coordinate(e@, axis@),
{
    match get(e, "position") {
        Some(p) => clamp(get_number(p, axis)),
        None => 0,
    }
}

fn build_kill(e: &Json, map: &Vec<usize>) -> (res: KillEvent)
    requires
        map_ok(indices(map@)),
    ensures
        res@ == kill_of(e@, indices(map@)),
{
    let mask: u32 = match get_array(e, "assistingParticipantIds") {
        Some(ids) => assist_mask(ids, map),
        None => 0,
    };
    KillEvent {
        t_s: event_seconds(e),
        killer: map_pid(map, get_number(e, "killerId")),
        victim: map_pid(map, get_number(e, "victimId")),
        assist_mask: mask,
        x: read_coordinate(e, "x"),
        y: read_coordinate(e, "y"),
    }
}

fn read_monster_kind(e: &Json) -> (res: u32)
    ensures
        res == monster_kind(e@),
{
    let kind = get_text(e, "monsterType");
    if same_text(kind, "DRAGON") {
        if same_text(get_text(e, "monsterSubType"), "ELDER_DRAGON") {
            ELDER_DRAGON
        } else {
            DRAGON
        }
    } else if same_text(kind, "RIFTHERALD") {
        RIFT_HERALD
    } else if same_text(kind, "BARON_NASHOR") {
        BARON
    } else if same_text(kind, "HORDE") {
        HORDE
    } else if same_text(kind, "ATAKHAN") {
        ATAKHAN
    } else {
        OTHER_MONSTER
    }
}

fn read_building_kind(e: &Json) -> (res: u32)
    ensures
        res == building_kind(e@),
{
    let kind = get_text(e, "buildingType");
    if same_text(kind, "TOWER_BUILDING") {
        TOWER
    } else if same_text(kind, "INHIBITOR_BUILDING") {
        INHIBITOR
    } else {
        OTHER_BUILDING
    }
}

fn parse_lane(name: &str) -> (res: u32)
    ensures
        res == lane_of(name@),
{
    if same_text(name, "TOP_LANE") {
        LANE_TOP
    } else if same_text(name, "MID_LANE") {
        LANE_MID
    } else if same_text(name, "BOT_LANE") {
        LANE_BOT
    } else {
        LANE_NONE
    }
}

proof fn lemma_pushed<M: View>(items: Seq<M>, item: M)
    ensures
        views(items.push(item)) == views(items).push(item@),
{
    assert(views(items.push(item)) =~= views(items).push(item@));
}

fn push_objective(tl: &mut TimelineLite, item: ObjectiveEvent)
    ensures
        final(tl)@ == with_entry(old(tl)@, 2, item@),
{
    proof {
        lemma_pushed(tl.objectives@, item);
    }
    tl.objectives.push(item);
    assert(tl@ =~= with_entry(old(tl)@, 2, item@));
}

fn push_ward(tl: &mut TimelineLite, item: WardEvent)
    ensures
        final(tl)@ == with_entry(old(tl)@, 3, item@),
{
    proof {
        lemma_pushed(tl.wards@, item);
    }
    tl.wards.push(item);
    assert(tl@ =~= with_entry(old(tl)@, 3, item@));
}

fn add_event(tl: &mut TimelineLite, e: &Json, map: &Vec<usize>)
    requires
        map_ok(indices(map@)),
    ensures
        final(tl)@ == with_event(old(tl)@, e@, indices(map@)),
{
    let t_s: u32 = event_seconds(e);
    let kind = get_text(e, "type");
    if same_text(kind, "CHAMPION_KILL") {
        let item = build_kill(e, map);
        proof {
            lemma_pushed(tl.kills@, item);
        }
        tl.kills.push(item);
        assert(tl@ =~= with_entry(old(tl)@, 1, item@));
    } else if same_text(kind, "ELITE_MONSTER_KILL") {
        push_objective(
            tl,
            ObjectiveEvent {
                t_s,
                kind: read_monster_kind(e),
                killer: map_pid(map, get_number(e, "killerId")),
                losing_team: 0,
                lane: LANE_NONE,
            },
        );
    } else if same_text(kind, "BUILDING_KILL") {
        push_objective(
            tl,
            ObjectiveEvent {
                t_s,
                kind: read_building_kind(e),
                killer: map_pid(map, get_number(e, "killerId")),
                losing_team: clamp(get_number(e, "teamId")),
                lane: parse_lane(get_text(e, "laneType")),
            },
        );
    } else if same_text(kind, "TURRET_PLATE_DESTROYED") {
        push_objective(
            tl,
            ObjectiveEvent {
                t_s,
                kind: PLATE,
                killer: NO_PARTICIPANT,
                losing_team: clamp(get_number(e, "teamId")),
                lane: parse_lane(get_text(e, "laneType")),
            },
        );
    } else if same_text(kind, "WARD_PLACED") {
        push_ward(
            tl,
            WardEvent {
                t_s,
                kind: WARD_PLACED,
                participant: map_pid(map, get_number(e, "creatorId")),
            },
        );
    } else if same_text(kind, "WARD_KILL") {
        push_ward(
            tl,
            WardEvent {
                t_s,
                kind: WARD_KILLED,
                participant: map_pid(map, get_number(e, "killerId")),
            },
        );
    }
}

fn add_events(tl: &mut TimelineLite, events: &Vec<Json>, map: &Vec<usize>)
    requires
        map_ok(indices(map@)),
    ensures
        final(tl)@ == with_events(
            old(tl)@,
            json_views(events@),
            indices(map@),
            events@.len() as int,
        ),
{
    let ghost all = json_views(events@);
    let mut i: usize = 0;
    while i < events.len()
        invariant
            i <= events@.len(),
            map_ok(indices(map@)),
            all == json_views(events@),
            tl@ == with_events(old(tl)@, all, indices(map@), i as int),
        decreases events@.len() - i,
    {
        assert(all[i as int] == events@[i as int]@);
        add_event(tl, &events[i], map);
        i = i + 1;
    }
}

/// Reads a timeline document. `map` gives, for each participant in the
/// document's order, its index in the record.
pub fn parse_timeline(t: &Json, map: &Vec<usize>) -> (res: Result<TimelineLite, ParseError>)
    requires
        map_ok(indices(map@)),
    ensures
        match parsed_timeline(t@, indices(map@)) {
            Ok(tl) => res is Ok && (res->Ok_0)@ == tl,
            Err(e) => res == Err::<TimelineLite, ParseError>(e),
        },
{
    let info = match get(t, "info") {
        Some(info) => info,
        None => {
            return Err(ParseError::NoTimelineFrames);
        },
    };
    let frames = match get_array(info, "frames") {
        Some(frames) => frames,
        None => {
            return Err(ParseError::NoTimelineFrames);
        },
    };
    let ghost all = json_views(frames@);
    let ghost m = indices(map@);
    let mut tl = TimelineLite::default();
    let mut i: usize = 0;
    while i < frames.len()
        invariant
            i <= frames@.len(),
            m == indices(map@),
            map_ok(m),
            all == json_views(frames@),
            tl@ == timeline_of(all, m, i as int),
        decreases frames@.len() - i,
    {
        assert(all[i as int] == frames@[i as int]@);
        let ghost before = tl@;
        let frame = build_frame(&frames[i], i, map);
        proof {
            lemma_pushed(tl.frames@, frame);
        }
        tl.frames.push(frame);
        assert(tl@ =~= with_entry(before, 0, frame@));
        match get_array(&frames[i], "events") {
            Some(events) => {
                add_events(&mut tl, events, map);
            },
            None => {},
        }
        i = i + 1;
    }
    Ok(tl)
}

} // verus!
