//! What a record says of a match, told from the documents alone.

use crate::json::{array_member, document, find_member, member, number, text_member, JsonV};
use crate::limit_laws::{lemma_decimal_digits, lemma_first_is, lemma_first_none};
use crate::parse::{
    bans_of, blue_wins, claim, claimant, clamped_numbers, grouped, law_seats_are_distinct,
    lemma_free_grows, lemma_seats, original_index, parsed_match, parsed_texts, participant_of,
    perks, sorted_map, split_id, team_members, unseated, version_part, MatchIdError, ParseError,
    ParsedV, TimelineInputV, STAT_FIELDS_V1,
};
use crate::record::FlatV;
use crate::text::{decimal, law_decimal_roundtrip};
use crate::timeline::{mapped, parsed_timeline};
use vstd::prelude::*;
use vstd::utf8::encode_utf8;

verus! {

/// An object has a member with a key, and the first with that key is this.
pub open spec fn member_is(v: JsonV, key: Seq<char>, x: JsonV) -> bool {
    match v {
        JsonV::Object(ms) => exists|i: int| #[trigger] member_at(ms, key, x, i),
        _ => false,
    }
}

pub open spec fn member_at(ms: Seq<(Seq<char>, JsonV)>, key: Seq<char>, x: JsonV, i: int) -> bool {
    0 <= i < ms.len() && ms[i].0 == key && ms[i].1 == x && forall|j: int|
        0 <= j < i ==> (#[trigger] ms[j]).0 != key
}

/// A value has no member with a key.
pub open spec fn lacks(v: JsonV, key: Seq<char>) -> bool {
    match v {
        JsonV::Object(ms) => forall|i: int| 0 <= i < ms.len() ==> (#[trigger] ms[i]).0 != key,
        _ => true,
    }
}

proof fn lemma_find(ms: Seq<(Seq<char>, JsonV)>, key: Seq<char>, x: JsonV, i: int, from: int)
    requires
        member_at(ms, key, x, i),
        0 <= from <= i,
    ensures
        find_member(ms, key, from) == Some(x),
    decreases i - from,
{
    if from < i {
        assert(ms[from].0 != key);
        lemma_find(ms, key, x, i, from + 1);
    }
}

proof fn lemma_find_none(ms: Seq<(Seq<char>, JsonV)>, key: Seq<char>, from: int)
    requires
        0 <= from,
        forall|i: int| 0 <= i < ms.len() ==> (#[trigger] ms[i]).0 != key,
    ensures
        find_member(ms, key, from) is None,
    decreases ms.len() - from,
{
    if from < ms.len() {
        assert(ms[from].0 != key);
        lemma_find_none(ms, key, from + 1);
    }
}

proof fn lemma_find_first(ms: Seq<(Seq<char>, JsonV)>, key: Seq<char>, from: int) -> (i: int)
    requires
        0 <= from,
        forall|j: int| 0 <= j < from && j < ms.len() ==> (#[trigger] ms[j]).0 != key,
    ensures
        match find_member(ms, key, from) {
            Some(x) => member_at(ms, key, x, i),
            None => forall|j: int| 0 <= j < ms.len() ==> (#[trigger] ms[j]).0 != key,
        },
    decreases ms.len() - from,
{
    if from >= ms.len() || ms[from].0 == key {
        from
    } else {
        lemma_find_first(ms, key, from + 1)
    }
}

/// Looking a member up finds the first one with its key, and none where there
/// is none.
pub proof fn law_members_are_found(v: JsonV, key: Seq<char>, x: JsonV)
    ensures
        member(v, key) == Some(x) <==> member_is(v, key, x),
        member(v, key) is None <==> lacks(v, key),
{
    match v {
        JsonV::Object(ms) => {
            let i = lemma_find_first(ms, key, 0);
            if member_is(v, key, x) {
                let j = choose|j: int| #[trigger] member_at(ms, key, x, j);
                lemma_find(ms, key, x, j, 0);
            }
            if lacks(v, key) {
                lemma_find_none(ms, key, 0);
            }
        },
        _ => {},
    }
}

/// The number of a member is the integer that it is; a boolean counts as one or
/// nothing, and all else as nothing.
pub proof fn law_numbers_are_read(v: JsonV, key: Seq<char>, n: i64, b: bool)
    ensures
        member_is(v, key, JsonV::Int(n)) ==> number(v, key) == n,
        member_is(v, key, JsonV::Bool(b)) ==> number(v, key) == (if b {
            1int
        } else {
            0int
        }),
        lacks(v, key) ==> number(v, key) == 0,
        n != 0 && n != 1 && number(v, key) == n ==> member_is(v, key, JsonV::Int(n)),
{
    law_members_are_found(v, key, JsonV::Int(n));
    law_members_are_found(v, key, JsonV::Bool(b));
}

/// The text of a member is the text that it is, and empty where it is none.
pub proof fn law_texts_are_read(v: JsonV, key: Seq<char>, t: Seq<char>)
    ensures
        member_is(v, key, JsonV::Str(t)) ==> text_member(v, key) == t,
        lacks(v, key) ==> text_member(v, key) == Seq::<char>::empty(),
        t.len() > 0 && text_member(v, key) == t ==> member_is(v, key, JsonV::Str(t)),
{
    law_members_are_found(v, key, JsonV::Str(t));
}

/// The elements of a member are those of the array that it is.
pub proof fn law_arrays_are_read(v: JsonV, key: Seq<char>, items: Seq<JsonV>)
    ensures
        array_member(v, key) == Some(items) <==> member_is(v, key, JsonV::Array(items)),
{
    law_members_are_found(v, key, JsonV::Array(items));
}

// ---- who won ----

/// The first team of a list that is blue.
pub open spec fn is_first_blue(teams: Seq<JsonV>, i: int) -> bool {
    &&& 0 <= i < teams.len()
    &&& member_is(teams[i], "teamId"@, JsonV::Int(100))
    &&& forall|j: int| 0 <= j < i ==> !member_is(#[trigger] teams[j], "teamId"@, JsonV::Int(100))
}

proof fn lemma_blue(teams: Seq<JsonV>, i: int, from: int)
    requires
        is_first_blue(teams, i),
        0 <= from <= i,
    ensures
        blue_wins(teams, from) == member_is(teams[i], "win"@, JsonV::Bool(true)),
    decreases i - from,
{
    law_numbers_are_read(teams[from], "teamId"@, 100, true);
    if from < i {
        assert(!member_is(teams[from], "teamId"@, JsonV::Int(100)));
        lemma_blue(teams, i, from + 1);
    } else {
        law_members_are_found(teams[i], "win"@, JsonV::Bool(true));
    }
}

proof fn lemma_no_blue(teams: Seq<JsonV>, from: int)
    requires
        0 <= from,
        forall|j: int|
            0 <= j < teams.len() ==> !member_is(#[trigger] teams[j], "teamId"@, JsonV::Int(100)),
    ensures
        !blue_wins(teams, from),
    decreases teams.len() - from,
{
    if from < teams.len() {
        law_numbers_are_read(teams[from], "teamId"@, 100, true);
        assert(!member_is(teams[from], "teamId"@, JsonV::Int(100)));
        lemma_no_blue(teams, from + 1);
    }
}

/// Blue won exactly if the document says so: the record's flag is the flag of
/// the first blue team, true or false.
pub proof fn law_blue_won_is_what_the_document_says(
    m: JsonV,
    timeline: TimelineInputV,
    info: JsonV,
    teams: Seq<JsonV>,
    i: int,
    won: bool,
)
    requires
        parsed_match(m, timeline) is Ok,
        member_is(m, "info"@, info),
        member_is(info, "teams"@, JsonV::Array(teams)),
        is_first_blue(teams, i),
        member_is(teams[i], "win"@, JsonV::Bool(won)),
    ensures
        parsed_match(m, timeline)->Ok_0.record.blue_won == won,
{
    law_members_are_found(m, "info"@, info);
    law_arrays_are_read(info, "teams"@, teams);
    law_members_are_found(teams[i], "win"@, JsonV::Bool(won));
    law_members_are_found(teams[i], "win"@, JsonV::Bool(true));
    lemma_blue(teams, i, 0);
}

/// A blue team without a flag did not win, and neither did one that is not
/// there.
pub proof fn law_blue_did_not_win_unsaid(
    m: JsonV,
    timeline: TimelineInputV,
    info: JsonV,
    teams: Seq<JsonV>,
    i: int,
)
    requires
        parsed_match(m, timeline) is Ok,
        member_is(m, "info"@, info),
        member_is(info, "teams"@, JsonV::Array(teams)) || (lacks(info, "teams"@) && teams.len() == 0),
        (is_first_blue(teams, i) && lacks(teams[i], "win"@)) || (forall|j: int|
            0 <= j < teams.len() ==> !member_is(#[trigger] teams[j], "teamId"@, JsonV::Int(100))),
    ensures
        !parsed_match(m, timeline)->Ok_0.record.blue_won,
{
    law_members_are_found(m, "info"@, info);
    law_arrays_are_read(info, "teams"@, teams);
    law_members_are_found(info, "teams"@, JsonV::Array(teams));
    if is_first_blue(teams, i) && lacks(teams[i], "win"@) {
        law_members_are_found(teams[i], "win"@, JsonV::Bool(true));
        lemma_blue(teams, i, 0);
    } else {
        lemma_no_blue(teams, 0);
    }
}

// ---- the match ----

/// A match id gives the platform and the number that it is made of.
pub proof fn law_match_ids_split(platform: Seq<char>, n: u64)
    requires
        forall|i: int| 0 <= i < platform.len() ==> #[trigger] platform[i] != '_',
    ensures
        split_id(platform + seq!['_'] + decimal(n as int)) == Ok::<
            (Seq<char>, u64),
            MatchIdError,
        >((platform, n)),
{
    let d = decimal(n as int);
    let s = platform + seq!['_'] + d;
    let k = platform.len() as int;
    assert forall|j: int| 0 <= j < k implies #[trigger] s[j] != '_' by {
        assert(s[j] == platform[j]);
    }
    lemma_first_is(s, '_', 0, k);
    assert(s.skip(k + 1) =~= d);
    assert(s.take(k) =~= platform);
    law_decimal_roundtrip(n as int);
    lemma_decimal_digits(n as int);
    assert(d[0] != '+');
}

/// A text without an underscore is no match id.
pub proof fn law_no_underscore_no_match_id(s: Seq<char>)
    requires
        forall|i: int| 0 <= i < s.len() ==> #[trigger] s[i] != '_',
    ensures
        split_id(s) == Err::<(Seq<char>, u64), MatchIdError>(MatchIdError::NoUnderscore),
{
    lemma_first_none(s, '_', 0);
}

/// The record is of the match that the document names.
pub proof fn law_record_is_of_its_match(
    m: JsonV,
    timeline: TimelineInputV,
    metadata: JsonV,
    platform: Seq<char>,
    n: u64,
)
    requires
        parsed_match(m, timeline) is Ok,
        member_is(m, "metadata"@, metadata),
        member_is(metadata, "matchId"@, JsonV::Str(platform + seq!['_'] + decimal(n as int))),
        forall|i: int| 0 <= i < platform.len() ==> #[trigger] platform[i] != '_',
    ensures
        parsed_match(m, timeline)->Ok_0.record.game_id == n,
        parsed_match(m, timeline)->Ok_0.record.platform == encode_utf8(platform),
{
    law_members_are_found(m, "metadata"@, metadata);
    law_texts_are_read(metadata, "matchId"@, platform + seq!['_'] + decimal(n as int));
    law_match_ids_split(platform, n);
}

/// What the record says of the match as a whole: its queue, when it began, how
/// long it took (old documents say so in milliseconds), and on which version.
pub proof fn law_record_says_when_and_what(
    m: JsonV,
    timeline: TimelineInputV,
    info: JsonV,
    queue: i64,
    duration: i64,
    began: i64,
    created: i64,
    version: Seq<char>,
)
    requires
        parsed_match(m, timeline) is Ok,
        member_is(m, "info"@, info),
    ensures
        ({
            let r = parsed_match(m, timeline)->Ok_0.record;
            &&& r.schema_version == 1
            &&& member_is(info, "queueId"@, JsonV::Int(queue)) && 0 <= queue <= u32::MAX ==> r.queue_id
                == queue
            &&& member_is(info, "queueId"@, JsonV::Int(queue)) && queue < 0 ==> r.queue_id == 0
            &&& member_is(info, "gameDuration"@, JsonV::Int(duration)) && 0 <= duration <= 30_000
                ==> r.duration_s == duration
            &&& member_is(info, "gameDuration"@, JsonV::Int(duration)) && 30_000 < duration
                <= 4_294_967_295_000 ==> r.duration_s == duration / 1000
            &&& member_is(info, "gameDuration"@, JsonV::Int(duration)) && duration < 0 ==> r.duration_s
                == 0
            &&& member_is(info, "gameStartTimestamp"@, JsonV::Int(began)) && began > 0
                ==> r.game_start_ms == began
            &&& ((member_is(info, "gameStartTimestamp"@, JsonV::Int(began)) && began <= 0) || lacks(
                info,
                "gameStartTimestamp"@,
            )) && member_is(info, "gameCreation"@, JsonV::Int(created)) ==> r.game_start_ms == created
            &&& member_is(info, "gameVersion"@, JsonV::Str(version)) ==> r.game_version == encode_utf8(
                version,
            )
        }),
{
    law_members_are_found(m, "info"@, info);
    law_numbers_are_read(info, "queueId"@, queue, true);
    law_numbers_are_read(info, "gameDuration"@, duration, true);
    law_numbers_are_read(info, "gameStartTimestamp"@, began, true);
    law_numbers_are_read(info, "gameCreation"@, created, true);
    law_texts_are_read(info, "gameVersion"@, version);
}

/// The patch is the first two numbers of the version.
pub proof fn law_patch_is_read_off_the_version(
    m: JsonV,
    timeline: TimelineInputV,
    info: JsonV,
    major: u32,
    minor: u32,
    rest: Seq<char>,
)
    requires
        parsed_match(m, timeline) is Ok,
        member_is(m, "info"@, info),
        member_is(
            info,
            "gameVersion"@,
            JsonV::Str(decimal(major as int) + seq!['.'] + decimal(minor as int) + rest),
        ),
        rest.len() > 0 ==> rest[0] == '.',
    ensures
        parsed_match(m, timeline)->Ok_0.record.patch_major == major,
        parsed_match(m, timeline)->Ok_0.record.patch_minor == minor,
{
    let a = decimal(major as int);
    let b = decimal(minor as int);
    let s = a + seq!['.'] + b + rest;
    law_members_are_found(m, "info"@, info);
    law_texts_are_read(info, "gameVersion"@, s);
    law_decimal_roundtrip(major as int);
    law_decimal_roundtrip(minor as int);
    lemma_decimal_digits(major as int);
    lemma_decimal_digits(minor as int);
    assert(a[0] != '+' && b[0] != '+');
    assert forall|j: int| 0 <= j < a.len() implies #[trigger] s[j] != '.' by {
        assert(s[j] == a[j]);
    }
    lemma_first_is(s, '.', 0, a.len() as int);
    assert(s.take(a.len() as int) =~= a);
    let t = s.skip(a.len() as int + 1);
    assert(t =~= b + rest);
    assert forall|j: int| 0 <= j < b.len() implies #[trigger] t[j] != '.' by {
        assert(t[j] == b[j]);
    }
    reveal_with_fuel(version_part, 2);
    if rest.len() > 0 {
        assert(t[b.len() as int] == rest[0]);
        lemma_first_is(t, '.', 0, b.len() as int);
        assert(t.take(b.len() as int) =~= b);
    } else {
        assert(t =~= b);
        lemma_first_none(t, '.', 0);
    }
    assert(version_part(s, 1) == version_part(t, 0));
}

// ---- the players ----

/// A number that a participant of a document has for a key.
pub open spec fn says(p: JsonV, key: Seq<char>, n: int) -> bool {
    i64::MIN <= n <= i64::MAX && member_is(p, key, JsonV::Int(n as i64))
}

/// A record's participant is this one of the document: champion, summoner
/// spells and statistics, each in its place.
pub open spec fn is_participant(row: Seq<u32>, stats: Seq<int>, p: JsonV, seat: int) -> bool {
    &&& row.len() == 5
    &&& row[0] == 0
    &&& row[2] == seat
    &&& forall|n: int|
        0 <= n <= u32::MAX && #[trigger] says(p, "championId"@, n) ==> row[1] == n
    &&& forall|n: int|
        0 <= n <= u32::MAX && #[trigger] says(p, "summoner1Id"@, n) ==> row[3] == n
    &&& forall|n: int|
        0 <= n <= u32::MAX && #[trigger] says(p, "summoner2Id"@, n) ==> row[4] == n
    &&& stats.len() == 90
    &&& forall|i: int, n: int|
        0 <= i < 90 && #[trigger] says(p, STAT_FIELDS_V1@[i]@, n) ==> stats[i] == (if n >= 0 {
            2 * n
        } else {
            -2 * n - 1
        })
    &&& forall|i: int|
        0 <= i < 90 && #[trigger] member_is(p, STAT_FIELDS_V1@[i]@, JsonV::Bool(true)) ==> stats[i] == 2
    &&& forall|i: int|
        0 <= i < 90 && #[trigger] lacks(p, STAT_FIELDS_V1@[i]@) ==> stats[i] == 0
}

proof fn lemma_participant(p: JsonV, seat: int)
    requires
        0 <= seat < 5,
    ensures
        ({
            let f = participant_of(p, seat);
            is_participant(f.row, f.lists[1], p, seat)
        }),
{
    let f = participant_of(p, seat);
    assert forall|n: int| 0 <= n <= u32::MAX && #[trigger] says(p, "championId"@, n) implies
        f.row[1] == n by {
        law_numbers_are_read(p, "championId"@, n as i64, true);
    }
    assert forall|n: int| 0 <= n <= u32::MAX && #[trigger] says(p, "summoner1Id"@, n) implies
        f.row[3] == n by {
        law_numbers_are_read(p, "summoner1Id"@, n as i64, true);
    }
    assert forall|n: int| 0 <= n <= u32::MAX && #[trigger] says(p, "summoner2Id"@, n) implies
        f.row[4] == n by {
        law_numbers_are_read(p, "summoner2Id"@, n as i64, true);
    }
    let stats = f.lists[1];
    assert forall|i: int, n: int|
        0 <= i < 90 && #[trigger] says(p, STAT_FIELDS_V1@[i]@, n) implies stats[i] == (if n >= 0 {
        2 * n
    } else {
        -2 * n - 1
    }) by {
        law_numbers_are_read(p, STAT_FIELDS_V1@[i]@, n as i64, true);
    }
    assert forall|i: int|
        0 <= i < 90 && #[trigger] member_is(p, STAT_FIELDS_V1@[i]@, JsonV::Bool(true)) implies stats[i]
        == 2 by {
        law_numbers_are_read(p, STAT_FIELDS_V1@[i]@, 0, true);
    }
    assert forall|i: int| 0 <= i < 90 && #[trigger] lacks(p, STAT_FIELDS_V1@[i]@) implies stats[i]
        == 0 by {
        law_numbers_are_read(p, STAT_FIELDS_V1@[i]@, 0, true);
    }
}

/// The statistics of a participant, each with its place in the record. Records
/// are read back by place, so no name may ever move.
pub proof fn law_statistics_keep_their_places()
    ensures
        STAT_FIELDS_V1@.len() == 90,
        STAT_FIELDS_V1@[0]@ == "assists"@,
        STAT_FIELDS_V1@[1]@ == "baronKills"@,
        STAT_FIELDS_V1@[2]@ == "bountyLevel"@,
        STAT_FIELDS_V1@[3]@ == "champExperience"@,
        STAT_FIELDS_V1@[4]@ == "champLevel"@,
        STAT_FIELDS_V1@[5]@ == "championTransform"@,
        STAT_FIELDS_V1@[6]@ == "consumablesPurchased"@,
        STAT_FIELDS_V1@[7]@ == "damageDealtToBuildings"@,
        STAT_FIELDS_V1@[8]@ == "damageDealtToObjectives"@,
        STAT_FIELDS_V1@[9]@ == "damageDealtToTurrets"@,
        STAT_FIELDS_V1@[10]@ == "damageSelfMitigated"@,
        STAT_FIELDS_V1@[11]@ == "deaths"@,
        STAT_FIELDS_V1@[12]@ == "detectorWardsPlaced"@,
        STAT_FIELDS_V1@[13]@ == "doubleKills"@,
        STAT_FIELDS_V1@[14]@ == "dragonKills"@,
        STAT_FIELDS_V1@[15]@ == "firstBloodAssist"@,
        STAT_FIELDS_V1@[16]@ == "firstBloodKill"@,
        STAT_FIELDS_V1@[17]@ == "firstTowerAssist"@,
        STAT_FIELDS_V1@[18]@ == "firstTowerKill"@,
        STAT_FIELDS_V1@[19]@ == "gameEndedInEarlySurrender"@,
        STAT_FIELDS_V1@[20]@ == "gameEndedInSurrender"@,
        STAT_FIELDS_V1@[21]@ == "goldEarned"@,
        STAT_FIELDS_V1@[22]@ == "goldSpent"@,
        STAT_FIELDS_V1@[23]@ == "inhibitorKills"@,
        STAT_FIELDS_V1@[24]@ == "inhibitorTakedowns"@,
        STAT_FIELDS_V1@[25]@ == "inhibitorsLost"@,
        STAT_FIELDS_V1@[26]@ == "item0"@,
        STAT_FIELDS_V1@[27]@ == "item1"@,
        STAT_FIELDS_V1@[28]@ == "item2"@,
        STAT_FIELDS_V1@[29]@ == "item3"@,
        STAT_FIELDS_V1@[30]@ == "item4"@,
        STAT_FIELDS_V1@[31]@ == "item5"@,
        STAT_FIELDS_V1@[32]@ == "item6"@,
        STAT_FIELDS_V1@[33]@ == "itemsPurchased"@,
        STAT_FIELDS_V1@[34]@ == "killingSprees"@,
        STAT_FIELDS_V1@[35]@ == "kills"@,
        STAT_FIELDS_V1@[36]@ == "largestCriticalStrike"@,
        STAT_FIELDS_V1@[37]@ == "largestKillingSpree"@,
        STAT_FIELDS_V1@[38]@ == "largestMultiKill"@,
        STAT_FIELDS_V1@[39]@ == "longestTimeSpentLiving"@,
        STAT_FIELDS_V1@[40]@ == "magicDamageDealt"@,
        STAT_FIELDS_V1@[41]@ == "magicDamageDealtToChampions"@,
        STAT_FIELDS_V1@[42]@ == "magicDamageTaken"@,
        STAT_FIELDS_V1@[43]@ == "neutralMinionsKilled"@,
        STAT_FIELDS_V1@[44]@ == "nexusKills"@,
        STAT_FIELDS_V1@[45]@ == "nexusLost"@,
        STAT_FIELDS_V1@[46]@ == "nexusTakedowns"@,
        STAT_FIELDS_V1@[47]@ == "objectivesStolen"@,
        STAT_FIELDS_V1@[48]@ == "objectivesStolenAssists"@,
        STAT_FIELDS_V1@[49]@ == "pentaKills"@,
        STAT_FIELDS_V1@[50]@ == "physicalDamageDealt"@,
        STAT_FIELDS_V1@[51]@ == "physicalDamageDealtToChampions"@,
        STAT_FIELDS_V1@[52]@ == "physicalDamageTaken"@,
        STAT_FIELDS_V1@[53]@ == "quadraKills"@,
        STAT_FIELDS_V1@[54]@ == "sightWardsBoughtInGame"@,
        STAT_FIELDS_V1@[55]@ == "spell1Casts"@,
        STAT_FIELDS_V1@[56]@ == "spell2Casts"@,
        STAT_FIELDS_V1@[57]@ == "spell3Casts"@,
        STAT_FIELDS_V1@[58]@ == "spell4Casts"@,
        STAT_FIELDS_V1@[59]@ == "summoner1Casts"@,
        STAT_FIELDS_V1@[60]@ == "summoner2Casts"@,
        STAT_FIELDS_V1@[61]@ == "summonerLevel"@,
        STAT_FIELDS_V1@[62]@ == "teamEarlySurrendered"@,
        STAT_FIELDS_V1@[63]@ == "timeCCingOthers"@,
        STAT_FIELDS_V1@[64]@ == "timePlayed"@,
        STAT_FIELDS_V1@[65]@ == "totalAllyJungleMinionsKilled"@,
        STAT_FIELDS_V1@[66]@ == "totalDamageDealt"@,
        STAT_FIELDS_V1@[67]@ == "totalDamageDealtToChampions"@,
        STAT_FIELDS_V1@[68]@ == "totalDamageShieldedOnTeammates"@,
        STAT_FIELDS_V1@[69]@ == "totalDamageTaken"@,
        STAT_FIELDS_V1@[70]@ == "totalEnemyJungleMinionsKilled"@,
        STAT_FIELDS_V1@[71]@ == "totalHeal"@,
        STAT_FIELDS_V1@[72]@ == "totalHealsOnTeammates"@,
        STAT_FIELDS_V1@[73]@ == "totalMinionsKilled"@,
        STAT_FIELDS_V1@[74]@ == "totalTimeCCDealt"@,
        STAT_FIELDS_V1@[75]@ == "totalTimeSpentDead"@,
        STAT_FIELDS_V1@[76]@ == "totalUnitsHealed"@,
        STAT_FIELDS_V1@[77]@ == "tripleKills"@,
        STAT_FIELDS_V1@[78]@ == "trueDamageDealt"@,
        STAT_FIELDS_V1@[79]@ == "trueDamageDealtToChampions"@,
        STAT_FIELDS_V1@[80]@ == "trueDamageTaken"@,
        STAT_FIELDS_V1@[81]@ == "turretKills"@,
        STAT_FIELDS_V1@[82]@ == "turretTakedowns"@,
        STAT_FIELDS_V1@[83]@ == "turretsLost"@,
        STAT_FIELDS_V1@[84]@ == "unrealKills"@,
        STAT_FIELDS_V1@[85]@ == "visionScore"@,
        STAT_FIELDS_V1@[86]@ == "visionWardsBoughtInGame"@,
        STAT_FIELDS_V1@[87]@ == "wardsKilled"@,
        STAT_FIELDS_V1@[88]@ == "wardsPlaced"@,
        STAT_FIELDS_V1@[89]@ == "win"@,
{
}

/// The ten participants of the record are the ten of the document, each once:
/// blue's five first and then red's, the seats of a team in order. Each brings
/// its own player id along.
pub proof fn law_everybody_is_in_the_record(
    m: JsonV,
    timeline: TimelineInputV,
    info: JsonV,
    ps: Seq<JsonV>,
) -> (order: Seq<int>)
    requires
        parsed_match(m, timeline) is Ok,
        member_is(m, "info"@, info),
        member_is(info, "participants"@, JsonV::Array(ps)),
    ensures
        ps.len() == 10,
        order.len() == 10,
        order.no_duplicates(),
        forall|k: int|
            0 <= k < 10 ==> {
                let j = #[trigger] order[k];
                &&& 0 <= j < 10
                &&& k < 5 <==> j < 5
                &&& member_is(ps[j], "teamId"@, JsonV::Int(if k < 5 { 100 } else { 200 }))
            },
        ({
            let p = parsed_match(m, timeline)->Ok_0;
            &&& p.record.participants.len() == 10
            &&& p.puuids.len() == 10
            &&& forall|k: int|
                0 <= k < 10 ==> is_participant(
                    (#[trigger] p.record.participants[k]).row,
                    p.record.participants[k].lists[1],
                    ps[order[k]],
                    k % 5,
                )
            &&& forall|k: int, t: Seq<char>|
                0 <= k < 10 && #[trigger] member_is(ps[order[k]], "puuid"@, JsonV::Str(t))
                    ==> p.puuids[k] == t
        }),
{
    law_members_are_found(m, "info"@, info);
    law_arrays_are_read(info, "participants"@, ps);
    let order = Seq::new(10, |k: int| original_index(ps, k));
    let p = parsed_match(m, timeline)->Ok_0;
    assert forall|k: int| 0 <= k < 10 implies {
        let j = #[trigger] order[k];
        &&& 0 <= j < 10
        &&& k < 5 <==> j < 5
        &&& member_is(ps[j], "teamId"@, JsonV::Int(if k < 5 { 100 } else { 200 }))
    } by {
        let seat = k % 5;
        let team = team_members(ps, k / 5);
        if seat < 4 {
            law_seats_are_distinct(team, seat, 4);
        } else {
            law_seats_are_distinct(team, 0, seat);
        }
        let j = order[k];
        let id: i64 = if k < 5 { 100 } else { 200 };
        assert(number(ps[j], "teamId"@) == id);
        law_numbers_are_read(ps[j], "teamId"@, id, true);
    }
    assert forall|a: int, b: int| 0 <= a < 10 && 0 <= b < 10 && a != b implies order[a]
        != order[b] by {
        if a / 5 == b / 5 {
            let team = team_members(ps, a / 5);
            if a % 5 < b % 5 {
                law_seats_are_distinct(team, a % 5, b % 5);
            } else {
                law_seats_are_distinct(team, b % 5, a % 5);
            }
        } else {
            assert(order[a] < 5 <==> a < 5);
            assert(order[b] < 5 <==> b < 5);
        }
    }
    assert forall|k: int| 0 <= k < 10 implies is_participant(
        (#[trigger] p.record.participants[k]).row,
        p.record.participants[k].lists[1],
        ps[order[k]],
        k % 5,
    ) by {
        lemma_participant(ps[order[k]], k % 5);
    }
    assert forall|k: int, t: Seq<char>|
        0 <= k < 10 && #[trigger] member_is(ps[order[k]], "puuid"@, JsonV::Str(t)) implies p.puuids[k]
        == t by {
        law_texts_are_read(ps[order[k]], "puuid"@, t);
    }
    order
}

/// A timeline numbers its players from one, in the order of the match document.
/// They are filed where the record has them.
pub proof fn law_timelines_follow_the_record(
    m: JsonV,
    t: JsonV,
    info: JsonV,
    ps: Seq<JsonV>,
    k: int,
)
    requires
        parsed_match(m, TimelineInputV::Document(t)) is Ok,
        member_is(m, "info"@, info),
        member_is(info, "participants"@, JsonV::Array(ps)),
        0 <= k < 10,
    ensures
        0 <= original_index(ps, k) < 10,
        mapped(sorted_map(ps, 10), original_index(ps, k) + 1) == k,
        Ok::<Option<Seq<Seq<FlatV>>>, ParseError>(
            parsed_match(m, TimelineInputV::Document(t))->Ok_0.record.timeline,
        ) == (match parsed_timeline(t, sorted_map(ps, 10)) {
            Ok(tl) => Ok::<Option<Seq<Seq<FlatV>>>, ParseError>(Some(tl)),
            Err(e) => Err(e),
        }),
{
    law_members_are_found(m, "info"@, info);
    law_arrays_are_read(info, "participants"@, ps);
    lemma_sorted(ps, k, 10);
}

proof fn lemma_index(ps: Seq<JsonV>, k: int)
    requires
        ps.len() == 10,
        0 <= k < 10,
    ensures
        0 <= original_index(ps, k) < 10,
        original_index(ps, k) / 5 == k / 5,
{
    let seat = k % 5;
    let team = team_members(ps, k / 5);
    if seat < 4 {
        law_seats_are_distinct(team, seat, 4);
    } else {
        law_seats_are_distinct(team, 0, seat);
    }
}

proof fn lemma_sorted(ps: Seq<JsonV>, k: int, n: int)
    requires
        ps.len() == 10,
        0 <= k < n <= 10,
    ensures
        0 <= original_index(ps, k) < 10,
        sorted_map(ps, n).len() == 10,
        sorted_map(ps, n)[original_index(ps, k)] == k,
    decreases n,
{
    lemma_index(ps, k);
    lemma_index(ps, n - 1);
    lemma_sorted_len(ps, n - 1);
    if k < n - 1 {
        lemma_sorted(ps, k, n - 1);
        if k / 5 == (n - 1) / 5 {
            law_seats_are_distinct(team_members(ps, k / 5), k % 5, (n - 1) % 5);
        }
    }
}

proof fn lemma_sorted_len(ps: Seq<JsonV>, n: int)
    requires
        ps.len() == 10,
        0 <= n <= 10,
    ensures
        sorted_map(ps, n).len() == 10,
    decreases n,
{
    if n > 0 {
        lemma_index(ps, n - 1);
        lemma_sorted_len(ps, n - 1);
    }
}

/// The name of a seat.
pub open spec fn seat_name(seat: int) -> Seq<char> {
    if seat == 0 {
        "TOP"@
    } else if seat == 1 {
        "JUNGLE"@
    } else if seat == 2 {
        "MIDDLE"@
    } else if seat == 3 {
        "BOTTOM"@
    } else {
        "UTILITY"@
    }
}

proof fn lemma_seat_names(a: int, b: int)
    requires
        0 <= a < 5,
        0 <= b < 5,
        a != b,
    ensures
        seat_name(a) != seat_name(b),
        seat_name(a).len() > 0,
{
    reveal_strlit("TOP");
    reveal_strlit("JUNGLE");
    reveal_strlit("MIDDLE");
    reveal_strlit("BOTTOM");
    reveal_strlit("UTILITY");
    assert(seat_name(a)[0] != seat_name(b)[0] || seat_name(a).len() != seat_name(b).len());
}

proof fn lemma_claim(p: JsonV, seat: int)
    requires
        0 <= seat < 5,
    ensures
        claim(p) == Some(seat) <==> member_is(p, "teamPosition"@, JsonV::Str(seat_name(seat))),
{
    law_texts_are_read(p, "teamPosition"@, seat_name(seat));
    lemma_seat_names(0, 1);
    lemma_seat_names(0, 2);
    lemma_seat_names(0, 3);
    lemma_seat_names(0, 4);
    lemma_seat_names(1, 2);
    lemma_seat_names(1, 3);
    lemma_seat_names(1, 4);
    lemma_seat_names(2, 3);
    lemma_seat_names(2, 4);
    lemma_seat_names(3, 4);
    lemma_seat_names(4, 0);
}

proof fn lemma_claimant_is(ms: Seq<JsonV>, seat: int, i: int, n: int)
    requires
        0 <= i < n,
        claim(ms[i]) == Some(seat),
        forall|j: int| 0 <= j < i ==> claim(#[trigger] ms[j]) != Some(seat),
    ensures
        claimant(ms, seat, n) == Some(i),
    decreases n,
{
    if n - 1 == i {
        lemma_no_claimant(ms, seat, i);
    } else {
        lemma_claimant_is(ms, seat, i, n - 1);
    }
}

proof fn lemma_no_claimant(ms: Seq<JsonV>, seat: int, n: int)
    requires
        0 <= n,
        forall|j: int| 0 <= j < n ==> claim(#[trigger] ms[j]) != Some(seat),
    ensures
        claimant(ms, seat, n) is None,
    decreases n,
{
    if n > 0 {
        assert(claim(ms[n - 1]) != Some(seat));
        lemma_no_claimant(ms, seat, n - 1);
    }
}

/// Whoever is the first of a team to claim a seat sits there: the record has
/// them at that seat.
pub proof fn law_claimed_seats_are_kept(
    m: JsonV,
    timeline: TimelineInputV,
    info: JsonV,
    ps: Seq<JsonV>,
    team: int,
    i: int,
    seat: int,
    puuid: Seq<char>,
)
    requires
        parsed_match(m, timeline) is Ok,
        member_is(m, "info"@, info),
        member_is(info, "participants"@, JsonV::Array(ps)),
        0 <= team < 2,
        0 <= i < 5,
        0 <= seat < 5,
        member_is(ps[5 * team + i], "teamPosition"@, JsonV::Str(seat_name(seat))),
        forall|j: int|
            0 <= j < i ==> !member_is(
                #[trigger] ps[5 * team + j],
                "teamPosition"@,
                JsonV::Str(seat_name(seat)),
            ),
        member_is(ps[5 * team + i], "puuid"@, JsonV::Str(puuid)),
    ensures
        parsed_match(m, timeline)->Ok_0.puuids[5 * team + seat] == puuid,
        is_participant(
            parsed_match(m, timeline)->Ok_0.record.participants[5 * team + seat].row,
            parsed_match(m, timeline)->Ok_0.record.participants[5 * team + seat].lists[1],
            ps[5 * team + i],
            seat,
        ),
{
    law_members_are_found(m, "info"@, info);
    law_arrays_are_read(info, "participants"@, ps);
    let ms = team_members(ps, team);
    assert(ms[i] == ps[5 * team + i]);
    lemma_claim(ms[i], seat);
    assert forall|j: int| 0 <= j < i implies claim(#[trigger] ms[j]) != Some(seat) by {
        assert(ms[j] == ps[5 * team + j]);
        lemma_claim(ms[j], seat);
    }
    lemma_claimant_is(ms, seat, i, 5);
    let k = 5 * team + seat;
    assert(k / 5 == team && k % 5 == seat);
    assert(original_index(ps, k) == 5 * team + i);
    lemma_participant(ps[5 * team + i], seat);
    law_texts_are_read(ps[5 * team + i], "puuid"@, puuid);
}

proof fn lemma_unseated_rise(ms: Seq<JsonV>, n: int)
    requires
        0 <= n,
    ensures
        forall|i: int, j: int|
            0 <= i < j < unseated(ms, n).len() ==> #[trigger] unseated(ms, n)[i]
                < #[trigger] unseated(ms, n)[j],
        forall|i: int| 0 <= i < unseated(ms, n).len() ==> #[trigger] unseated(ms, n)[i] < n,
    decreases n,
{
    if n > 0 {
        lemma_unseated_rise(ms, n - 1);
        let u = unseated(ms, n);
        let v = unseated(ms, n - 1);
        assert forall|i: int| 0 <= i < u.len() implies #[trigger] u[i] < n by {
            if i < v.len() {
                assert(v[i] < n - 1);
            }
        }
        assert forall|i: int, j: int| 0 <= i < j < u.len() implies #[trigger] u[i]
            < #[trigger] u[j] by {
            assert(v[i] < n - 1);
            if j < v.len() {
                assert(v[i] < v[j]);
            }
        }
    }
}

/// The seats that nobody of a team claims go to those left over, from the last
/// of the document on: of two such seats the first has the later participant.
pub proof fn law_free_seats_go_to_the_last_first(ps: Seq<JsonV>, team: int, a: int, b: int)
    requires
        ps.len() == 10,
        0 <= team < 2,
        0 <= a < b < 5,
        forall|i: int|
            #![trigger ps[5 * team + i]]
            0 <= i < 5 ==> !member_is(
                ps[5 * team + i],
                "teamPosition"@,
                JsonV::Str(seat_name(a)),
            ) && !member_is(ps[5 * team + i], "teamPosition"@, JsonV::Str(seat_name(b))),
    ensures
        original_index(ps, 5 * team + a) > original_index(ps, 5 * team + b),
{
    let ms = team_members(ps, team);
    assert forall|i: int| 0 <= i < 5 implies claim(#[trigger] ms[i]) != Some(a) && claim(ms[i])
        != Some(b) by {
        assert(ms[i] == ps[5 * team + i]);
        lemma_claim(ms[i], a);
        lemma_claim(ms[i], b);
    }
    lemma_no_claimant(ms, a, 5);
    lemma_no_claimant(ms, b, 5);
    lemma_free_grows(ms, a, b);
    lemma_seats(ms, a);
    lemma_seats(ms, b);
    lemma_unseated_rise(ms, 5);
    assert((5 * team + a) / 5 == team && (5 * team + a) % 5 == a);
    assert((5 * team + b) / 5 == team && (5 * team + b) % 5 == b);
}

/// The runes of a participant: the two styles, then what the first and what
/// the second selects, then the three stat perks: offense, flex, defense.
pub proof fn law_runes_are_listed(
    p: JsonV,
    seat: int,
    pk: JsonV,
    one: JsonV,
    two: JsonV,
    first: Seq<JsonV>,
    second: Seq<JsonV>,
    sp: JsonV,
    offense: u32,
    flex: u32,
    defense: u32,
    i: int,
    n: u32,
)
    requires
        member_is(p, "perks"@, pk),
        member_is(pk, "styles"@, JsonV::Array(seq![one, two])),
        member_is(one, "selections"@, JsonV::Array(first)),
        member_is(two, "selections"@, JsonV::Array(second)),
        member_is(pk, "statPerks"@, sp),
        member_is(sp, "offense"@, JsonV::Int(offense as i64)),
        member_is(sp, "flex"@, JsonV::Int(flex as i64)),
        member_is(sp, "defense"@, JsonV::Int(defense as i64)),
    ensures
        ({
            let runes = participant_of(p, seat).lists[0];
            let k = (first.len() + second.len()) as int;
            &&& runes.len() == 5 + k
            &&& member_is(one, "style"@, JsonV::Int(n as i64)) ==> runes[0] == n
            &&& member_is(two, "style"@, JsonV::Int(n as i64)) ==> runes[1] == n
            &&& 0 <= i < first.len() && member_is(first[i], "perk"@, JsonV::Int(n as i64))
                ==> runes[2 + i] == n
            &&& 0 <= i < second.len() && member_is(second[i], "perk"@, JsonV::Int(n as i64))
                ==> runes[2 + first.len() + i] == n
            &&& runes[2 + k] == offense
            &&& runes[3 + k] == flex
            &&& runes[4 + k] == defense
        }),
{
    law_members_are_found(p, "perks"@, pk);
    law_arrays_are_read(pk, "styles"@, seq![one, two]);
    law_arrays_are_read(one, "selections"@, first);
    law_arrays_are_read(two, "selections"@, second);
    law_members_are_found(pk, "statPerks"@, sp);
    law_numbers_are_read(sp, "offense"@, offense as i64, true);
    law_numbers_are_read(sp, "flex"@, flex as i64, true);
    law_numbers_are_read(sp, "defense"@, defense as i64, true);
    law_numbers_are_read(one, "style"@, n as i64, true);
    law_numbers_are_read(two, "style"@, n as i64, true);
    if 0 <= i < first.len() {
        law_numbers_are_read(first[i], "perk"@, n as i64, true);
    }
    if 0 <= i < second.len() {
        law_numbers_are_read(second[i], "perk"@, n as i64, true);
    }
    let styles = seq![one, two];
    reveal_with_fuel(perks, 3);
    assert(perks(styles, 2) =~= clamped_numbers(first, "perk"@) + clamped_numbers(
        second,
        "perk"@,
    ));
}

// ---- bans ----

/// The bans of both teams are in the record, the first team's first, each as
/// the champion that it names.
pub proof fn law_bans_are_kept_in_order(
    m: JsonV,
    timeline: TimelineInputV,
    info: JsonV,
    teams: Seq<JsonV>,
    first: Seq<JsonV>,
    second: Seq<JsonV>,
    t: int,
    i: int,
    n: i64,
)
    requires
        parsed_match(m, timeline) is Ok,
        member_is(m, "info"@, info),
        member_is(info, "teams"@, JsonV::Array(teams)),
        teams.len() == 2,
        member_is(teams[0], "bans"@, JsonV::Array(first)),
        member_is(teams[1], "bans"@, JsonV::Array(second)),
        0 <= t < 2,
        t == 0 ==> 0 <= i < first.len() && member_is(first[i], "championId"@, JsonV::Int(n)),
        t == 1 ==> 0 <= i < second.len() && member_is(second[i], "championId"@, JsonV::Int(n)),
        i64::MIN <= n <= u32::MAX,
    ensures
        parsed_match(m, timeline)->Ok_0.record.bans.len() == first.len() + second.len(),
        parsed_match(m, timeline)->Ok_0.record.bans[if t == 0 {
            i
        } else {
            first.len() + i
        }] == (if n < 0 {
            0
        } else {
            n as int
        }),
{
    law_members_are_found(m, "info"@, info);
    law_arrays_are_read(info, "teams"@, teams);
    law_arrays_are_read(teams[0], "bans"@, first);
    law_arrays_are_read(teams[1], "bans"@, second);
    if t == 0 {
        law_numbers_are_read(first[i], "championId"@, n, true);
    } else {
        law_numbers_are_read(second[i], "championId"@, n, true);
    }
    reveal_with_fuel(bans_of, 3);
    let bans = bans_of(teams, 2);
    let a = clamped_numbers(first, "championId"@);
    let b = clamped_numbers(second, "championId"@);
    assert(bans =~= a + b);
}

// ---- what is refused ----

/// A document that parses has all that a match needs: an info and a metadata
/// part, and ten participants, of which the first five are blue and the others
/// red. One without is refused for the first thing that it lacks.
pub proof fn law_documents_need_their_parts(
    m: JsonV,
    timeline: TimelineInputV,
    info: JsonV,
    metadata: JsonV,
    ps: Seq<JsonV>,
    platform: Seq<char>,
    n: u64,
)
    ensures
        lacks(m, "info"@) ==> parsed_match(m, timeline) == Err::<ParsedV, ParseError>(
            ParseError::NoInfo,
        ),
        member_is(m, "info"@, info) && lacks(m, "metadata"@) ==> parsed_match(m, timeline) == Err::<
            ParsedV,
            ParseError,
        >(ParseError::NoMetadata),
        member_is(m, "info"@, info) && member_is(m, "metadata"@, metadata) && member_is(
            metadata,
            "matchId"@,
            JsonV::Str(platform + seq!['_'] + decimal(n as int)),
        ) && (forall|i: int| 0 <= i < platform.len() ==> #[trigger] platform[i] != '_') ==> {
            &&& lacks(info, "participants"@) ==> parsed_match(m, timeline) == Err::<
                ParsedV,
                ParseError,
            >(ParseError::NoParticipants)
            &&& member_is(info, "participants"@, JsonV::Array(ps)) && ps.len() != 10 ==> parsed_match(
                m,
                timeline,
            ) == Err::<ParsedV, ParseError>(ParseError::ParticipantCount(ps.len() as usize))
            &&& member_is(info, "participants"@, JsonV::Array(ps)) && ps.len() == 10 && !is_grouped(ps)
                ==> parsed_match(m, timeline) == Err::<ParsedV, ParseError>(ParseError::NotGrouped)
            &&& member_is(info, "participants"@, JsonV::Array(ps)) && ps.len() == 10 && is_grouped(ps)
                && timeline is Absent ==> parsed_match(m, timeline) is Ok && parsed_match(
                m,
                timeline,
            )->Ok_0.record.timeline is None
            &&& member_is(info, "participants"@, JsonV::Array(ps)) && ps.len() == 10 && is_grouped(ps)
                && timeline is NotJson ==> parsed_match(m, timeline) == Err::<ParsedV, ParseError>(
                ParseError::BadTimelineJson,
            )
        },
{
    law_members_are_found(m, "info"@, info);
    law_members_are_found(m, "metadata"@, metadata);
    law_members_are_found(info, "participants"@, JsonV::Array(ps));
    law_arrays_are_read(info, "participants"@, ps);
    law_texts_are_read(metadata, "matchId"@, platform + seq!['_'] + decimal(n as int));
    if forall|i: int| 0 <= i < platform.len() ==> #[trigger] platform[i] != '_' {
        law_match_ids_split(platform, n);
    }
    if ps.len() == 10 {
        assert(is_grouped(ps) == grouped(ps)) by {
            assert forall|i: int| 0 <= i < 10 implies (number(#[trigger] ps[i], "teamId"@) == (if i
                < 5 {
                100int
            } else {
                200
            })) == member_is(ps[i], "teamId"@, JsonV::Int(if i < 5 { 100 } else { 200 })) by {
                let id: i64 = if i < 5 { 100 } else { 200 };
                law_numbers_are_read(ps[i], "teamId"@, id, true);
            }
        }
    }
}

/// The first five of ten are blue, and the others red.
pub open spec fn is_grouped(ps: Seq<JsonV>) -> bool {
    forall|i: int|
        0 <= i < 10 ==> member_is(
            #[trigger] ps[i],
            "teamId"@,
            JsonV::Int(if i < 5 { 100 } else { 200 }),
        )
}

// ---- texts ----

/// A match text is read as the document that it writes, and so is that of a
/// timeline if there is one.
pub proof fn law_texts_are_documents(m: Seq<char>, t: Seq<char>)
    ensures
        document(m) is None ==> parsed_texts(m, None) == Err::<ParsedV, ParseError>(
            ParseError::BadJson,
        ) && parsed_texts(m, Some(t)) == Err::<ParsedV, ParseError>(ParseError::BadJson),
        document(m) matches Some(d) ==> {
            &&& parsed_texts(m, None) == parsed_match(d, TimelineInputV::Absent)
            &&& document(t) is None ==> parsed_texts(m, Some(t)) == parsed_match(
                d,
                TimelineInputV::NotJson,
            )
            &&& document(t) matches Some(e) ==> parsed_texts(m, Some(t)) == parsed_match(
                d,
                TimelineInputV::Document(e),
            )
        },
{
}

} // verus!
