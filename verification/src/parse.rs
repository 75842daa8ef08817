//! Turning match and timeline documents of the game API into records.

use crate::json::{
    array_member, document, get, get_array, get_number, get_text, json_views, member, number,
    parse_json, text_member, Json, JsonV,
};
use crate::record::{FlatV, MatchRecord, Participant, RecordV, SCHEMA_VERSION};
use crate::timeline::{
    indices, map_ok, parse_timeline, parsed_timeline,
};
use crate::text::{
    chars_of, find_char, first_index, parse_unsigned, parsed_unsigned, same_text, texts,
};
use crate::wire::{ints, low32, zigzags};
use vstd::prelude::*;
use vstd::string::StrSliceExecFns;
use vstd::utf8::encode_utf8;

verus! {

/// Participant stat fields, in stat-array order. Append only: never reorder or
/// remove one, and bump the schema version when appending. Booleans count as
/// 0 and 1, missing fields as 0.
pub const STAT_FIELDS_V1: [&'static str; 90] = [
    "assists",
    "baronKills",
    "bountyLevel",
    "champExperience",
    "champLevel",
    "championTransform",
    "consumablesPurchased",
    "damageDealtToBuildings",
    "damageDealtToObjectives",
    "damageDealtToTurrets",
    "damageSelfMitigated",
    "deaths",
    "detectorWardsPlaced",
    "doubleKills",
    "dragonKills",
    "firstBloodAssist",
    "firstBloodKill",
    "firstTowerAssist",
    "firstTowerKill",
    "gameEndedInEarlySurrender",
    "gameEndedInSurrender",
    "goldEarned",
    "goldSpent",
    "inhibitorKills",
    "inhibitorTakedowns",
    "inhibitorsLost",
    "item0",
    "item1",
    "item2",
    "item3",
    "item4",
    "item5",
    "item6",
    "itemsPurchased",
    "killingSprees",
    "kills",
    "largestCriticalStrike",
    "largestKillingSpree",
    "largestMultiKill",
    "longestTimeSpentLiving",
    "magicDamageDealt",
    "magicDamageDealtToChampions",
    "magicDamageTaken",
    "neutralMinionsKilled",
    "nexusKills",
    "nexusLost",
    "nexusTakedowns",
    "objectivesStolen",
    "objectivesStolenAssists",
    "pentaKills",
    "physicalDamageDealt",
    "physicalDamageDealtToChampions",
    "physicalDamageTaken",
    "quadraKills",
    "sightWardsBoughtInGame",
    "spell1Casts",
    "spell2Casts",
    "spell3Casts",
    "spell4Casts",
    "summoner1Casts",
    "summoner2Casts",
    "summonerLevel",
    "teamEarlySurrendered",
    "timeCCingOthers",
    "timePlayed",
    "totalAllyJungleMinionsKilled",
    "totalDamageDealt",
    "totalDamageDealtToChampions",
    "totalDamageShieldedOnTeammates",
    "totalDamageTaken",
    "totalEnemyJungleMinionsKilled",
    "totalHeal",
    "totalHealsOnTeammates",
    "totalMinionsKilled",
    "totalTimeCCDealt",
    "totalTimeSpentDead",
    "totalUnitsHealed",
    "tripleKills",
    "trueDamageDealt",
    "trueDamageDealtToChampions",
    "trueDamageTaken",
    "turretKills",
    "turretTakedowns",
    "turretsLost",
    "unrealKills",
    "visionScore",
    "visionWardsBoughtInGame",
    "wardsKilled",
    "wardsPlaced",
    "win",
];

/// How many stat fields there are.
pub const STAT_COUNT: usize = 90;

/// Positions of a team, in seat order.
pub const POSITIONS: [&'static str; 5] = ["TOP", "JUNGLE", "MIDDLE", "BOTTOM", "UTILITY"];

/// Kinds of objectives.
pub const DRAGON: u32 = 1;

pub const RIFT_HERALD: u32 = 2;

pub const BARON: u32 = 3;

/// Void grubs.
pub const HORDE: u32 = 4;

pub const ELDER_DRAGON: u32 = 5;

pub const ATAKHAN: u32 = 6;

pub const TOWER: u32 = 7;

pub const INHIBITOR: u32 = 8;

pub const PLATE: u32 = 9;

pub const OTHER_MONSTER: u32 = 20;

pub const OTHER_BUILDING: u32 = 21;

/// Lanes.
pub const LANE_NONE: u32 = 0;

pub const LANE_TOP: u32 = 1;

pub const LANE_MID: u32 = 2;

pub const LANE_BOT: u32 = 3;

/// Kinds of ward events.
pub const WARD_PLACED: u32 = 1;

pub const WARD_KILLED: u32 = 2;

/// Stands for a participant that an event does not name.
pub const NO_PARTICIPANT: u32 = 255;

/// Why a text is no match id.
#[derive(Clone, Copy, Debug, PartialEq, Eq, Structural)]
pub enum MatchIdError {
    NoUnderscore,
    BadNumber,
}

/// Why documents make no match record.
#[derive(Clone, Copy, Debug, PartialEq, Eq, Structural)]
pub enum ParseError {
    BadJson,
    NoInfo,
    NoMetadata,
    MatchId(MatchIdError),
    NoParticipants,
    /// There are this many participants, not ten.
    ParticipantCount(usize),
    /// The first five are not the blue team, or the others not the red one.
    NotGrouped,
    BadTimelineJson,
    NoTimelineFrames,
}

/// A record, and the players' ids in the game API in participant order.
pub struct ParsedMatch {
    pub record: MatchRecord,
    pub puuids: Vec<String>,
}

#[verifier::ext_equal]
pub struct ParsedV {
    pub record: RecordV,
    pub puuids: Seq<Seq<char>>,
}

impl View for ParsedMatch {
    type V = ParsedV;

    open spec fn view(&self) -> ParsedV {
        ParsedV { record: self.record@, puuids: texts(self.puuids@) }
    }
}

/// A timeline as far as it is there.
pub enum TimelineInput {
    Absent,
    NotJson,
    Document(Json),
}

pub enum TimelineInputV {
    Absent,
    NotJson,
    Document(JsonV),
}

impl View for TimelineInput {
    type V = TimelineInputV;

    open spec fn view(&self) -> TimelineInputV {
        match *self {
            TimelineInput::Absent => TimelineInputV::Absent,
            TimelineInput::NotJson => TimelineInputV::NotJson,
            TimelineInput::Document(j) => TimelineInputV::Document(j@),
        }
    }
}

/// A match id such as `EUW1_7819712430`: platform and number.
pub open spec fn split_id(s: Seq<char>) -> Result<(Seq<char>, u64), MatchIdError> {
    match first_index(s, '_', 0) {
        None => Err(MatchIdError::NoUnderscore),
        Some(k) => match parsed_unsigned(s.skip(k + 1), u64::MAX as int) {
            None => Err(MatchIdError::BadNumber),
            Some(v) => Ok((s.take(k), v as u64)),
        },
    }
}

/// Splits a match id into platform and number.
pub fn split_match_id<'a>(match_id: &'a str) -> (res: Result<(&'a str, u64), MatchIdError>)
    ensures
        match split_id(match_id@) {
            Ok((platform, id)) => res is Ok && (res->Ok_0).0@ == platform && (res->Ok_0).1 == id,
            Err(e) => res == Err::<(&'a str, u64), MatchIdError>(e),
        },
{
    let chars = chars_of(match_id);
    let k: usize = match find_char(&chars, '_', 0) {
        Some(k) => k,
        None => {
            return Err(MatchIdError::NoUnderscore);
        },
    };
    let num = chars_of(match_id.substring_char(k + 1, chars.len()));
    assert(num@ =~= match_id@.skip(k + 1));
    let id: u64 = match parse_unsigned(&num, u64::MAX) {
        Some(v) => v,
        None => {
            return Err(MatchIdError::BadNumber);
        },
    };
    let platform = match_id.substring_char(0, k);
    assert(platform@ =~= match_id@.take(k as int));
    Ok((platform, id))
}

/// A number as 32 bits: none of a negative one, the low 32 bits of others.
pub open spec fn clamped(v: int) -> u32 {
    if v <= 0 {
        0
    } else {
        low32(v)
    }
}

pub(crate) fn clamp(v: i64) -> (res: u32)
    ensures
        res == clamped(v as int),
{
    if v <= 0 {
        0
    } else {
        (v as u64 % 0x1_0000_0000) as u32
    }
}

/// Where a position's name stands in [`POSITIONS`].
pub open spec fn seat_of_name(name: Seq<char>) -> Option<int> {
    if name == "TOP"@ {
        Some(0)
    } else if name == "JUNGLE"@ {
        Some(1)
    } else if name == "MIDDLE"@ {
        Some(2)
    } else if name == "BOTTOM"@ {
        Some(3)
    } else if name == "UTILITY"@ {
        Some(4)
    } else {
        None
    }
}

fn seat_index(name: &str) -> (res: Option<usize>)
    ensures
        match res {
            Some(i) => seat_of_name(name@) == Some(i as int) && i < 5,
            None => seat_of_name(name@) is None,
        },
{
    if same_text(name, POSITIONS[0]) {
        Some(0)
    } else if same_text(name, POSITIONS[1]) {
        Some(1)
    } else if same_text(name, POSITIONS[2]) {
        Some(2)
    } else if same_text(name, POSITIONS[3]) {
        Some(3)
    } else if same_text(name, POSITIONS[4]) {
        Some(4)
    } else {
        None
    }
}

/// The seat that a participant claims.
pub open spec fn claim(p: JsonV) -> Option<int> {
    seat_of_name(text_member(p, "teamPosition"@))
}

/// The first of the first `n` team members that claims a seat.
pub open spec fn claimant(ms: Seq<JsonV>, seat: int, n: int) -> Option<int>
    decreases n,
{
    if n <= 0 {
        None
    } else {
        match claimant(ms, seat, n - 1) {
            Some(i) => Some(i),
            None => if claim(ms[n - 1]) == Some(seat) {
                Some(n - 1)
            } else {
                None
            },
        }
    }
}

/// Whether team member `i` is the first that claims its seat.
pub open spec fn keeps_claim(ms: Seq<JsonV>, i: int) -> bool {
    match claim(ms[i]) {
        Some(seat) => claimant(ms, seat, i) is None,
        None => false,
    }
}

/// Those of the first `n` team members that got no seat by their claim.
pub open spec fn unseated(ms: Seq<JsonV>, n: int) -> Seq<int>
    decreases n,
{
    if n <= 0 {
        Seq::empty()
    } else if keeps_claim(ms, n - 1) {
        unseated(ms, n - 1)
    } else {
        unseated(ms, n - 1).push(n - 1)
    }
}

/// How many seats before `seat` nobody claims.
pub open spec fn free_before(ms: Seq<JsonV>, seat: int) -> int
    decreases seat,
{
    if seat <= 0 {
        0
    } else {
        free_before(ms, seat - 1) + if claimant(ms, seat - 1, 5) is None {
            1int
        } else {
            0
        }
    }
}

/// Who of a team sits where: a claimed seat goes to its first claimant, the
/// free ones go in order to the unseated, last one first.
pub open spec fn seated(ms: Seq<JsonV>, seat: int) -> int {
    match claimant(ms, seat, 5) {
        Some(i) => i,
        None => unseated(ms, 5)[unseated(ms, 5).len() - 1 - free_before(ms, seat)],
    }
}

spec fn filled(ms: Seq<JsonV>, seat: int, n: int) -> int {
    if claimant(ms, seat, n) is Some {
        1
    } else {
        0
    }
}

proof fn lemma_seat_count(ms: Seq<JsonV>, n: int)
    requires
        0 <= n <= 5,
    ensures
        unseated(ms, n).len() + filled(ms, 0, n) + filled(ms, 1, n) + filled(ms, 2, n) + filled(
            ms,
            3,
            n,
        ) + filled(ms, 4, n) == n,
    decreases n,
{
    if n > 0 {
        lemma_seat_count(ms, n - 1);
    }
}

/// There is somebody for every seat.
pub proof fn lemma_seats(ms: Seq<JsonV>, seat: int)
    requires
        0 <= seat < 5,
    ensures
        free_before(ms, seat) >= 0,
        claimant(ms, seat, 5) is None ==> free_before(ms, seat) < unseated(ms, 5).len(),
        0 <= seated(ms, seat) < 5,
{
    lemma_seat_count(ms, 5);
    reveal_with_fuel(free_before, 6);
    lemma_unseated_range(ms, 5);
    lemma_claimant(ms, seat, 5);
}

proof fn lemma_unseated_range(ms: Seq<JsonV>, n: int)
    requires
        0 <= n,
    ensures
        forall|i: int| 0 <= i < unseated(ms, n).len() ==> 0 <= #[trigger] unseated(ms, n)[i] < n,
    decreases n,
{
    if n > 0 {
        lemma_unseated_range(ms, n - 1);
        let prev = unseated(ms, n - 1);
        let now = unseated(ms, n);
        assert forall|i: int| 0 <= i < now.len() implies 0 <= #[trigger] now[i] < n by {
            if i < prev.len() {
                assert(prev[i] == now[i]);
            }
        }
    }
}

proof fn lemma_claimant(ms: Seq<JsonV>, seat: int, n: int)
    requires
        0 <= n,
    ensures
        claimant(ms, seat, n) matches Some(i) ==> 0 <= i < n && claim(ms[i]) == Some(seat)
            && claimant(ms, seat, i) is None,
    decreases n,
{
    if n > 0 {
        lemma_claimant(ms, seat, n - 1);
    }
}

proof fn lemma_unseated_members(ms: Seq<JsonV>, n: int)
    requires
        0 <= n,
    ensures
        forall|i: int|
            0 <= i < unseated(ms, n).len() ==> !keeps_claim(ms, #[trigger] unseated(ms, n)[i]),
        forall|i: int, j: int|
            0 <= i < j < unseated(ms, n).len() ==> #[trigger] unseated(ms, n)[i]
                < #[trigger] unseated(ms, n)[j],
    decreases n,
{
    if n > 0 {
        lemma_unseated_members(ms, n - 1);
        lemma_unseated_range(ms, n - 1);
        let prev = unseated(ms, n - 1);
        let now = unseated(ms, n);
        assert forall|i: int| 0 <= i < now.len() implies !keeps_claim(
            ms,
            #[trigger] now[i],
        ) by {
            if i < prev.len() {
                assert(prev[i] == now[i]);
            }
        }
        assert forall|i: int, j: int| 0 <= i < j < now.len() implies #[trigger] now[i]
            < #[trigger] now[j] by {
            assert(prev[i] == now[i]);
            if j < prev.len() {
                assert(prev[j] == now[j]);
            }
        }
    }
}

pub proof fn lemma_free_grows(ms: Seq<JsonV>, a: int, b: int)
    requires
        0 <= a < b <= 5,
        claimant(ms, a, 5) is None,
    ensures
        free_before(ms, a) < free_before(ms, b),
    decreases b - a,
{
    if b > a + 1 {
        lemma_free_grows(ms, a, b - 1);
    }
}

/// Repair seats everybody: no two seats of a team go to one participant.
pub proof fn law_seats_are_distinct(ms: Seq<JsonV>, a: int, b: int)
    requires
        0 <= a < b < 5,
    ensures
        0 <= seated(ms, a) < 5,
        0 <= seated(ms, b) < 5,
        seated(ms, a) != seated(ms, b),
{
    lemma_seats(ms, a);
    lemma_seats(ms, b);
    lemma_claimant(ms, a, 5);
    lemma_claimant(ms, b, 5);
    lemma_unseated_members(ms, 5);
    if claimant(ms, a, 5) is None {
        lemma_free_grows(ms, a, b);
    }
}

/// The members of a team: 0 is blue, 1 is red.
pub open spec fn team_members(ps: Seq<JsonV>, team: int) -> Seq<JsonV> {
    ps.subrange(5 * team, 5 * team + 5)
}

/// Where in the document the participant is that the record has at `k`.
pub open spec fn original_index(ps: Seq<JsonV>, k: int) -> int {
    5 * (k / 5) + seated(team_members(ps, k / 5), k % 5)
}

/// The record's index of each participant of the document, after the first
/// `n` of the record have been entered.
pub open spec fn sorted_map(ps: Seq<JsonV>, n: int) -> Seq<int>
    decreases n,
{
    if n <= 0 {
        Seq::new(10, |i: int| 0int)
    } else {
        sorted_map(ps, n - 1).update(original_index(ps, n - 1), n - 1)
    }
}

/// Whether the first five participants are blue and the others red.
pub open spec fn grouped(ps: Seq<JsonV>) -> bool {
    forall|i: int|
        0 <= i < 10 ==> number(#[trigger] ps[i], "teamId"@) == (if i < 5 {
            100int
        } else {
            200
        })
}

pub open spec fn clamped_numbers(items: Seq<JsonV>, key: Seq<char>) -> Seq<u32> {
    items.map_values(|j: JsonV| clamped(number(j, key)))
}

/// The perks that the first `n` rune styles select.
pub open spec fn perks(styles: Seq<JsonV>, n: int) -> Seq<u32>
    decreases n,
{
    if n <= 0 {
        Seq::empty()
    } else {
        perks(styles, n - 1) + match array_member(styles[n - 1], "selections"@) {
            Some(sels) => clamped_numbers(sels, "perk"@),
            None => Seq::empty(),
        }
    }
}

/// A participant's runes: style ids, perks, stat perks.
pub open spec fn runes_of(p: JsonV) -> Seq<u32> {
    match member(p, "perks"@) {
        None => Seq::empty(),
        Some(pk) => {
            let picked = match array_member(pk, "styles"@) {
                Some(styles) => clamped_numbers(styles, "style"@) + perks(
                    styles,
                    styles.len() as int,
                ),
                None => Seq::empty(),
            };
            let stat = match member(pk, "statPerks"@) {
                Some(sp) => seq![
                    clamped(number(sp, "offense"@)),
                    clamped(number(sp, "flex"@)),
                    clamped(number(sp, "defense"@)),
                ],
                None => Seq::empty(),
            };
            picked + stat
        },
    }
}

pub open spec fn stats_of(p: JsonV) -> Seq<i64> {
    Seq::new(STAT_COUNT as nat, |i: int| number(p, STAT_FIELDS_V1@[i]@) as i64)
}

/// A participant of the record in seat `seat`, with no player id yet.
pub open spec fn participant_of(p: JsonV, seat: int) -> FlatV {
    FlatV {
        row: seq![
            0u32,
            clamped(number(p, "championId"@)),
            seat as u32,
            clamped(number(p, "summoner1Id"@)),
            clamped(number(p, "summoner2Id"@)),
        ],
        lists: seq![ints(runes_of(p)), zigzags(stats_of(p))],
    }
}

/// The bans of the first `n` teams.
pub open spec fn bans_of(teams: Seq<JsonV>, n: int) -> Seq<u32>
    decreases n,
{
    if n <= 0 {
        Seq::empty()
    } else {
        bans_of(teams, n - 1) + match array_member(teams[n - 1], "bans"@) {
            Some(bans) => clamped_numbers(bans, "championId"@),
            None => Seq::empty(),
        }
    }
}

/// Whether the first blue team from `i` on won.
pub open spec fn blue_wins(teams: Seq<JsonV>, i: int) -> bool
    decreases teams.len() - i,
{
    if i < 0 || i >= teams.len() {
        false
    } else if number(teams[i], "teamId"@) == 100 {
        member(teams[i], "win"@) == Some(JsonV::Bool(true))
    } else {
        blue_wins(teams, i + 1)
    }
}

/// The number that part `k` of a dotted version writes, or 0.
pub open spec fn version_part(s: Seq<char>, k: int) -> u32
    decreases k,
{
    match first_index(s, '.', 0) {
        Some(dot) => if k <= 0 {
            u32_or_zero(s.take(dot))
        } else {
            version_part(s.skip(dot + 1), k - 1)
        },
        None => if k <= 0 {
            u32_or_zero(s)
        } else {
            0
        },
    }
}

pub open spec fn u32_or_zero(s: Seq<char>) -> u32 {
    match parsed_unsigned(s, u32::MAX as int) {
        Some(v) => v as u32,
        None => 0,
    }
}

/// Seconds; some old documents give milliseconds.
pub open spec fn duration_of(info: JsonV) -> u32 {
    let d = number(info, "gameDuration"@);
    clamped(
        if d > 30_000 {
            d / 1000
        } else {
            d
        },
    )
}

pub open spec fn start_of(info: JsonV) -> i64 {
    let ts = number(info, "gameStartTimestamp"@);
    if ts > 0 {
        ts as i64
    } else {
        number(info, "gameCreation"@) as i64
    }
}

pub open spec fn teams_of(info: JsonV) -> Seq<JsonV> {
    match array_member(info, "teams"@) {
        Some(teams) => teams,
        None => Seq::empty(),
    }
}

/// The record of a match, given its timeline.
pub open spec fn record_of(
    info: JsonV,
    platform: Seq<char>,
    game_id: u64,
    ps: Seq<JsonV>,
    timeline: Option<Seq<Seq<FlatV>>>,
) -> ParsedV {
    let teams = teams_of(info);
    let version = text_member(info, "gameVersion"@);
    ParsedV {
        record: RecordV {
            schema_version: SCHEMA_VERSION,
            game_id,
            platform: encode_utf8(platform),
            queue_id: clamped(number(info, "queueId"@)),
            game_start_ms: start_of(info),
            duration_s: duration_of(info),
            blue_won: blue_wins(teams, 0),
            game_version: encode_utf8(version),
            patch_major: version_part(version, 0),
            patch_minor: version_part(version, 1),
            participants: Seq::new(
                10,
                |k: int| participant_of(ps[original_index(ps, k)], k % 5),
            ),
            timeline,
            bans: bans_of(teams, teams.len() as int),
        },
        puuids: Seq::new(10, |k: int| text_member(ps[original_index(ps, k)], "puuid"@)),
    }
}

/// The timeline part of a record.
pub open spec fn timeline_part(input: TimelineInputV, map: Seq<int>) -> Result<
    Option<Seq<Seq<FlatV>>>,
    ParseError,
> {
    match input {
        TimelineInputV::Absent => Ok(None),
        TimelineInputV::NotJson => Err(ParseError::BadTimelineJson),
        TimelineInputV::Document(t) => match parsed_timeline(t, map) {
            Ok(tl) => Ok(Some(tl)),
            Err(e) => Err(e),
        },
    }
}

/// The record that a match document and a timeline make.
pub open spec fn parsed_match(m: JsonV, timeline: TimelineInputV) -> Result<ParsedV, ParseError> {
    match member(m, "info"@) {
        None => Err(ParseError::NoInfo),
        Some(info) => match member(m, "metadata"@) {
            None => Err(ParseError::NoMetadata),
            Some(metadata) => match split_id(text_member(metadata, "matchId"@)) {
                Err(e) => Err(ParseError::MatchId(e)),
                Ok((platform, game_id)) => match array_member(info, "participants"@) {
                    None => Err(ParseError::NoParticipants),
                    Some(ps) => if ps.len() != 10 {
                        Err(ParseError::ParticipantCount(ps.len() as usize))
                    } else if !grouped(ps) {
                        Err(ParseError::NotGrouped)
                    } else {
                        match timeline_part(timeline, sorted_map(ps, 10)) {
                            Err(e) => Err(e),
                            Ok(t) => Ok(record_of(info, platform, game_id, ps, t)),
                        }
                    },
                },
            },
        },
    }
}

/// The record that a match text and a timeline text make.
pub open spec fn parsed_texts(match_json: Seq<char>, timeline_json: Option<Seq<char>>) -> Result<
    ParsedV,
    ParseError,
> {
    match document(match_json) {
        None => Err(ParseError::BadJson),
        Some(m) => parsed_match(
            m,
            match timeline_json {
                None => TimelineInputV::Absent,
                Some(t) => match document(t) {
                    None => TimelineInputV::NotJson,
                    Some(d) => TimelineInputV::Document(d),
                },
            },
        ),
    }
}

/// Who of a team sits where.
fn seat_team(ps: &Vec<Json>, team: usize) -> (seats: Vec<usize>)
    requires
        ps@.len() == 10,
        team < 2,
    ensures
        seats@.len() == 5,
        forall|s: int|
            0 <= s < 5 ==> #[trigger] seats@[s] == seated(
                team_members(json_views(ps@), team as int),
                s,
            ) && seats@[s] < 5,
{
    let ghost ms = team_members(json_views(ps@), team as int);
    let mut slot_of: Vec<Option<usize>> = vec![None, None, None, None, None];
    let mut unplaced: Vec<usize> = Vec::new();
    let mut i: usize = 0;
    while i < 5
        invariant
            i <= 5,
            team < 2,
            ps@.len() == 10,
            ms == team_members(json_views(ps@), team as int),
            slot_of@.len() == 5,
            forall|s: int|
                0 <= s < 5 ==> match #[trigger] slot_of@[s] {
                    Some(k) => claimant(ms, s, i as int) == Some(k as int),
                    None => claimant(ms, s, i as int) is None,
                },
            indices(unplaced@) == unseated(ms, i as int),
        decreases 5 - i,
    {
        let p = &ps[5 * team + i];
        assert(ms[i as int] == p@);
        let ghost was = indices(unplaced@);
        match seat_index(get_text(p, "teamPosition")) {
            Some(slot) => {
                if slot_of[slot].is_none() {
                    slot_of.set(slot, Some(i));
                } else {
                    unplaced.push(i);
                    assert(indices(unplaced@) =~= was.push(i as int));
                }
            },
            None => {
                unplaced.push(i);
                assert(indices(unplaced@) =~= was.push(i as int));
            },
        }
        i = i + 1;
    }
    let ghost left = unseated(ms, 5);
    let mut seats: Vec<usize> = Vec::new();
    let mut slot: usize = 0;
    proof {
        assert(left.take(left.len() as int) =~= left);
    }
    while slot < 5
        invariant
            slot <= 5,
            slot_of@.len() == 5,
            seats@.len() == slot,
            left == unseated(ms, 5),
            forall|s: int|
                0 <= s < 5 ==> match #[trigger] slot_of@[s] {
                    Some(k) => claimant(ms, s, 5) == Some(k as int),
                    None => claimant(ms, s, 5) is None,
                },
            0 <= free_before(ms, slot as int) <= left.len(),
            indices(unplaced@) == left.take(left.len() - free_before(ms, slot as int)),
            forall|s: int|
                0 <= s < slot ==> #[trigger] seats@[s] == seated(ms, s) && seats@[s] < 5,
        decreases 5 - slot,
    {
        proof {
            lemma_seats(ms, slot as int);
            assert(slot_of@[slot as int] is Some || slot_of@[slot as int] is None);
        }
        match slot_of[slot] {
            Some(k) => {
                seats.push(k);
            },
            None => {
                let ghost before = unplaced@;
                let ghost n = left.len() - free_before(ms, slot as int);
                assert(indices(before).len() == before.len());
                assert(left.take(n).len() == n);
                assert(indices(before)[n - 1] == left[n - 1]);
                match unplaced.pop() {
                    Some(k) => {
                        seats.push(k);
                    },
                    None => {},
                }
                assert(indices(unplaced@) =~= left.take(n - 1));
            },
        }
        slot = slot + 1;
    }
    seats
}

fn check_grouped(ps: &Vec<Json>) -> (res: bool)
    requires
        ps@.len() == 10,
    ensures
        res == grouped(json_views(ps@)),
{
    let ghost all = json_views(ps@);
    let mut i: usize = 0;
    while i < 10
        invariant
            i <= 10,
            ps@.len() == 10,
            all == json_views(ps@),
            forall|j: int|
                0 <= j < i ==> number(#[trigger] all[j], "teamId"@) == (if j < 5 {
                    100int
                } else {
                    200
                }),
        decreases 10 - i,
    {
        assert(all[i as int] == ps@[i as int]@);
        let want: i64 = if i < 5 {
            100
        } else {
            200
        };
        if get_number(&ps[i], "teamId") != want {
            return false;
        }
        i = i + 1;
    }
    true
}

/// Appends a clamped number of each item.
fn push_numbers(out: &mut Vec<u32>, items: &Vec<Json>, key: &str)
    ensures
        final(out)@ == old(out)@ + clamped_numbers(json_views(items@), key@),
{
    let ghost all = clamped_numbers(json_views(items@), key@);
    let mut i: usize = 0;
    assert(out@ =~= old(out)@ + all.take(0));
    while i < items.len()
        invariant
            i <= items@.len(),
            all == clamped_numbers(json_views(items@), key@),
            out@ == old(out)@ + all.take(i as int),
        decreases items@.len() - i,
    {
        out.push(clamp(get_number(&items[i], key)));
        assert(out@ =~= old(out)@ + all.take(i + 1));
        i = i + 1;
    }
    assert(all.take(i as int) =~= all);
}

fn read_runes(p: &Json) -> (runes: Vec<u32>)
    ensures
        runes@ == runes_of(p@),
{
    let mut runes: Vec<u32> = Vec::new();
    let pk = match get(p, "perks") {
        Some(pk) => pk,
        None => {
            assert(runes@ =~= runes_of(p@));
            return runes;
        },
    };
    match get_array(pk, "styles") {
        Some(styles) => {
            push_numbers(&mut runes, styles, "style");
            let ghost all = json_views(styles@);
            let ghost ids = runes@;
            let mut i: usize = 0;
            assert(runes@ =~= ids + perks(all, 0));
            while i < styles.len()
                invariant
                    i <= styles@.len(),
                    all == json_views(styles@),
                    runes@ == ids + perks(all, i as int),
                decreases styles@.len() - i,
            {
                assert(all[i as int] == styles@[i as int]@);
                match get_array(&styles[i], "selections") {
                    Some(sels) => {
                        push_numbers(&mut runes, sels, "perk");
                    },
                    None => {},
                }
                assert(runes@ =~= ids + perks(all, i + 1));
                i = i + 1;
            }
            assert(ids =~= clamped_numbers(all, "style"@));
        },
        None => {},
    }
    let ghost picked = runes@;
    match get(pk, "statPerks") {
        Some(sp) => {
            runes.push(clamp(get_number(sp, "offense")));
            runes.push(clamp(get_number(sp, "flex")));
            runes.push(clamp(get_number(sp, "defense")));
        },
        None => {},
    }
    assert(runes@ =~= runes_of(p@));
    runes
}

fn read_stats(p: &Json) -> (stats: Vec<i64>)
    ensures
        stats@ == stats_of(p@),
{
    let mut stats: Vec<i64> = Vec::new();
    let mut i: usize = 0;
    while i < STAT_COUNT
        invariant
            i <= STAT_COUNT,
            stats@ == stats_of(p@).take(i as int),
        decreases STAT_COUNT - i,
    {
        stats.push(get_number(p, STAT_FIELDS_V1[i]));
        assert(stats@ =~= stats_of(p@).take(i + 1));
        i = i + 1;
    }
    assert(stats_of(p@).take(i as int) =~= stats_of(p@));
    stats
}

fn read_participant(p: &Json, seat: usize) -> (res: Participant)
    requires
        seat < 5,
    ensures
        res@ == participant_of(p@, seat as int),
{
    let q = Participant {
        player_id: 0,
        champion_id: clamp(get_number(p, "championId")),
        position: seat as u32,
        spell1: clamp(get_number(p, "summoner1Id")),
        spell2: clamp(get_number(p, "summoner2Id")),
        runes: read_runes(p),
        stats: read_stats(p),
    };
    assert(q@ =~= participant_of(p@, seat as int));
    q
}

fn read_bans(teams: &Vec<Json>) -> (bans: Vec<u32>)
    ensures
        bans@ == bans_of(json_views(teams@), teams@.len() as int),
{
    let ghost all = json_views(teams@);
    let mut bans: Vec<u32> = Vec::new();
    let mut i: usize = 0;
    while i < teams.len()
        invariant
            i <= teams@.len(),
            all == json_views(teams@),
            bans@ == bans_of(all, i as int),
        decreases teams@.len() - i,
    {
        assert(all[i as int] == teams@[i as int]@);
        match get_array(&teams[i], "bans") {
            Some(items) => {
                push_numbers(&mut bans, items, "championId");
            },
            None => {},
        }
        assert(bans@ =~= bans_of(all, i + 1));
        i = i + 1;
    }
    bans
}

fn read_blue_won(teams: &Vec<Json>) -> (res: bool)
    ensures
        res == blue_wins(json_views(teams@), 0),
{
    let ghost all = json_views(teams@);
    let mut i: usize = 0;
    while i < teams.len()
        invariant
            i <= teams@.len(),
            all == json_views(teams@),
            blue_wins(all, 0) == blue_wins(all, i as int),
        decreases teams@.len() - i,
    {
        assert(all[i as int] == teams@[i as int]@);
        if get_number(&teams[i], "teamId") == 100 {
            return match get(&teams[i], "win") {
                Some(w) => match w {
                    Json::Bool(b) => *b,
                    _ => false,
                },
                None => false,
            };
        }
        i = i + 1;
    }
    false
}

fn parse_u32_or_zero(s: &Vec<char>) -> (res: u32)
    ensures
        res == u32_or_zero(s@),
{
    match parse_unsigned(s, 0xffff_ffff) {
        Some(v) => v as u32,
        None => 0,
    }
}

fn copy_chars(s: &Vec<char>, from: usize, to: usize) -> (res: Vec<char>)
    requires
        from <= to <= s@.len(),
    ensures
        res@ == s@.subrange(from as int, to as int),
{
    let mut res: Vec<char> = Vec::new();
    let mut i: usize = from;
    while i < to
        invariant
            from <= i <= to <= s@.len(),
            res@ == s@.subrange(from as int, i as int),
        decreases to - i,
    {
        res.push(s[i]);
        assert(res@ =~= s@.subrange(from as int, i + 1));
        i = i + 1;
    }
    res
}

/// The first two parts of a dotted version.
fn read_version(version: &str) -> (res: (u32, u32))
    ensures
        res.0 == version_part(version@, 0),
        res.1 == version_part(version@, 1),
{
    proof {
        reveal_with_fuel(version_part, 3);
    }
    let s = chars_of(version);
    let dot: usize = match find_char(&s, '.', 0) {
        Some(dot) => dot,
        None => {
            return (parse_u32_or_zero(&s), 0);
        },
    };
    assert(s.len() == s@.len());
    let first = copy_chars(&s, 0, dot);
    let rest = copy_chars(&s, dot + 1, s.len());
    proof {
        assert(first@ =~= s@.take(dot as int));
        assert(rest@ =~= s@.skip(dot + 1));
    }
    let minor: u32 = match find_char(&rest, '.', 0) {
        Some(end) => {
            let second = copy_chars(&rest, 0, end);
            assert(second@ =~= rest@.take(end as int));
            parse_u32_or_zero(&second)
        },
        None => parse_u32_or_zero(&rest),
    };
    (parse_u32_or_zero(&first), minor)
}

/// The players' order in the record: for each index of the record, where in
/// the document the participant is.
fn order_participants(ps: &Vec<Json>) -> (order: Vec<usize>)
    requires
        ps@.len() == 10,
    ensures
        order@.len() == 10,
        forall|k: int|
            0 <= k < 10 ==> #[trigger] order@[k] == original_index(json_views(ps@), k)
                && order@[k] < 10,
{
    let blue = seat_team(ps, 0);
    let red = seat_team(ps, 1);
    let ghost all = json_views(ps@);
    let mut order: Vec<usize> = Vec::new();
    let mut k: usize = 0;
    while k < 10
        invariant
            k <= 10,
            blue@.len() == 5,
            red@.len() == 5,
            forall|s: int|
                0 <= s < 5 ==> #[trigger] blue@[s] == seated(team_members(all, 0), s) && blue@[s]
                    < 5,
            forall|s: int|
                0 <= s < 5 ==> #[trigger] red@[s] == seated(team_members(all, 1), s) && red@[s]
                    < 5,
            order@.len() == k,
            forall|j: int|
                0 <= j < k ==> #[trigger] order@[j] == original_index(all, j) && order@[j] < 10,
        decreases 10 - k,
    {
        if k < 5 {
            assert(blue@[k as int] == seated(team_members(all, 0), k as int));
            order.push(blue[k]);
        } else {
            assert(red@[k - 5] == seated(team_members(all, 1), k - 5));
            order.push(5 + red[k - 5]);
        }
        k = k + 1;
    }
    order
}

fn invert_order(order: &Vec<usize>, Ghost(ps): Ghost<Seq<JsonV>>) -> (map: Vec<usize>)
    requires
        order@.len() == 10,
        forall|k: int|
            0 <= k < 10 ==> #[trigger] order@[k] == original_index(ps, k) && order@[k] < 10,
    ensures
        indices(map@) == sorted_map(ps, 10),
        map_ok(indices(map@)),
{
    let mut map: Vec<usize> = vec![0, 0, 0, 0, 0, 0, 0, 0, 0, 0];
    let mut k: usize = 0;
    assert(indices(map@) =~= sorted_map(ps, 0));
    while k < 10
        invariant
            k <= 10,
            order@.len() == 10,
            map@.len() == 10,
            forall|j: int| 0 <= j < 10 ==> #[trigger] map@[j] < 10,
            forall|j: int|
                0 <= j < 10 ==> #[trigger] order@[j] == original_index(ps, j) && order@[j] < 10,
            indices(map@) == sorted_map(ps, k as int),
        decreases 10 - k,
    {
        let ghost was = indices(map@);
        assert(order@[k as int] == original_index(ps, k as int));
        map.set(order[k], k);
        assert(indices(map@) =~= was.update(order@[k as int] as int, k as int));
        k = k + 1;
    }
    map
}

/// Reads a match document and, where there is one, its timeline document.
/// Participants come out blue team first, each team in seat order; player ids
/// are left for the store to assign.
pub fn parse_match_values(m: &Json, timeline: &TimelineInput) -> (res: Result<
    ParsedMatch,
    ParseError,
>)
    ensures
        match parsed_match(m@, timeline@) {
            Ok(p) => res is Ok && (res->Ok_0)@ == p,
            Err(e) => res == Err::<ParsedMatch, ParseError>(e),
        },
{
    let info = match get(m, "info") {
        Some(info) => info,
        None => {
            return Err(ParseError::NoInfo);
        },
    };
    let metadata = match get(m, "metadata") {
        Some(metadata) => metadata,
        None => {
            return Err(ParseError::NoMetadata);
        },
    };
    let (platform, game_id): (&str, u64) = match split_match_id(get_text(metadata, "matchId")) {
        Ok(id) => id,
        Err(e) => {
            return Err(ParseError::MatchId(e));
        },
    };
    let ps = match get_array(info, "participants") {
        Some(ps) => ps,
        None => {
            return Err(ParseError::NoParticipants);
        },
    };
    let ghost all = json_views(ps@);
    assert(all.len() == ps@.len());
    if ps.len() != 10 {
        return Err(ParseError::ParticipantCount(ps.len()));
    }
    if !check_grouped(ps) {
        return Err(ParseError::NotGrouped);
    }
    let order = order_participants(ps);
    let map = invert_order(&order, Ghost(all));
    let tl = match timeline {
        TimelineInput::Absent => None,
        TimelineInput::NotJson => {
            return Err(ParseError::BadTimelineJson);
        },
        TimelineInput::Document(t) => match parse_timeline(t, &map) {
            Ok(tl) => Some(tl),
            Err(e) => {
                return Err(e);
            },
        },
    };
    let ghost tl_view = match &tl {
        Some(t) => Some(t@),
        None => None,
    };
    let mut participants: Vec<Participant> = Vec::new();
    let mut puuids: Vec<String> = Vec::new();
    let mut k: usize = 0;
    while k < 10
        invariant
            k <= 10,
            ps@.len() == 10,
            all == json_views(ps@),
            order@.len() == 10,
            forall|j: int|
                0 <= j < 10 ==> #[trigger] order@[j] == original_index(all, j) && order@[j] < 10,
            participants@.len() == k,
            puuids@.len() == k,
            forall|j: int|
                0 <= j < k ==> (#[trigger] participants@[j])@ == participant_of(
                    all[original_index(all, j)],
                    j % 5,
                ),
            forall|j: int|
                0 <= j < k ==> (#[trigger] puuids@[j])@ == text_member(
                    all[original_index(all, j)],
                    "puuid"@,
                ),
        decreases 10 - k,
    {
        assert(order@[k as int] == original_index(all, k as int));
        let p = &ps[order[k]];
        assert(all[order@[k as int] as int] == p@);
        participants.push(read_participant(p, k % 5));
        puuids.push(get_text(p, "puuid").to_owned());
        k = k + 1;
    }
    let (bans, blue_won): (Vec<u32>, bool) = match get_array(info, "teams") {
        Some(teams) => {
            assert(json_views(teams@).len() == teams@.len());
            (read_bans(teams), read_blue_won(teams))
        },
        None => {
            let none: Vec<u32> = Vec::new();
            assert(none@ =~= bans_of(Seq::empty(), 0));
            (none, false)
        },
    };
    let raw_duration: i64 = get_number(info, "gameDuration");
    let duration: i64 = if raw_duration > 30_000 {
        raw_duration / 1000
    } else {
        raw_duration
    };
    let ts: i64 = get_number(info, "gameStartTimestamp");
    let game_start_ms: i64 = if ts > 0 {
        ts
    } else {
        get_number(info, "gameCreation")
    };
    let version = get_text(info, "gameVersion");
    let (patch_major, patch_minor): (u32, u32) = read_version(version);
    let record = MatchRecord {
        schema_version: SCHEMA_VERSION,
        game_id,
        platform: platform.to_owned(),
        queue_id: clamp(get_number(info, "queueId")),
        game_start_ms,
        duration_s: clamp(duration),
        blue_won,
        game_version: version.to_owned(),
        patch_major,
        patch_minor,
        participants,
        timeline: tl,
        bans,
    };
    let parsed = ParsedMatch { record, puuids };
    proof {
        let want = record_of(info@, platform@, game_id, all, tl_view);
        assert(parsed@.record.participants =~= want.record.participants);
        assert(parsed@.puuids =~= want.puuids);
        assert(parsed@.record =~= want.record);
        assert(parsed@ =~= want);
    }
    Ok(parsed)
}

/// Parses the texts of a match and, where there is one, its timeline.
pub fn parse_match(match_json: &str, timeline_json: Option<&str>) -> (res: Result<
    ParsedMatch,
    ParseError,
>)
    ensures
        match parsed_texts(
            match_json@,
            match timeline_json {
                Some(t) => Some(t@),
                None => None,
            },
        ) {
            Ok(p) => res is Ok && (res->Ok_0)@ == p,
            Err(e) => res == Err::<ParsedMatch, ParseError>(e),
        },
{
    let m = match parse_json(match_json) {
        Some(m) => m,
        None => {
            return Err(ParseError::BadJson);
        },
    };
    let timeline = match timeline_json {
        None => TimelineInput::Absent,
        Some(text) => match parse_json(text) {
            Some(t) => TimelineInput::Document(t),
            None => TimelineInput::NotJson,
        },
    };
    parse_match_values(&m, &timeline)
}

/// Every record that comes of a parse has ten participants, five a team in
/// seat order, and one player id text for each.
pub proof fn law_parsed_match_shape(m: JsonV, timeline: TimelineInputV, k: int)
    requires
        parsed_match(m, timeline) is Ok,
        0 <= k < 10,
    ensures
        ({
            let p = parsed_match(m, timeline)->Ok_0;
            &&& p.record.participants.len() == 10
            &&& p.puuids.len() == 10
            &&& p.record.participants[k].row[2] == k % 5
            &&& p.record.participants[k].lists[1].len() == STAT_COUNT
        }),
{
}

} // verus!
