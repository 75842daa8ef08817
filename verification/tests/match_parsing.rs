//! Reading matches out of the answers of the game's servers.

use lol_crawler::config::enabled_regions;
use lol_crawler::intake::{take_match, take_parsed, Occasion, TakeError, Taken};
use lol_crawler::json::{json_equal, parse_json, Json};
use lol_crawler::parse::{
    parse_match, split_match_id, MatchIdError, ParseError, ATAKHAN, BARON, DRAGON, ELDER_DRAGON,
    HORDE, INHIBITOR, LANE_BOT, LANE_MID, LANE_NONE, LANE_TOP, NO_PARTICIPANT, OTHER_BUILDING,
    OTHER_MONSTER, PLATE, RIFT_HERALD, STAT_FIELDS_V1, TOWER, WARD_KILLED, WARD_PLACED,
};
use lol_crawler::record::MatchRecord;
use lol_crawler::store::{PlatformRows, Store, StoreRows};

/// A participant with a team and a position.
fn participant(i: usize, team: u32, position: &str) -> String {
    format!(
        "{{\"puuid\":\"p{i}\",\"teamId\":{team},\"teamPosition\":\"{position}\",\
         \"championId\":{},\"summoner1Id\":4,\"summoner2Id\":-1,\"kills\":{i},\"win\":{},\
         \"perks\":{{\"statPerks\":{{\"offense\":1,\"flex\":2,\"defense\":3}},\"styles\":[\
         {{\"style\":80,\"selections\":[{{\"perk\":81}}]}},\
         {{\"style\":90,\"selections\":[{{\"perk\":91}}]}}]}}}}",
        100 + i,
        team == 100,
    )
}

/// Ten participants, each team in the order of the positions.
fn players() -> Vec<String> {
    let positions = ["TOP", "JUNGLE", "MIDDLE", "BOTTOM", "UTILITY"];
    (0..10).map(|i| participant(i, if i < 5 { 100 } else { 200 }, positions[i % 5])).collect()
}

fn match_text(match_id: &str, queue: i64, players: &[String]) -> String {
    format!(
        "{{\"metadata\":{{\"matchId\":\"{match_id}\"}},\"info\":{{\"queueId\":{queue},\
         \"gameDuration\":1800,\"gameStartTimestamp\":1700000000000,\"gameCreation\":5,\
         \"gameVersion\":\"16.7.123\",\"participants\":[{}],\"teams\":[\
         {{\"teamId\":100,\"win\":true,\"bans\":[{{\"championId\":1}},{{\"championId\":-1}}]}},\
         {{\"teamId\":200,\"win\":false,\"bans\":[{{\"championId\":3}}]}}]}}}}",
        players.join(","),
    )
}

fn error_of(text: &str, timeline: Option<&str>) -> ParseError {
    parse_match(text, timeline).map(|_| ()).unwrap_err()
}

#[test]
fn split_ids() {
    assert_eq!(split_match_id("EUW1_7819712430").unwrap(), ("EUW1", 7819712430));
    assert!(split_match_id("garbage").is_err());
}

#[test]
fn ids_that_do_not_split() {
    assert_eq!(split_match_id("garbage"), Err(MatchIdError::NoUnderscore));
    assert_eq!(split_match_id("KR_"), Err(MatchIdError::BadNumber));
    assert_eq!(split_match_id("KR_1_2"), Err(MatchIdError::BadNumber));
    assert_eq!(split_match_id("KR_99999999999999999999"), Err(MatchIdError::BadNumber));
    assert_eq!(split_match_id("_7"), Ok(("", 7)));
}

#[test]
fn a_match_is_read() {
    let p = parse_match(&match_text("EUW1_77", 420, &players()), None).unwrap();
    let r = &p.record;
    assert_eq!((r.schema_version, r.game_id, r.platform.as_str()), (1, 77, "EUW1"));
    assert_eq!((r.queue_id, r.duration_s, r.game_start_ms), (420, 1_800, 1_700_000_000_000));
    assert_eq!((r.patch_major, r.patch_minor), (16, 7));
    assert_eq!(r.game_version, "16.7.123");
    assert!(r.blue_won);
    assert_eq!(r.bans, vec![1, 0, 3]);
    assert!(r.timeline.is_none());
    assert_eq!(r.participants.len(), 10);
    assert_eq!(p.puuids[3], "p3");
    let kills = STAT_FIELDS_V1.iter().position(|f| *f == "kills").unwrap();
    let win = STAT_FIELDS_V1.iter().position(|f| *f == "win").unwrap();
    for (i, q) in r.participants.iter().enumerate() {
        assert_eq!(q.position, (i % 5) as u32);
        assert_eq!((q.player_id, q.champion_id, q.spell1, q.spell2), (0, 100 + i as u32, 4, 0));
        assert_eq!(q.runes, vec![80, 90, 81, 91, 1, 2, 3]);
        assert_eq!(q.stats.len(), STAT_FIELDS_V1.len());
        assert_eq!(q.stats[kills], i as i64);
        assert_eq!(q.stats[win], (i < 5) as i64);
    }
    assert_eq!(MatchRecord::decode(&r.encode_to_vec()).unwrap(), *r);
}

#[test]
fn players_are_ordered_by_position() {
    let mut list = players();
    list[0] = participant(0, 100, "UTILITY");
    list[4] = participant(4, 100, "TOP");
    // No position, and one that is taken: the free places, from the last
    // player on.
    list[6] = participant(6, 200, "");
    list[7] = participant(7, 200, "TOP");
    let p = parse_match(&match_text("KR_1", 420, &list), None).unwrap();
    assert_eq!(p.puuids, ["p4", "p1", "p2", "p3", "p0", "p5", "p7", "p6", "p8", "p9"]);
}

#[test]
fn old_durations_are_in_milliseconds() {
    let text = match_text("KR_1", 420, &players());
    let old = text.replace("\"gameDuration\":1800", "\"gameDuration\":1800500");
    assert_eq!(parse_match(&old, None).unwrap().record.duration_s, 1_800);
    let odd = text.replace("\"gameDuration\":1800", "\"gameDuration\":-5");
    assert_eq!(parse_match(&odd, None).unwrap().record.duration_s, 0);
    let early = text.replace("\"gameStartTimestamp\":1700000000000,", "");
    assert_eq!(parse_match(&early, None).unwrap().record.game_start_ms, 5);
    let version = text.replace("16.7.123", "x");
    let r = parse_match(&version, None).unwrap().record;
    assert_eq!((r.patch_major, r.patch_minor), (0, 0));
}

#[test]
fn matches_that_cannot_be_read() {
    assert_eq!(error_of("{", None), ParseError::BadJson);
    assert_eq!(error_of("{\"metadata\":{}}", None), ParseError::NoInfo);
    assert_eq!(error_of("{\"info\":{}}", None), ParseError::NoMetadata);
    assert_eq!(
        error_of("{\"info\":{},\"metadata\":{}}", None),
        ParseError::MatchId(MatchIdError::NoUnderscore)
    );
    assert_eq!(
        error_of("{\"info\":{},\"metadata\":{\"matchId\":\"KR_x\"}}", None),
        ParseError::MatchId(MatchIdError::BadNumber)
    );
    assert_eq!(
        error_of("{\"info\":{},\"metadata\":{\"matchId\":\"KR_1\"}}", None),
        ParseError::NoParticipants
    );
    let list = players();
    assert_eq!(error_of(&match_text("KR_1", 420, &list[..9]), None), ParseError::ParticipantCount(9));
    let mut mixed = list.clone();
    mixed.swap(0, 9);
    assert_eq!(error_of(&match_text("KR_1", 420, &mixed), None), ParseError::NotGrouped);
    let good = match_text("KR_1", 420, &list);
    assert_eq!(error_of(&good, Some("[")), ParseError::BadTimelineJson);
    assert_eq!(error_of(&good, Some("{\"info\":{}}")), ParseError::NoTimelineFrames);
}

#[test]
fn a_timeline_is_read() {
    let mut list = players();
    // The first two of the blue team change places.
    list[0] = participant(0, 100, "JUNGLE");
    list[1] = participant(1, 100, "TOP");
    let good = match_text("KR_1", 420, &list);
    let timeline = "{\"info\":{\"frames\":[{\"participantFrames\":{\
        \"1\":{\"totalGold\":500,\"xp\":7,\"minionsKilled\":3,\"jungleMinionsKilled\":4,\
               \"damageStats\":{\"totalDamageDoneToChampions\":99}},\
        \"2\":{\"totalGold\":-1},\"11\":{\"totalGold\":1},\"x\":{\"totalGold\":1}},\
        \"events\":[\
        {\"type\":\"CHAMPION_KILL\",\"timestamp\":61999,\"killerId\":1,\"victimId\":10,\
         \"assistingParticipantIds\":[2,3,0],\"position\":{\"x\":5,\"y\":-6}},\
        {\"type\":\"CHAMPION_KILL\",\"timestamp\":1,\"killerId\":0,\"victimId\":2},\
        {\"type\":\"ELITE_MONSTER_KILL\",\"monsterType\":\"DRAGON\",\"killerId\":2},\
        {\"type\":\"ELITE_MONSTER_KILL\",\"monsterType\":\"DRAGON\",\
         \"monsterSubType\":\"ELDER_DRAGON\"},\
        {\"type\":\"ELITE_MONSTER_KILL\",\"monsterType\":\"RIFTHERALD\"},\
        {\"type\":\"ELITE_MONSTER_KILL\",\"monsterType\":\"BARON_NASHOR\"},\
        {\"type\":\"ELITE_MONSTER_KILL\",\"monsterType\":\"HORDE\"},\
        {\"type\":\"ELITE_MONSTER_KILL\",\"monsterType\":\"ATAKHAN\"},\
        {\"type\":\"ELITE_MONSTER_KILL\",\"monsterType\":\"GROMP\"},\
        {\"type\":\"BUILDING_KILL\",\"buildingType\":\"TOWER_BUILDING\",\"teamId\":200,\
         \"laneType\":\"TOP_LANE\",\"killerId\":3},\
        {\"type\":\"BUILDING_KILL\",\"buildingType\":\"INHIBITOR_BUILDING\",\"teamId\":100,\
         \"laneType\":\"MID_LANE\"},\
        {\"type\":\"BUILDING_KILL\",\"laneType\":\"?\"},\
        {\"type\":\"TURRET_PLATE_DESTROYED\",\"teamId\":100,\"laneType\":\"BOT_LANE\",\
         \"killerId\":1},\
        {\"type\":\"WARD_PLACED\",\"creatorId\":1},{\"type\":\"WARD_KILL\",\"killerId\":99},\
        {\"type\":\"LEVEL_UP\"}]},{}]}}";
    let tl = parse_match(&good, Some(timeline)).unwrap().record.timeline.unwrap();
    assert_eq!(tl.frames.len(), 2);
    // Participant 1 of the answer is the second of the record.
    let f = &tl.frames[0];
    assert_eq!((f.total_gold[1], f.xp[1], f.cs[1], f.dmg_to_champs[1]), (500, 7, 7, 99));
    assert_eq!(f.total_gold[0], 0);
    assert_eq!(f.total_gold.iter().sum::<u32>(), 500);
    assert_eq!(tl.frames[1].minute, 1);
    assert_eq!(tl.frames[1].xp, vec![0; 10]);
    assert_eq!(tl.kills.len(), 2);
    let k = &tl.kills[0];
    assert_eq!((k.t_s, k.killer, k.victim, k.assist_mask, k.x, k.y), (61, 1, 9, 0b101, 5, 0));
    assert_eq!((tl.kills[1].killer, tl.kills[1].victim), (NO_PARTICIPANT, 0));
    let kinds: Vec<u32> = tl.objectives.iter().map(|o| o.kind).collect();
    assert_eq!(
        kinds,
        [
            DRAGON,
            ELDER_DRAGON,
            RIFT_HERALD,
            BARON,
            HORDE,
            ATAKHAN,
            OTHER_MONSTER,
            TOWER,
            INHIBITOR,
            OTHER_BUILDING,
            PLATE
        ]
    );
    let lanes: Vec<u32> = tl.objectives[7..].iter().map(|o| o.lane).collect();
    assert_eq!(lanes, [LANE_TOP, LANE_MID, LANE_NONE, LANE_BOT]);
    assert_eq!((tl.objectives[7].killer, tl.objectives[7].losing_team), (2, 200));
    assert_eq!(tl.objectives[10].killer, NO_PARTICIPANT);
    assert_eq!((tl.wards[0].kind, tl.wards[0].participant), (WARD_PLACED, 1));
    assert_eq!((tl.wards[1].kind, tl.wards[1].participant), (WARD_KILLED, NO_PARTICIPANT));
}

#[test]
fn documents_are_compared_by_value() {
    assert!(json_equal("{\"a\":1,\"b\":[true,null]}", "{ \"b\": [true, null], \"a\": 1 }"));
    assert!(!json_equal("[1,2]", "[2,1]"));
    assert!(!json_equal("[1]", "[1.0]"));
    assert!(json_equal("\"\\u0041\"", "\"A\""));
    // Neither can be read: compared as texts.
    assert!(json_equal("{", "{"));
    assert!(!json_equal("{", "[1]"));
    assert!(!json_equal("{", "{ "));
}

#[test]
fn documents_are_read() {
    assert!(parse_json("nope").is_none());
    assert!(matches!(parse_json("1.5"), Some(Json::OtherNumber)));
    assert!(matches!(parse_json("-7"), Some(Json::Int(-7))));
    assert!(matches!(parse_json("18446744073709551615"), Some(Json::OtherNumber)));
    assert!(matches!(parse_json("null"), Some(Json::Null)));
    assert!(matches!(parse_json("true"), Some(Json::Bool(true))));
    match parse_json("{\"k\":[\"v\"]}") {
        Some(Json::Object(members)) => {
            assert_eq!(members[0].0, "k");
            assert!(matches!(&members[0].1, Json::Array(l) if matches!(&l[0], Json::Str(s) if s == "v")));
        }
        _ => panic!("an object"),
    }
}

// ---- taking matches ----

fn new_store(rows_of: fn(&mut StoreRows)) -> Store {
    let mut rows = StoreRows {
        players: vec![],
        cohort: vec![],
        outsiders: vec![],
        progress: vec![],
        played: vec![],
        frontier: vec![],
        nodes: vec![],
        meta: vec![],
        platforms: enabled_regions()
            .iter()
            .map(|_| PlatformRows { bitmap: None, valid: None })
            .collect(),
    };
    rows_of(&mut rows);
    Store::open(rows).unwrap()
}

fn on() -> Occasion {
    Occasion { growth_paused: false, now_ms: 5 }
}

#[test]
fn a_stored_match_is_not_fetched_again() {
    let mut store = new_store(|_| {});
    let text = match_text("EUW1_77", 420, &players());
    let taken =
        take_match(&mut store, "EUW1", "EUW1_77", Some(&text), None, "2026-07-05", &on()).unwrap();
    assert!(matches!(taken, Taken::Stored(s) if s.adopted.is_empty()));
    assert!(store.is_seen("EUW1", 77));
    let (_, block) = store.segment_block("EUW1", 0).unwrap().unwrap();
    let records = lol_crawler::segment::read_segment_records(&block.seg).unwrap();
    let rec = MatchRecord::decode(&records[0]).unwrap();
    assert_eq!(rec.game_id, 77);
    assert!(rec.participants.iter().all(|p| store.player_name(p.player_id).is_some()));
    // A second match of the same players makes them join.
    let text = match_text("EUW1_78", 420, &players());
    let taken =
        take_match(&mut store, "EUW1", "EUW1_78", Some(&text), None, "2026-07-05", &on()).unwrap();
    match taken {
        Taken::Stored(s) => assert_eq!(s.adopted.len(), 10),
        Taken::Skipped => panic!("stored"),
    }
    assert_eq!(store.frontier_next_due("EUW1"), Some(5));
}

#[test]
fn other_matches_are_skipped_for_good() {
    let mut store = new_store(|_| {});
    let normal = match_text("EUW1_1", 430, &players());
    let foreign = match_text("KR_2", 420, &players());
    for (id, text) in [
        ("EUW1_1", Some(normal.as_str())),
        ("EUW1_2", Some(foreign.as_str())),
        ("EUW1_3", Some("{")),
        ("EUW1_4", None),
    ] {
        let taken = take_match(&mut store, "EUW1", id, text, None, "2026-07-05", &on()).unwrap();
        assert!(matches!(taken, Taken::Skipped));
    }
    for n in 1..=4 {
        assert!(store.is_seen("EUW1", n));
    }
    assert!(store.segment_block("EUW1", 0).unwrap().is_none());
}

#[test]
fn matches_that_cannot_be_taken() {
    let mut store = new_store(|_| {});
    let err = take_match(&mut store, "EUW1", "nonsense", None, None, "2026-07-05", &on())
        .map(|_| ())
        .unwrap_err();
    assert_eq!(err, TakeError::BadId(MatchIdError::NoUnderscore));
    let mut full =
        new_store(|rows| rows.players = vec![("last".to_string(), u32::MAX - 5)]);
    let text = match_text("EUW1_77", 420, &players());
    let parsed = parse_match(&text, None).ok();
    let err = take_parsed(&mut full, "EUW1", ("EUW1", 77), parsed, "2026-07-05", &on())
        .map(|_| ())
        .unwrap_err();
    assert_eq!(err, TakeError::NoRoom);
    assert!(!full.is_seen("EUW1", 77));
}
