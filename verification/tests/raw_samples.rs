//! Raw samples: plain frames, the shared dictionary, and rewriting one into
//! the other.

use lol_crawler::config::enabled_regions;
use lol_crawler::crawler::is_sampled;
use lol_crawler::raw::{
    check_dict, check_packed, is_raw_sample_name, match_sample_name, raw_sample_bytes, read_raw_sample,
    recompact_raw_samples, timeline_sample_name, Packer, Packing, RawError, RawFile, RawRun,
    Settled, Trained, Training, RAW_DICT_MAX_BYTES, RAW_DICT_MIN_SAMPLES,
};

fn frame_dict(bytes: &[u8]) -> u32 {
    zstd::zstd_safe::get_dict_id_from_frame(bytes).map_or(0, |id| id.get())
}

fn participants() -> Vec<String> {
    (0..10u64)
        .map(|i| format!("{:020}-{:038}-{:016}", i * 7_919, i * 104_729, i * 31))
        .collect()
}

fn quoted(names: &[String]) -> String {
    names.iter().map(|n| format!("\"{n}\"")).collect::<Vec<_>>().join(",")
}

fn participant_text(idx: usize, slot: usize, puuid: &str) -> String {
    let positions = ["TOP", "JUNGLE", "MIDDLE", "BOTTOM", "UTILITY"];
    let perks = format!(
        "{{\"statPerks\":{{\"defense\":5002,\"flex\":5008,\"offense\":5005}},\"styles\":[\
         {{\"description\":\"primaryStyle\",\"selections\":[\
         {{\"perk\":8010,\"var1\":{},\"var2\":{slot},\"var3\":{}}},\
         {{\"perk\":9111,\"var1\":{},\"var2\":{},\"var3\":0}}],\"style\":8000}},\
         {{\"description\":\"subStyle\",\"selections\":[\
         {{\"perk\":8139,\"var1\":{},\"var2\":{slot},\"var3\":0}},\
         {{\"perk\":8135,\"var1\":{},\"var2\":{},\"var3\":0}}],\"style\":8100}}]}}",
        idx + slot,
        idx % 7,
        idx % 13,
        slot * 2,
        idx % 17,
        idx % 19,
        slot + 3,
    );
    format!(
        "{{\"assists\":{},\"championId\":{},\"championName\":\"Champion{}\",\"deaths\":{},\
         \"goldEarned\":{},\"kills\":{},\"participantId\":{},\"perks\":{perks},\
         \"puuid\":\"{puuid}\",\"summoner1Id\":4,\"summoner2Id\":14,\"teamId\":{},\
         \"teamPosition\":\"{}\",\"totalDamageDealtToChampions\":{},\"wardsPlaced\":{},\
         \"win\":{}}}",
        (idx + slot * 3) % 27,
        11 + ((idx + slot) % 160),
        (idx + slot) % 32,
        (idx + slot * 2) % 11,
        9_000 + ((idx * 37 + slot * 101) % 11_000),
        (idx + slot) % 19,
        slot + 1,
        if slot < 5 { 100 } else { 200 },
        positions[slot % 5],
        12_000 + ((idx * 113 + slot * 257) % 45_000),
        (idx + slot) % 32,
        idx % 2 == slot % 2,
    )
}

fn team_text(team: u32, win: bool, baron: (bool, usize), dragon: (bool, usize)) -> String {
    format!(
        "{{\"objectives\":{{\"baron\":{{\"first\":{},\"kills\":{}}},\
         \"dragon\":{{\"first\":{},\"kills\":{}}}}},\"teamId\":{team},\"win\":{win}}}",
        baron.0, baron.1, dragon.0, dragon.1,
    )
}

fn raw_fixture_pair(platform: &str, idx: usize, participants: &[String]) -> (String, String) {
    let match_id = format!("{platform}_raw_{idx:06}");
    let game_id = 9_000_000_000u64 + idx as u64;
    let metadata = format!(
        "{{\"dataVersion\":\"2\",\"matchId\":\"{match_id}\",\"participants\":[{}]}}",
        quoted(participants),
    );
    let players: Vec<String> = participants
        .iter()
        .enumerate()
        .map(|(slot, puuid)| participant_text(idx, slot, puuid))
        .collect();
    let start = 1_704_000_000_000u64 + idx as u64 * 1_000;
    let match_json = format!(
        "{{\"info\":{{\"gameCreation\":{start},\"gameDuration\":{},\"gameEndTimestamp\":{},\
         \"gameId\":{game_id},\"gameMode\":\"CLASSIC\",\
         \"gameName\":\"teambuilder-match-{game_id}\",\"gameStartTimestamp\":{start},\
         \"gameType\":\"MATCHED_GAME\",\"gameVersion\":\"16.1.1.1234\",\"mapId\":11,\
         \"participants\":[{}],\"platformId\":\"{platform}\",\"queueId\":420,\"teams\":[{},{}]}},\
         \"metadata\":{metadata}}}",
        1_500 + (idx % 900),
        start + 1_500,
        players.join(","),
        team_text(100, idx % 2 == 0, (true, idx % 3), (false, idx % 5)),
        team_text(200, idx % 2 == 1, (false, (idx + 1) % 3), (true, (idx + 2) % 5)),
    );

    let frames: Vec<String> = (0..8usize)
        .map(|minute| {
            let slots: Vec<String> = [1, 10, 2, 3, 4, 5, 6, 7, 8, 9]
                .iter()
                .map(|&slot: &usize| {
                    format!(
                        "\"{slot}\":{{\"currentGold\":{},\"damageStats\":{{\
                         \"magicDamageDoneToChampions\":{},\"physicalDamageDoneToChampions\":{},\
                         \"totalDamageDoneToChampions\":{},\"trueDamageDoneToChampions\":{}}},\
                         \"jungleMinionsKilled\":{},\"level\":{},\"minionsKilled\":{},\
                         \"participantId\":{slot},\"position\":{{\"x\":{},\"y\":{}}},\
                         \"totalGold\":{},\"xp\":{}}}",
                        300 + minute * 70 + slot + idx % 23,
                        minute * 90 + slot * 7,
                        minute * 140 + slot * 11,
                        minute * 250 + slot * 31 + idx % 211,
                        minute * 12 + slot,
                        if slot == 2 || slot == 7 { minute * 4 + idx % 3 } else { 0 },
                        1 + minute / 2,
                        minute * 6 + slot + idx % 5,
                        500 + minute * 70 + slot * 31,
                        800 + minute * 45 + slot * 29,
                        500 + minute * 440 + slot * 13 + idx % 101,
                        minute * 310 + slot * 17 + idx % 97,
                    )
                })
                .collect();
            format!(
                "{{\"events\":[{{\"participantId\":{},\"skillSlot\":{},\"timestamp\":{},\
                 \"type\":\"SKILL_LEVEL_UP\"}},{{\"creatorId\":{},\"timestamp\":{},\
                 \"type\":\"WARD_PLACED\",\"wardType\":\"YELLOW_TRINKET\"}}],\
                 \"participantFrames\":{{{}}},\"timestamp\":{}}}",
                minute % 10 + 1,
                minute % 4 + 1,
                minute * 60_000 + 2_500,
                minute % 10 + 1,
                minute * 60_000 + 8_500,
                slots.join(","),
                minute * 60_000,
            )
        })
        .collect();
    let ids: Vec<String> = participants
        .iter()
        .enumerate()
        .map(|(slot, puuid)| format!("{{\"participantId\":{},\"puuid\":\"{puuid}\"}}", slot + 1))
        .collect();
    let timeline_json = format!(
        "{{\"info\":{{\"frameInterval\":60000,\"frames\":[{}],\"gameId\":{game_id},\
         \"participants\":[{}]}},\"metadata\":{metadata}}}",
        frames.join(","),
        ids.join(","),
    );
    (match_json, timeline_json)
}

/// Samples as they are first written, with their texts, in the order of
/// their names.
fn raw_fixtures(platform: &str, first_idx: usize, pairs: usize) -> (Vec<RawFile>, Vec<String>) {
    let participants = participants();
    let mut files = Vec::new();
    let mut originals = Vec::new();
    for idx in first_idx..first_idx + pairs {
        let (match_json, timeline_json) = raw_fixture_pair(platform, idx, &participants);
        for json in [match_json, timeline_json] {
            let bytes = raw_sample_bytes(&json).unwrap();
            files.push(RawFile { bytes, old_enough: true });
            originals.push(json);
        }
    }
    (files, originals)
}

fn total_size(files: &[RawFile]) -> usize {
    files.iter().map(|f| f.bytes.len()).sum()
}

fn bytes_of(files: &[RawFile]) -> Vec<Vec<u8>> {
    files.iter().map(|f| f.bytes.clone()).collect()
}

fn assert_raw_samples_upgraded(files: &[RawFile]) {
    for f in files {
        assert_ne!(frame_dict(&f.bytes), 0);
    }
}

#[test]
fn raw_samples_train_dict_and_upgrade_end_to_end() {
    let platform = enabled_regions()[0].platform;
    let (mut files, originals) = raw_fixtures(platform, 0, RAW_DICT_MIN_SAMPLES / 2 + 8);
    let before_size = total_size(&files);

    let done = recompact_raw_samples(&mut files, None).unwrap();

    let outcome = done.outcome;
    let dict = done.dict.unwrap();
    assert!(outcome.dict_created);
    assert!(dict.len() <= RAW_DICT_MAX_BYTES);
    assert_eq!(outcome.files_seen, originals.len());
    assert_eq!(outcome.files_upgraded, originals.len());
    assert_eq!(outcome.files_failed, 0);
    assert_eq!(outcome.dict_bytes, dict.len() as u64);
    assert_eq!(outcome.before_bytes, before_size as u64);
    assert_eq!(outcome.after_bytes, total_size(&files) as u64);
    assert_raw_samples_upgraded(&files);
    let after_size = total_size(&files) + dict.len();
    assert!(
        after_size < before_size,
        "raw samples did not shrink: before={before_size} after={after_size}"
    );

    for (file, want) in files.iter().zip(&originals) {
        assert_eq!(read_raw_sample(&file.bytes, Some(&dict)).unwrap(), *want);
        assert_eq!(read_raw_sample(&file.bytes, None), Err(RawError::NoDict));
    }
}

#[test]
fn raw_sample_recompact_second_run_is_noop() {
    let platform = enabled_regions()[0].platform;
    let (mut files, originals) = raw_fixtures(platform, 1_000, RAW_DICT_MIN_SAMPLES / 2 + 8);
    let first = recompact_raw_samples(&mut files, None).unwrap();
    let snapshot = bytes_of(&files);

    let second = recompact_raw_samples(&mut files, first.dict.clone()).unwrap();

    let outcome = second.outcome;
    assert!(!outcome.dict_created);
    assert_eq!(outcome.files_upgraded, 0);
    assert_eq!(outcome.files_already_dict, originals.len());
    assert_eq!(bytes_of(&files), snapshot);
    assert_eq!(second.dict, first.dict);
}

#[test]
fn raw_sample_recompact_handles_mixed_plain_and_dict_state() {
    let platform = enabled_regions()[0].platform;
    let (mut files, originals) = raw_fixtures(platform, 2_000, RAW_DICT_MIN_SAMPLES / 2 + 8);
    let first = recompact_raw_samples(&mut files, None).unwrap();
    let snapshot = bytes_of(&files);

    let (new_files, new_originals) = raw_fixtures(platform, 9_000, 1);
    for f in &new_files {
        assert_eq!(frame_dict(&f.bytes), 0);
    }
    files.extend(new_files);

    let second = recompact_raw_samples(&mut files, first.dict.clone()).unwrap();

    assert_eq!(second.outcome.files_upgraded, new_originals.len());
    assert_eq!(second.outcome.files_failed, 0);
    assert_eq!(second.dict, first.dict);
    for (file, bytes) in files.iter().zip(&snapshot) {
        assert_eq!(file.bytes, *bytes);
    }
    assert_raw_samples_upgraded(&files);
    let dict = second.dict.unwrap();
    for (file, want) in files[originals.len()..].iter().zip(&new_originals) {
        assert_eq!(read_raw_sample(&file.bytes, Some(&dict)).unwrap(), *want);
    }
}

#[test]
fn read_raw_sample_handles_plain_file_without_dict() {
    let json = "{\"info\":{\"queueId\":420},\"metadata\":{\"matchId\":\"plain\"}}";
    let bytes = raw_sample_bytes(json).unwrap();
    assert_eq!(match_sample_name("plain"), "plain.match.json.zst");
    assert_eq!(frame_dict(&bytes), 0);
    assert_eq!(read_raw_sample(&bytes, None).unwrap(), json);
}

#[test]
fn raw_sample_recompact_skips_training_when_too_few_samples() {
    let platform = enabled_regions()[0].platform;
    let (mut files, originals) = raw_fixtures(platform, 3_000, 8);

    let done = recompact_raw_samples(&mut files, None).unwrap();

    assert!(!done.outcome.dict_created);
    assert!(done.dict.is_none());
    assert_eq!(done.outcome.training_samples, originals.len());
    assert_eq!(done.outcome.files_upgraded, 0);
    for f in &files {
        assert_eq!(frame_dict(&f.bytes), 0);
    }
}

/// A small dictionary, trained outside the library.
fn small_dict() -> Vec<u8> {
    let samples: Vec<Vec<u8>> = (0..200)
        .map(|i| format!("{{\"matchId\":\"KR_{i}\",\"queueId\":420,\"n\":{}}}", i * i).into_bytes())
        .collect();
    zstd::dict::from_samples(&samples, 4_096).unwrap()
}

#[test]
fn samples_that_cannot_be_read_say_why() {
    assert_eq!(read_raw_sample(b"no frame", None), Err(RawError::Undecodable));
    let bad_text = zstd::bulk::compress(&[0xff, 0xfe], 3).unwrap();
    assert_eq!(read_raw_sample(&bad_text, None), Err(RawError::NotUtf8));

    let dict = small_dict();
    let mut packer = Packer::new(dict.clone()).unwrap();
    let plain = raw_sample_bytes("{\"matchId\":\"KR_7\",\"queueId\":420}").unwrap();
    let packed = match packer.pack(&plain) {
        Ok(Packing::Packed(bytes)) => bytes,
        _ => panic!("a plain sample is packed"),
    };
    let id = frame_dict(&packed);
    assert_ne!(id, 0);
    assert_eq!(read_raw_sample(&packed, None), Err(RawError::NoDict));
    assert_eq!(read_raw_sample(&packed, Some(b"no dictionary")), Err(RawError::NoDictId));
    let mut other = dict.clone();
    other[4..8].copy_from_slice(&(id ^ 1).to_le_bytes());
    assert_eq!(
        read_raw_sample(&packed, Some(&other)),
        Err(RawError::WrongDict { found: id, expected: id ^ 1 })
    );
    assert_eq!(
        read_raw_sample(&packed, Some(&dict)).unwrap(),
        "{\"matchId\":\"KR_7\",\"queueId\":420}"
    );

    // Packed once, left alone for good.
    assert!(matches!(packer.pack(&packed), Ok(Packing::AlreadyDict)));
    let mut strange = Packer::new(other).unwrap();
    assert!(matches!(strange.pack(&packed), Ok(Packing::AlreadyDict)));
    assert_eq!(packer.pack(&b"no frame".to_vec()).map(|_| ()).unwrap_err(), RawError::Undecodable);
    assert_eq!(Packer::new(b"nothing".to_vec()).map(|_| ()).unwrap_err(), RawError::NoDictId);
}

#[test]
fn packed_samples_are_checked() {
    let plain = b"{\"matchId\":\"KR_7\"}".to_vec();
    let mut packer = Packer::new(small_dict()).unwrap();
    let before = raw_sample_bytes("{\"matchId\":\"KR_7\"}").unwrap();
    let after = match packer.pack(&before) {
        Ok(Packing::Packed(bytes)) => bytes,
        _ => panic!("a plain sample is packed"),
    };
    let id = frame_dict(&after);
    let check = |back: Option<&[u8]>, id| {
        check_packed(after.clone(), back.map(|b| b.to_vec()), &plain, id)
    };
    assert_eq!(check(Some(&plain), id), Ok(after.clone()));
    assert_eq!(
        check(Some(&plain), id ^ 1),
        Err(RawError::WrongDict { found: id, expected: id ^ 1 })
    );
    assert_eq!(check(None, id), Err(RawError::Roundtrip));
    assert_eq!(check(Some(b"other"), id), Err(RawError::Roundtrip));
}

#[test]
fn dictionaries_are_checked() {
    assert_eq!(check_dict(None), Err(RawError::Training));
    assert_eq!(check_dict(Some(vec![0; 16])), Err(RawError::NoDictId));
    let large = RAW_DICT_MAX_BYTES + 1;
    assert_eq!(check_dict(Some(vec![0; large])), Err(RawError::DictTooLarge(large)));
    let dict = small_dict();
    assert_eq!(check_dict(Some(dict.clone())), Ok(dict));
}

#[test]
fn only_old_plain_samples_train() {
    let mut t = Training::new();
    let sample = raw_sample_bytes("{}").unwrap();
    t.offer(&RawFile { bytes: sample.clone(), old_enough: false });
    assert_eq!(t.len(), 0);
    t.offer(&RawFile { bytes: b"no frame".to_vec(), old_enough: true });
    assert_eq!(t.len(), 0);
    t.offer(&RawFile { bytes: sample, old_enough: true });
    assert_eq!(t.len(), 1);
    assert!(t.wants_more());
    assert!(matches!(t.train(), Ok(Trained::TooFew)));
}

#[test]
fn a_run_counts_what_became_of_each_file() {
    let mut run = RawRun::new(small_dict(), true, 7, 5).unwrap();
    let plain = raw_sample_bytes("{\"matchId\":\"KR_8\",\"queueId\":420}").unwrap();
    let file = |old_enough| RawFile { bytes: plain.clone(), old_enough };
    assert_eq!(run.look(&file(false)), None);
    assert_eq!(run.look(&RawFile { bytes: b"junk".to_vec(), old_enough: true }), None);
    let after = run.look(&file(true)).unwrap();
    run.settle(Settled::Replaced, plain.len(), after.len());
    run.look(&file(true)).unwrap();
    run.settle(Settled::Changed, plain.len(), after.len());
    assert_eq!(run.look(&RawFile { bytes: after.clone(), old_enough: true }), None);
    let done = run.finish();
    let o = done.outcome;
    assert_eq!((o.dict_created, o.training_samples, o.files_seen), (true, 7, 5));
    assert_eq!((o.files_skipped_recent, o.files_failed, o.files_upgraded), (1, 1, 1));
    assert_eq!((o.files_skipped_changed, o.files_already_dict), (1, 1));
    assert_eq!((o.before_bytes, o.after_bytes), (plain.len() as u64, after.len() as u64));
}

#[test]
fn sample_names() {
    assert_eq!(timeline_sample_name("KR_1"), "KR_1.timeline.json.zst");
    assert!(is_raw_sample_name("KR_1.match.json.zst"));
    assert!(is_raw_sample_name("KR_1.timeline.json.zst"));
    assert!(!is_raw_sample_name("match-v1.dict"));
    assert!(!is_raw_sample_name("KR_1.match.json.zst.tmp"));
}

#[test]
fn one_match_in_a_hundred_is_sampled() {
    let n = (0..100_000u64).filter(|id| is_sampled(*id)).count();
    assert_eq!(n, 1_000);
    assert!(is_sampled(0));
    assert!(!is_sampled(999));
}
