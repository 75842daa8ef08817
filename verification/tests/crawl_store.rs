//! The crawl state: cohort, histories, frontier, and what is written out.

use lol_crawler::config::enabled_regions;
use lol_crawler::frontier::{
    FrontierTask, Queued, BUCKET_OTHER, BUCKET_PRIORITY, DEEP_VISIT_MS,
};
use lol_crawler::history::Played;
use lol_crawler::record::{MatchRecord, Participant};
use lol_crawler::seen::SeenGames;
use lol_crawler::store::{
    CommitStep, DayOver, Member, OpenError, PlatformRows, RankSnap, Store, StoreRows, COHORT_SRC_ADOPTED,
    COHORT_SRC_APEX,
};

const TODAY: &str = "2026-07-05";

fn platform() -> &'static str {
    enabled_regions()[0].platform
}

fn no_rows() -> StoreRows {
    StoreRows {
        players: vec![],
        cohort: vec![],
        outsiders: vec![],
        progress: vec![],
        played: vec![],
        frontier: vec![],
        nodes: vec![],
        meta: vec![],
        platforms: enabled_regions()
            .iter()
            .map(|_| PlatformRows { bitmap: None, valid: None })
            .collect(),
    }
}

fn new_store() -> Store {
    Store::open(no_rows()).unwrap()
}

fn mk_match(platform: &str, game_id: u64, duration_s: u32) -> MatchRecord {
    MatchRecord {
        schema_version: 1,
        game_id,
        platform: platform.to_string(),
        queue_id: 420,
        game_start_ms: game_id as i64,
        duration_s,
        blue_won: true,
        game_version: String::new(),
        patch_major: 16,
        patch_minor: 1,
        participants: (0..10)
            .map(|i| Participant {
                player_id: 0,
                champion_id: 1,
                position: (i % 5) as u32,
                spell1: 0,
                spell2: 0,
                runes: vec![],
                stats: vec![],
            })
            .collect(),
        timeline: None,
        bans: vec![],
    }
}

fn progress_of(store: &Store, platform: &str, game_id: u64) -> Vec<u8> {
    store.progress_row(platform, game_id).unwrap().clone()
}

fn names(prefix: &str, n: usize) -> Vec<String> {
    (0..n).map(|i| format!("{prefix}{i:02}")).collect()
}

fn sightings(store: &mut Store, puuids: &[String]) -> Vec<u32> {
    let ids = store.assign_player_ids(puuids);
    ids.iter().map(|id| store.outsider_count(*id)).collect()
}

fn members(store: &Store, ids: &[u32]) -> usize {
    ids.iter().filter(|id| store.is_cohort(**id)).count()
}

/// The valid samples of the platform; the others have none.
fn valid_samples(store: &Store) -> u64 {
    let totals = store.valid_sample_totals();
    let names: Vec<&str> = totals.iter().map(|t| t.0.as_str()).collect();
    assert_eq!(names, ["EUW1", "KR", "NA1", "VN2"]);
    assert!(totals.iter().all(|t| t.1 == 0 || t.0 == platform()));
    totals.iter().map(|t| t.1).sum()
}

#[test]
fn restore_is_idempotent_and_remakes_earn_nothing() {
    let platform = platform();
    let mut store = new_store();
    let puuids = names("p", 10);

    let mut rec = mk_match(platform, 100, 1800);
    store.store_match(&mut rec, &puuids, 100, false, TODAY).unwrap();
    assert_eq!(sightings(&mut store, &puuids).iter().sum::<u32>(), 10);
    assert_eq!(progress_of(&store, platform, 100), vec![0u8; 11]);

    // Once more, as after a crash: no double adoption or history credit.
    let mut again = mk_match(platform, 100, 1800);
    store.store_match(&mut again, &puuids, 100, false, TODAY).unwrap();
    assert_eq!(sightings(&mut store, &puuids).iter().sum::<u32>(), 10);

    // Remake: archived with an empty progress marker, credits nothing.
    let mut remake = mk_match(platform, 200, 120);
    store.store_match(&mut remake, &puuids, 200, false, TODAY).unwrap();
    assert_eq!(sightings(&mut store, &puuids).iter().sum::<u32>(), 10);
    assert!(progress_of(&store, platform, 200).is_empty());

    // Game 300 sees exactly 1 stored predecessor per player (game 100; the
    // remake earns no history credit, the second time did not double).
    let mut later = mk_match(platform, 300, 1800);
    store.store_match(&mut later, &puuids, 300, false, TODAY).unwrap();
    let mut want = vec![1u8; 10];
    want.push(0);
    assert_eq!(progress_of(&store, platform, 300), want);

    // Backfill (game 50) bumps both later games exactly once.
    let mut backfill = mk_match(platform, 50, 1800);
    store.store_match(&mut backfill, &puuids, 50, false, TODAY).unwrap();
    let mut want100 = vec![1u8; 10];
    want100.push(0);
    let mut want300 = vec![2u8; 10];
    want300.push(0);
    assert_eq!(progress_of(&store, platform, 100), want100);
    assert_eq!(progress_of(&store, platform, 300), want300);
}

#[test]
fn brake_defers_adoption_until_lifted() {
    let platform = platform();
    let mut store = new_store();
    let puuids = names("b", 10);

    // Two sightings while braked: counts accrue past the threshold (2) but
    // nobody joins the cohort.
    let mut a = mk_match(platform, 100, 1800);
    store.store_match(&mut a, &puuids, 100, true, TODAY).unwrap();
    let mut b = mk_match(platform, 200, 1800);
    store.store_match(&mut b, &puuids, 200, true, TODAY).unwrap();
    let ids = store.assign_player_ids(&puuids);
    assert_eq!(members(&store, &ids), 0);
    assert!(sightings(&mut store, &puuids).iter().all(|c| *c == 2));

    // First sighting after the brake lifts converts everyone.
    let mut c = mk_match(platform, 300, 1800);
    let outcome = store.store_match(&mut c, &puuids, 300, false, TODAY).unwrap();
    assert_eq!(outcome.adopted.len(), 10);
    assert_eq!(members(&store, &ids), 10);
    assert!(sightings(&mut store, &puuids).iter().all(|c| *c == 0));
    assert_eq!(store.debug_stats(0, 0).outsiders_tracked, 0);
    assert_eq!(store.debug_stats(0, 0).cohort, 10);
    let member = store.member(ids[0]).unwrap();
    assert_eq!((member.joined_ms, member.source), (300, COHORT_SRC_ADOPTED));
}

#[test]
fn backfill_reset_converts_queued_cohort_to_deep_visits() {
    let platform = platform();
    let mut store = new_store();
    let puuids = names("d", 3);
    let pids = store.assign_player_ids(&puuids);
    store.cohort_add_batch(&pids, COHORT_SRC_APEX, 1);
    // Queued far in the future, as after a normal visit.
    let far = 9_000_000_000_000u64;
    for (pid, puuid) in pids.iter().zip(&puuids) {
        let task = FrontierTask { puuid: puuid.clone(), last_visit_ms: 500 };
        store.frontier_push(platform, BUCKET_PRIORITY, far, *pid, &task);
    }
    // An entry outside the cohort must be left alone.
    let outsider = store.assign_player_ids(&["legacy".to_string()])[0];
    let legacy = FrontierTask { puuid: "legacy".into(), last_visit_ms: 500 };
    store.frontier_push(platform, BUCKET_PRIORITY, far, outsider, &legacy);

    assert_eq!(store.frontier_backfill_reset(1_000), 3);
    // All cohort members are now due immediately, flagged deep.
    for _ in 0..3 {
        let (_, pid, task) = store.frontier_pop_due(platform, 2_000).unwrap();
        assert!(pids.contains(&pid));
        assert_eq!(task.last_visit_ms, DEEP_VISIT_MS);
    }
    // The other entry is untouched at its original due time.
    assert!(store.frontier_pop_due(platform, 2_000).is_none());
    let (_, pid, task) = store.frontier_pop_due(platform, u64::MAX).unwrap();
    assert_eq!(pid, outsider);
    assert_eq!(task.last_visit_ms, 500);
}

#[test]
fn reconcile_requeues_stranded_cohort_members() {
    let platform = platform();
    let mut store = new_store();
    let puuids = names("q", 10);
    let pids = store.assign_player_ids(&puuids);
    store.cohort_add_batch(&pids, COHORT_SRC_ADOPTED, 1);
    let mut rec = mk_match(platform, 100, 1800);
    store.store_match(&mut rec, &puuids, 100, false, TODAY).unwrap();

    // The enqueue "never landed": all 10 are stranded.
    assert!(store.frontier_pop_due(platform, u64::MAX).is_none());
    assert_eq!(store.frontier_reconcile(5_000), 10);
    // Idempotent: nothing left to reconcile once everyone is queued.
    assert_eq!(store.frontier_reconcile(5_000), 0);
    let (_, pid, task) = store.frontier_pop_due(platform, u64::MAX).unwrap();
    assert!(pids.contains(&pid));
    assert!(task.puuid.starts_with('q'));
}

#[test]
fn twenty_earlier_games_make_a_valid_sample() {
    let platform = platform();
    let mut store = new_store();
    let puuids = names("v", 10);
    for i in 0..21u64 {
        let mut rec = mk_match(platform, 1_000 + i, 1800);
        store.store_match(&mut rec, &puuids, 1_000 + i, false, TODAY).unwrap();
    }
    let mut full = vec![20u8; 10];
    full.push(1);
    assert_eq!(progress_of(&store, platform, 1_020), full);
    assert_eq!(valid_samples(&store), 1);
    // An older game that is stored late makes the game before it valid too.
    let mut early = mk_match(platform, 5, 1800);
    store.store_match(&mut early, &puuids, 5, false, TODAY).unwrap();
    assert_eq!(progress_of(&store, platform, 1_019), full);
    assert_eq!(valid_samples(&store), 2);
    let stats = store.debug_stats(3, 4);
    assert_eq!(stats.rank_snapshots, 3);
    assert_eq!(stats.player_timeline_entries, 4);
    assert_eq!(stats.readiness_histogram[10], 2);
    assert_eq!(stats.readiness_histogram[0], 20);
}

#[test]
fn samples_do_not_depend_on_the_order_of_storing() {
    let platform = platform();
    let puuids = names("o", 10);
    let mut store = new_store();
    // Seven steps at a time through 23 matches, each stored twice, with seeded
    // players and a remake in between.
    for i in 0..46u64 {
        let ts = 1_000 + (i * 7) % 23;
        let mut rec = mk_match(platform, ts, 1800);
        store.store_match(&mut rec, &puuids, ts, false, TODAY).unwrap();
        store.assign_player_ids(&[format!("seeded{i}")]);
        let mut remake = mk_match(platform, 5, 100);
        store.store_match(&mut remake, &puuids, 5, false, TODAY).unwrap();
    }
    for k in 0..23u64 {
        let mut row = vec![k.min(20) as u8; 10];
        row.push((k >= 20) as u8);
        assert_eq!(progress_of(&store, platform, 1_000 + k), row);
    }
    assert_eq!(progress_of(&store, platform, 5), Vec::<u8>::new());
    assert_eq!(valid_samples(&store), 3);
}

#[test]
fn ids_are_kept() {
    let mut store = new_store();
    let first = store.assign_player_ids(&["a".to_string(), "b".to_string(), "a".to_string()]);
    assert_eq!(first[0], first[2]);
    assert_ne!(first[0], first[1]);
    let more = store.assign_player_ids(&["c".to_string(), "a".to_string()]);
    assert_eq!(more[1], first[0]);
    assert!(!first.contains(&more[0]));
    assert_eq!(store.player_name(first[1]).unwrap(), "b");
    assert!(store.player_name(9_999).is_none());
}

#[test]
fn the_better_bucket_goes_first_and_stays() {
    let platform = platform();
    let mut store = new_store();
    let task = |p: &str| FrontierTask { puuid: p.to_string(), last_visit_ms: 0 };
    store.frontier_push(platform, BUCKET_OTHER, 5, 1, &task("a"));
    store.frontier_push(platform, BUCKET_PRIORITY, 9, 2, &task("b"));
    store.frontier_push(platform, BUCKET_PRIORITY, 7, 3, &task("c"));
    // Queued already, in the same bucket: the first entry stays.
    store.frontier_push(platform, BUCKET_PRIORITY, 1, 2, &task("b"));
    assert_eq!(store.queued(2).unwrap().due_ms, 9);
    // A better bucket takes over.
    store.frontier_push(platform, BUCKET_PRIORITY, 8, 1, &task("a"));
    assert_eq!(store.frontier_next_due(platform), Some(7));
    assert!(store.frontier_pop_due(platform, 6).is_none());
    assert_eq!(store.frontier_pop_due(platform, 100).unwrap().1, 3);
    assert_eq!(store.frontier_pop_due(platform, 100).unwrap().1, 1);
    assert_eq!(store.frontier_pop_due(platform, 100).unwrap().1, 2);
    assert!(store.frontier_pop_due(platform, 100).is_none());
    assert_eq!(store.frontier_next_due(platform), None);
}

#[test]
fn long_overdue_tasks_are_counted() {
    let platform = platform();
    let mut store = new_store();
    for i in 0..5u32 {
        let task = FrontierTask { puuid: format!("o{i}"), last_visit_ms: 0 };
        store.frontier_push(platform, BUCKET_PRIORITY, 1_000 + i as u64, i, &task);
    }
    // Overdue by more than 500: those due before 1_003.
    assert_eq!(store.frontier_overdue_count(platform, 1_503, 500, 100), 3);
    assert_eq!(store.frontier_overdue_count(platform, 1_503, 500, 2), 2);
    assert_eq!(store.frontier_overdue_count(platform, 1_503, 500, 0), 0);
    assert_eq!(store.frontier_overdue_count(platform, 1_000, 0, 100), 0);
    assert_eq!(store.frontier_overdue_count("KR", 1_503, 500, 100), 0);
}

#[test]
fn seen_games_survive_in_their_bitmap() {
    let platform = platform();
    let mut store = new_store();
    for id in [5u64, 1 << 40, u64::MAX, 5] {
        store.mark_seen(platform, id);
    }
    assert!(store.is_seen(platform, 1 << 40));
    assert!(!store.is_seen(platform, 6));
    assert!(!store.is_seen("KR", 5));
    let bytes = store.bitmap(platform).unwrap();
    let back = SeenGames::from_bytes(&bytes).unwrap();
    assert_eq!(back.len(), 3);
    assert!(back.contains(u64::MAX) && back.contains(5) && !back.contains(7));
    assert_eq!(back.to_bytes(), bytes);

    let mut rows = no_rows();
    rows.platforms[0].bitmap = Some(bytes);
    let again = Store::open(rows).unwrap();
    assert!(again.is_seen(platform, 5));
    assert!(!again.is_seen(platform, 6));
}

#[test]
fn rows_that_cannot_be_read_are_refused() {
    let mut rows = no_rows();
    rows.platforms[0].bitmap = Some(vec![1, 2, 3]);
    let err = Store::open(rows).map(|_| ()).unwrap_err();
    assert_eq!(err, OpenError::Bitmap);
    assert_eq!(err.message(), "unreadable seen bitmap");

}

#[test]
fn games_in_no_slot_count_as_earlier_games() {
    let platform = platform();
    let puuids = names("s", 10);
    let mut rows = no_rows();
    rows.players = puuids.iter().enumerate().map(|(i, p)| (p.clone(), i as u32 + 1)).collect();
    rows.played.push((1, Played { ts_ms: 1, game_id: 2, slot: 9 }));
    rows.played.push((1, Played { ts_ms: 50, game_id: 51, slot: 200 }));
    let given = vec![3u8, 0, 0, 0, 0, 0, 0, 0, 0, 0, 0];
    rows.progress.push((platform.to_string(), 51, given.clone()));
    let mut store = Store::open(rows).unwrap();
    assert_eq!(store.games(1).unwrap().len(), 2);
    // Before the game in no slot: its row stays as it is.
    let mut early = mk_match(platform, 20, 1800);
    store.store_match(&mut early, &puuids, 20, false, TODAY).unwrap();
    assert_eq!(progress_of(&store, platform, 20)[0], 1);
    assert_eq!(progress_of(&store, platform, 51), given);
    // After it: it counts.
    let mut late = mk_match(platform, 60, 1800);
    store.store_match(&mut late, &puuids, 60, false, TODAY).unwrap();
    assert_eq!(progress_of(&store, platform, 60)[..2], [3, 1]);
}

#[test]
fn a_damaged_bitmap_is_loaded_as_far_as_it_goes() {
    // Two containers, out of order; no store writes them so.
    let mut bytes = 1u64.to_le_bytes().to_vec();
    bytes.extend(0u32.to_le_bytes());
    bytes.extend(12_346u32.to_le_bytes());
    bytes.extend(2u32.to_le_bytes());
    for key in [1u16, 0] {
        bytes.extend(key.to_le_bytes());
        bytes.extend(0u16.to_le_bytes());
    }
    bytes.extend([0u8; 8]);
    for value in [4u16, 5] {
        bytes.extend(value.to_le_bytes());
    }
    let mut rows = no_rows();
    rows.platforms[0].bitmap = Some(bytes.clone());
    let store = Store::open(rows).unwrap();
    assert!(store.is_seen(platform(), 65_536 + 4));
    assert!(store.is_seen(platform(), 5));
    assert!(!store.is_seen(platform(), 4));
    let mut rows = no_rows();
    rows.platforms[0].bitmap = Some(bytes[..bytes.len() - 1].to_vec());
    assert_eq!(Store::open(rows).map(|_| ()).unwrap_err(), OpenError::Bitmap);
}

#[test]
fn a_damaged_bitmap_can_be_written_again() {
    // One bitmap under key 0, with one run container that has no runs.
    let mut bytes = 1u64.to_le_bytes().to_vec();
    bytes.extend(0u32.to_le_bytes());
    bytes.extend(12_347u32.to_le_bytes());
    bytes.push(1);
    bytes.extend([0u8; 4]);
    bytes.extend(0u16.to_le_bytes());
    let mut seen = SeenGames::from_bytes(&bytes).unwrap();
    assert_eq!(seen.len(), 0);
    assert_eq!(seen.to_bytes(), SeenGames::new().to_bytes());
    seen.insert(7);
    assert!(SeenGames::from_bytes(&seen.to_bytes()).unwrap().contains(7));
}

#[test]
fn a_store_comes_back_from_its_rows() {
    let platform = platform();
    let mut rows = no_rows();
    rows.players = vec![("a".to_string(), 4), ("b".to_string(), 2)];
    rows.cohort = vec![(4, Member { joined_ms: 9, source: COHORT_SRC_APEX })];
    rows.outsiders = vec![(2, 1)];
    rows.progress = vec![(platform.to_string(), 77, vec![])];
    rows.played = vec![(4, Played { ts_ms: 10, game_id: 77, slot: 3 })];
    rows.frontier = vec![(
        4,
        Queued {
            platform: platform.to_string(),
            bucket: BUCKET_PRIORITY,
            due_ms: 50,
            task: FrontierTask { puuid: "a".to_string(), last_visit_ms: 0 },
        },
    )];
    rows.meta = vec![("cursor".to_string(), 8u32.to_le_bytes().to_vec())];
    rows.platforms[0].valid = Some(6u64.to_le_bytes().to_vec());
    let mut store = Store::open(rows).unwrap();
    assert_eq!(store.assign_player_ids(&["b".to_string(), "c".to_string()]), vec![2, 5]);
    assert!(store.is_cohort(4) && !store.is_cohort(2));
    assert_eq!(store.outsider_count(2), 1);
    assert_eq!(store.games(4).unwrap()[0].game_id, 77);
    assert_eq!(store.meta_get_u32("cursor"), Some(8));
    assert_eq!(store.meta_get_u32("other"), None);
    assert_eq!(store.frontier_pop_due(platform, 50).unwrap().1, 4);
    assert_eq!(valid_samples(&store), 6);
}

#[test]
fn a_checkpoint_lists_what_changed() {
    let platform = platform();
    let mut store = new_store();
    let puuids = names("c", 10);
    let mut rec = mk_match(platform, 100, 1800);
    store.store_match(&mut rec, &puuids, 100, false, TODAY).unwrap();
    store.meta_set_u32("cursor", 3);
    store.add_rank_snapshot(1, 5, RankSnap {
        tier: "MASTER".to_string(),
        division: "I".to_string(),
        lp: 10,
        wins: 1,
        losses: 2,
    });
    let cp = store.checkpoint();
    assert_eq!(cp.players.len(), 10);
    assert_eq!(cp.outsiders.len(), 10);
    assert_eq!(cp.progress, vec![(platform.to_string(), 100)]);
    assert_eq!(cp.played.len(), 10);
    assert!(cp.meta.contains(&"cursor".to_string()));
    assert_eq!(cp.ranks.len(), 1);
    assert_eq!(cp.ranks[0].2.lp, 10);
    // Nothing changed since.
    let cp = store.checkpoint();
    assert!(cp.players.is_empty() && cp.outsiders.is_empty() && cp.progress.is_empty());
    assert!(cp.played.is_empty() && cp.meta.is_empty() && cp.ranks.is_empty());
}

#[test]
fn a_commit_keeps_its_order() {
    let platform = platform();
    let mut store = new_store();
    let mut rec = mk_match(platform, 100, 1800);
    store.store_match(&mut rec, &names("k", 10), 100, false, TODAY).unwrap();
    let steps = store.commit();
    assert!(matches!(steps[0], CommitStep::Checkpoint));
    assert!(matches!(&steps[1], CommitStep::Flush(p) if p == platform));
    assert!(matches!(steps[2], CommitStep::Bitmaps));
    assert_eq!(steps.len(), 3);
    assert_eq!(store.open_writer_dates(), vec![TODAY.to_string()]);
    assert_eq!(store.bitmap_platforms(), vec!["EUW1", "KR", "NA1", "VN2"]);
}

#[test]
fn a_new_day_closes_the_segment() {
    let platform = platform();
    let mut store = new_store();
    let puuids = names("r", 10);
    let mut rec = mk_match(platform, 100, 1800);
    store.store_match(&mut rec, &puuids, 100, false, TODAY).unwrap();
    assert!(store.needs_roll(platform, "2026-07-06"));
    // Nothing is taken, and nothing is lost, until the old day is written.
    let mut next = mk_match(platform, 101, 1800);
    for _ in 0..2 {
        let refused = store.store_match(&mut next, &puuids, 101, false, "2026-07-06");
        assert_eq!(refused.map(|_| ()).unwrap_err(), DayOver);
        assert!(!store.is_seen(platform, 101));
        let (date, block) = store.segment_block(platform, 0).unwrap().unwrap();
        assert_eq!(date, TODAY);
        assert_eq!(
            lol_crawler::segment::read_segment_records(&block.seg).unwrap(),
            vec![rec.encode_to_vec()]
        );
    }
    store.segment_written(platform);
    store.store_match(&mut next, &puuids, 101, false, "2026-07-06").unwrap();
    assert!(!store.needs_roll(platform, "2026-07-06"));
    let (date, block) = store.segment_block(platform, 0).unwrap().unwrap();
    assert_eq!(date, "2026-07-06");
    assert_eq!(block.records, 1);
}

#[test]
fn nodes_get_ids_in_order() {
    let mut store = new_store();
    assert_eq!(store.node_add("alice", "h1", 5), 1);
    assert_eq!(store.node_add("bob", "h2", 6), 2);
    let all = store.nodes_all();
    assert_eq!(all.len(), 2);
    assert_eq!((all[0].0, all[0].1.name.as_str(), all[0].1.created_ms), (1, "alice", 5));
    assert_eq!(store.node(2).unwrap().token_sha256_hex, "h2");
}

#[test]
fn a_store_has_room_for_a_match() {
    let store = new_store();
    let all = names("z", 10);
    assert!(store.room_for(platform(), 1, 1800, &all, false));
    assert!(store.has_ids_for(&all));
    let mut rows = no_rows();
    rows.players = vec![("last".to_string(), u32::MAX - 5)];
    let full = Store::open(rows).unwrap();
    assert!(!full.room_for(platform(), 1, 1800, &all, false));
    assert!(!full.has_ids_for(&all));
    // Four ids are left: for four strangers, whoever else is listed.
    let mut some = names("z", 4);
    some.extend(names("z", 4));
    some.extend(["last".to_string(), "last".to_string()]);
    assert!(full.room_for(platform(), 1, 1800, &some, false));
    assert!(full.has_ids_for(&some));
    some[9] = "another".to_string();
    assert!(!full.has_ids_for(&some));
}

#[test]
fn known_players_need_no_new_ids() {
    let platform = platform();
    let puuids = names("k", 10);
    let mut rows = no_rows();
    rows.players =
        puuids.iter().enumerate().map(|(i, p)| (p.clone(), u32::MAX - 1 - i as u32)).collect();
    let mut store = Store::open(rows).unwrap();
    assert!(store.room_for(platform, 1, 1800, &puuids, false));
    let mut rec = mk_match(platform, 1, 1800);
    store.store_match(&mut rec, &puuids, 1, false, TODAY).unwrap();
    assert_eq!(rec.participants[0].player_id, u32::MAX - 1);
    assert!(!store.has_ids_for(&["stranger".to_string()]));
}

#[test]
fn a_sighting_is_counted_while_the_counter_has_room() {
    let platform = platform();
    let mut rows = no_rows();
    rows.players = vec![("p".to_string(), 1)];
    rows.outsiders = vec![(1, u32::MAX - 1)];
    let mut store = Store::open(rows).unwrap();
    let once = vec!["p".to_string()];
    let twice = vec!["p".to_string(), "p".to_string()];
    assert!(store.room_for(platform, 1, 1800, &once, true));
    assert!(!store.room_for(platform, 1, 1800, &twice, true));
    // Once growth goes on the first sighting makes them a member.
    assert!(store.room_for(platform, 1, 1800, &twice, false));
    let mut rec = mk_match(platform, 1, 1800);
    store.store_match(&mut rec, &once, 1, true, TODAY).unwrap();
    assert!(!store.room_for(platform, 2, 1800, &once, true));
    assert!(!store.room_for(platform, 2, 1800, &once, false));
    // Remakes and matches counted before count for nobody.
    assert!(store.room_for(platform, 2, 100, &once, true));
    assert!(store.room_for(platform, 1, 1800, &once, true));
}

#[test]
fn players_of_the_cohort_are_named_once() {
    let mut store = new_store();
    let ids = store.assign_player_ids(&names("m", 3));
    assert_eq!(store.cohort_add_batch(&ids, COHORT_SRC_APEX, 7), ids);
    assert!(store.cohort_add_batch(&ids, COHORT_SRC_ADOPTED, 8).is_empty());
    assert_eq!(store.member(ids[0]).unwrap().source, COHORT_SRC_APEX);
}

/// What survives a crash: the rows, and the bytes of one segment.
struct Disk {
    rows: StoreRows,
    seg: Vec<u8>,
}

fn do_step(disk: &mut Disk, store: &mut Store, step: &CommitStep) {
    match step {
        CommitStep::Checkpoint => {
            for id in store.checkpoint().players {
                disk.rows.players.push((store.player_name(id).unwrap().clone(), id));
            }
        }
        CommitStep::Flush(p) => {
            if let Some((_, block)) = store.segment_block(p, disk.seg.len() as u64).unwrap() {
                disk.seg.extend(block.seg);
            }
            store.segment_written(p);
        }
        CommitStep::Bitmaps => {
            for (i, p) in store.bitmap_platforms().iter().enumerate() {
                disk.rows.platforms[i].bitmap = store.bitmap(p);
            }
            store.bitmaps_written();
        }
    }
}

#[test]
fn a_crash_in_a_commit_does_no_harm() {
    let platform = platform();
    let total = {
        let mut store = new_store();
        let mut rec = mk_match(platform, 100, 1800);
        store.store_match(&mut rec, &names("d", 10), 100, false, TODAY).unwrap();
        store.commit().len()
    };
    for done in 0..=total {
        let mut disk = Disk { rows: no_rows(), seg: vec![] };
        let mut store = new_store();
        let mut rec = mk_match(platform, 100, 1800);
        store.store_match(&mut rec, &names("d", 10), 100, false, TODAY).unwrap();
        for step in store.commit().iter().take(done) {
            do_step(&mut disk, &mut store, step);
        }
        let blocks = lol_crawler::segment::read_segment_records(&disk.seg).unwrap();
        assert_eq!(blocks.len(), (done >= 2) as usize);
        // A bitmap that names the game comes after the block that holds it.
        let again = Store::open(disk.rows).unwrap();
        assert_eq!(again.is_seen(platform, 100), done == total);
        assert!(!again.is_seen(platform, 100) || !blocks.is_empty());
        // Every player of a written block has the name it had.
        for bytes in &blocks {
            assert_eq!(bytes, &rec.encode_to_vec());
            for (k, p) in rec.participants.iter().enumerate() {
                assert_eq!(again.player_name(p.player_id), Some(&names("d", 10)[k]));
            }
        }
    }
}
