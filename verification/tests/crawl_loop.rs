//! The crawl of a platform: brake, seeds, ladder, visits, match lists; and
//! what is written about it.

use lol_crawler::api_key::{clean_key, key_in_file};
use lol_crawler::config::{
    enabled_regions, BRAKE_OFF_COUNT, BRAKE_ON_COUNT, BRAKE_OVERDUE_GRACE_MS, SEED_INTERVAL_SECS,
};
use lol_crawler::crawler::{
    apex_entries, band_names, cursor_key, enroll, expand_page, expanded, flush_due, idle_sleep_ms,
    is_deep, next_visit, seed_due, seed_key, seeded, seeds_league, solo_rank, start_time_s,
    update_brake, visit_failed, visited, LadderPage, NextVisit, RETRY_VISIT_MS,
};
use lol_crawler::frontier::{FrontierTask, BUCKET_PRIORITY, DEEP_VISIT_MS};
use lol_crawler::invites::{
    add_invite, consume_invite, generate_token, lines_of, new_code, ALPHABET,
};
use lol_crawler::matchlist::{new_ids, sorted_once, Matchlist};
use lol_crawler::metrics::{Metrics, Reporter};
use lol_crawler::registry::NodeReport;
use lol_crawler::riot::{LeagueEntry, LeagueListEntry};
use lol_crawler::store::{
    PlatformRows, RankSnap, Store, StoreRows, COHORT_SRC_APEX, COHORT_SRC_LADDER,
};
use lol_crawler::text::{decimal_text, hex_text, trim_text};

fn new_store() -> Store {
    Store::open(StoreRows {
        players: vec![],
        cohort: vec![],
        outsiders: vec![],
        progress: vec![],
        played: vec![],
        frontier: vec![],
        nodes: vec![],
        meta: vec![],
        platforms: enabled_regions()
            .iter()
            .map(|_| PlatformRows { bitmap: None, valid: None })
            .collect(),
    })
    .unwrap()
}

fn task(puuid: &str, last_visit_ms: u64) -> FrontierTask {
    FrontierTask { puuid: puuid.to_string(), last_visit_ms }
}

fn queue(store: &mut Store, n: u64, due_ms: u64) {
    let first: u64 = store.debug_stats(0, 0).frontier.iter().map(|f| f.2).sum();
    for i in first..first + n {
        store.frontier_push("KR", BUCKET_PRIORITY, due_ms, i as u32, &task(&format!("q{i}"), 0));
    }
}

#[test]
fn the_brake_has_hysteresis() {
    let mut store = new_store();
    let now = BRAKE_OVERDUE_GRACE_MS + 1_000;
    queue(&mut store, BRAKE_OFF_COUNT - 1, 0);
    assert!(!update_brake(&store, "KR", now, false));
    assert!(!update_brake(&store, "KR", now, true));
    queue(&mut store, 1, 0);
    // Between the two counts the brake stays as it is.
    assert!(!update_brake(&store, "KR", now, false));
    assert!(update_brake(&store, "KR", now, true));
    queue(&mut store, BRAKE_ON_COUNT - BRAKE_OFF_COUNT - 1, 0);
    assert!(!update_brake(&store, "KR", now, false));
    queue(&mut store, 1, 0);
    assert!(update_brake(&store, "KR", now, false));
    // Nothing is late on another platform, nor yet.
    assert!(!update_brake(&store, "EUW1", now, true));
    assert!(!update_brake(&store, "KR", 5_000, true));
}

#[test]
fn seeds_are_fetched_at_intervals() {
    let mut store = new_store();
    assert!(seed_due(&store, "KR", 0));
    seeded(&mut store, "KR", 1_000);
    assert_eq!(store.meta_get_u32(&seed_key("KR")), Some(1_000));
    assert_eq!(seed_key("KR"), "seed_apex_KR");
    let interval = SEED_INTERVAL_SECS as u32;
    assert!(!seed_due(&store, "KR", 1_000 + interval - 1));
    assert!(seed_due(&store, "KR", 1_000 + interval));
    assert!(!seed_due(&store, "KR", 5));
    assert!(seed_due(&store, "EUW1", 1_000));
    assert!(seeds_league(0, true) && seeds_league(2, false) && !seeds_league(1, true));
}

#[test]
fn apex_players_are_enrolled() {
    let mut store = new_store();
    let entry = |puuid: &str| LeagueListEntry {
        puuid: puuid.to_string(),
        league_points: 900,
        wins: 3,
        losses: 2,
    };
    let entries = apex_entries(&vec![entry("a"), entry(""), entry("b")], "CHALLENGER");
    assert_eq!(entries.len(), 2);
    assert_eq!(
        entries[1],
        (
            "b".to_string(),
            RankSnap {
                tier: "CHALLENGER".to_string(),
                division: "I".to_string(),
                lp: 900,
                wins: 3,
                losses: 2,
            }
        )
    );
    assert_eq!(enroll(&mut store, "KR", entries.clone(), COHORT_SRC_APEX, 7), 2);
    // Enrolled before: nobody is new, and the first task stays.
    assert_eq!(enroll(&mut store, "KR", entries, COHORT_SRC_APEX, 9), 0);
    assert_eq!(store.frontier_next_due("KR"), Some(7));
    assert_eq!(store.debug_stats(0, 0).cohort, 2);
    assert_eq!(store.checkpoint().ranks.len(), 4);
}

#[test]
fn the_ladder_is_walked_down() {
    let mut store = new_store();
    let entry = LeagueEntry {
        puuid: "a".to_string(),
        queue_type: "RANKED_SOLO_5x5".to_string(),
        tier: "DIAMOND".to_string(),
        rank: "I".to_string(),
        league_points: 1,
        wins: 1,
        losses: 1,
    };
    assert_eq!(expand_page(&store, "KR", true), None);
    let at = expand_page(&store, "KR", false).unwrap();
    assert_eq!(at, LadderPage { band: 0, page: 1 });
    assert!(expanded(&mut store, "KR", at, &vec![entry.clone()], 5));
    let a = store_id(&mut store, "a");
    assert_eq!(store.member(a).unwrap().source, COHORT_SRC_LADDER);
    let at = expand_page(&store, "KR", false).unwrap();
    assert_eq!(at, LadderPage { band: 0, page: 2 });
    // Nobody new on this page, and nobody at all on the next.
    assert!(!expanded(&mut store, "KR", at, &vec![entry], 6));
    let at = expand_page(&store, "KR", false).unwrap();
    assert_eq!(at, LadderPage { band: 0, page: 3 });
    assert!(!expanded(&mut store, "KR", at, &vec![], 7));
    assert_eq!(expand_page(&store, "KR", false), Some(LadderPage { band: 1, page: 1 }));
    assert_eq!(cursor_key("KR"), "expand_cursor_KR");
    store.meta_set_u32("expand_cursor_KR", 70_003);
    let last = expand_page(&store, "KR", false).unwrap();
    assert_eq!(last, LadderPage { band: 7, page: 3 });
    assert_eq!(band_names(last.band), ("EMERALD", "IV"));
    expanded(&mut store, "KR", last, &vec![], 8);
    assert_eq!(expand_page(&store, "KR", false), None);
}

fn store_id(store: &mut Store, puuid: &str) -> u32 {
    store.assign_player_ids(&[puuid.to_string()])[0]
}

#[test]
fn only_the_cohort_is_visited() {
    let mut store = new_store();
    let member = store_id(&mut store, "m");
    let other = store_id(&mut store, "o");
    store.cohort_add_batch(&vec![member], COHORT_SRC_APEX, 1);
    store.frontier_push("KR", BUCKET_PRIORITY, 10, other, &task("o", 0));
    store.frontier_push("KR", BUCKET_PRIORITY, 20, member, &task("m", 0));
    assert!(matches!(next_visit(&mut store, "KR", 5), NextVisit::Idle));
    assert!(matches!(next_visit(&mut store, "KR", 30), NextVisit::Dropped(p) if p == other));
    let t = match next_visit(&mut store, "KR", 30) {
        NextVisit::Visit(p, t) if p == member => t,
        _ => panic!("a visit"),
    };
    assert!(!is_deep(&t));
    visit_failed(&mut store, "KR", member, &t, 100);
    assert_eq!(store.queued(member).unwrap().due_ms, 100 + RETRY_VISIT_MS);
}

#[test]
fn visits_that_were_cut_short_are_repeated() {
    let mut store = new_store();
    visited(&mut store, "KR", 1, &task("a", DEEP_VISIT_MS), 50, 900, true);
    let q = store.queued(1).unwrap();
    assert_eq!((q.due_ms, q.task.last_visit_ms), (50, DEEP_VISIT_MS));
    visited(&mut store, "KR", 2, &task("b", DEEP_VISIT_MS), 50, 900, false);
    let q = store.queued(2).unwrap();
    assert_eq!((q.due_ms, q.task.last_visit_ms), (900, 50));
    visited(&mut store, "KR", 3, &task("c", 7), 50, 900, true);
    let q = store.queued(3).unwrap();
    assert_eq!((q.due_ms, q.task.last_visit_ms), (900, 50));
    assert!(is_deep(&task("a", DEEP_VISIT_MS)));
    assert_eq!(start_time_s(true, 99), None);
    assert_eq!(start_time_s(false, 1_700_000_000_999), Some(1_700_000_000 - 130 * 86_400));
}

#[test]
fn ranks_of_other_queues_do_not_count() {
    let entry = |queue: &str, lp| LeagueEntry {
        puuid: "a".to_string(),
        queue_type: queue.to_string(),
        tier: "GOLD".to_string(),
        rank: "IV".to_string(),
        league_points: lp,
        wins: 1,
        losses: 2,
    };
    assert_eq!(solo_rank(&vec![entry("RANKED_FLEX_SR", 3)]), None);
    let rank = solo_rank(&vec![entry("RANKED_FLEX_SR", 3), entry("RANKED_SOLO_5x5", 44)]).unwrap();
    assert_eq!((rank.tier.as_str(), rank.division.as_str(), rank.lp), ("GOLD", "IV", 44));
}

#[test]
fn waiting_times() {
    assert_eq!(idle_sleep_ms(None, 5), 30_000);
    assert_eq!(idle_sleep_ms(Some(5), 9), 1_000);
    assert_eq!(idle_sleep_ms(Some(2_500), 500), 2_000);
    assert_eq!(idle_sleep_ms(Some(900_000), 500), 30_000);
    assert!(flush_due(60, false) && flush_due(0, true) && !flush_due(59, false));
}

fn ids(from: u64, n: u64) -> Vec<String> {
    (from..from + n).map(|i| format!("EUW1_{i}")).collect()
}

#[test]
fn match_lists_are_walked_to_known_games() {
    let mut store = new_store();
    let mut list = Matchlist::first(ids(1_000, 100));
    assert!(list.wants_more(&store, false, false));
    assert!(!list.wants_more(&store, true, true));
    assert_eq!(list.start(), 100);
    // A game that was fetched before, on the last page.
    store.mark_seen("EUW1", 2_050);
    list.add(ids(2_000, 100));
    assert_eq!(list.start(), 200);
    assert!(!list.wants_more(&store, false, false));
    assert!(list.wants_more(&store, true, false));
    list.add(ids(3_000, 7));
    assert!(!list.wants_more(&store, true, false));
    assert_eq!(list.into_ids().len(), 207);
}

#[test]
fn a_full_match_list_ends() {
    let store = new_store();
    let mut list = Matchlist::first(ids(0, 100));
    let mut pages = 1;
    while list.wants_more(&store, true, false) {
        list.add(ids(0, 100));
        pages += 1;
    }
    assert_eq!(pages, 100);
    assert_eq!(list.into_ids().len(), 100);
}

#[test]
fn ids_are_sorted_and_each_comes_once() {
    let list = ["b", "a", "b", "a1", "a"].iter().map(|s| s.to_string()).collect();
    assert_eq!(sorted_once(list), ["a", "a1", "b"]);
}

#[test]
fn new_games_of_the_platform_are_fetched() {
    let mut store = new_store();
    store.mark_seen("EUW1", 2);
    let list: Vec<String> =
        ["EUW1_3", "EUW1_2", "KR_4", "junk", "EUW1_1"].iter().map(|s| s.to_string()).collect();
    assert_eq!(new_ids(&store, "EUW1", &list), ["EUW1_3", "EUW1_1"]);
}

// ---- who may come ----

#[test]
fn an_invite_works_once() {
    let content = add_invite("", "ABC", "for alice");
    assert_eq!(content, "ABC\tfor alice\n");
    let content = add_invite(&content, "DEF", "bob");
    assert_eq!(consume_invite(&content, "XYZ"), None);
    assert_eq!(consume_invite(&content, "AB"), None);
    let left = consume_invite(&content, " ABC\n").unwrap();
    assert_eq!(left, "DEF\tbob\n");
    assert_eq!(consume_invite(&left, "ABC"), None);
    assert_eq!(consume_invite(&left, "DEF").unwrap(), "");
    assert_eq!(add_invite("X\ty", "Z", "w"), "X\ty\nZ\tw\n");
    assert_eq!(consume_invite("A\tx\nB\ty\nA\tz\n", "A").unwrap(), "B\ty\n");
    assert_eq!(lines_of("a\r\n\nb"), ["a", "", "b"]);
    // A line end that is no line end of the file: it stays.
    assert_eq!(consume_invite("CODE\r\r\nX\n", "X").unwrap(), "CODE\r\n");
}

#[test]
fn codes_and_tokens_are_random() {
    let a = new_code();
    let b = new_code();
    assert_ne!(a, b);
    assert_eq!(a.len(), 10);
    assert!(a.chars().all(|c| ALPHABET.contains(c)));
    let t = generate_token();
    assert_eq!(t.len(), 64);
    assert!(t.chars().all(|c| c.is_ascii_hexdigit() && !c.is_ascii_uppercase()));
    assert_ne!(t, generate_token());
}

#[test]
fn keys_are_found_in_files() {
    assert_eq!(clean_key(" \"RGAPI-1\"\n"), "RGAPI-1");
    assert_eq!(clean_key("\"\""), "");
    assert_eq!(key_in_file("# key\n  API_KEY=\"k1\"\nAPI_KEY=k2\n"), Some("k1".to_string()));
    assert_eq!(key_in_file("KEY=x\n"), None);
}

// ---- what is written ----

fn report(name: &str, completed: u64) -> NodeReport {
    NodeReport {
        id: 1,
        name: name.to_string(),
        completed,
        audits_pass: 0,
        audits_hard_fail: 0,
        audits_soft_fail: 0,
        key_bad: false,
        idle_secs: Some(0),
    }
}

#[test]
fn a_line_a_minute() {
    let mut metrics = Metrics::new(&enabled_regions());
    metrics.inc_games("KR");
    metrics.inc_games("KR");
    metrics.inc_games("XX");
    let totals = metrics.totals();
    assert_eq!(totals.len(), 4);
    assert_eq!(totals[1], ("KR".to_string(), 2));
    let games = vec![("EUW1".to_string(), 3), ("KR".to_string(), 2)];
    let valid = vec![("KR".to_string(), 1)];
    let mut reporter = Reporter::new();
    assert_eq!(
        reporter.line(&games, &valid, &vec![], 4, 5),
        "[window 01] games/60s: EUW1=+3 (total 3)  KR=+2 (total 2) | \
         valid samples: KR=+1 (total 1) | nodes: none enrolled | jobs: 4 queued, 5 leased"
    );
    let games = vec![("EUW1".to_string(), 10), ("KR".to_string(), 2)];
    let mut late = report("bob", 7);
    late.idle_secs = Some(300);
    late.key_bad = true;
    late.audits_pass = 2;
    late.audits_hard_fail = 1;
    let mut gone = report("zoe", 0);
    gone.idle_secs = None;
    assert_eq!(
        reporter.line(&games, &valid, &vec![report("al", 5), late, gone], 0, 0),
        "[window 02] games/60s: EUW1=+7 (total 10)  KR=+0 (total 2) | \
         valid samples: KR=+0 (total 1) | nodes: al=+5  bob=+7 audits:2ok/0soft/1FAIL KEY-BAD \
         idle:5m  zoe=+0 offline | jobs: 0 queued, 0 leased"
    );
}

#[test]
fn small_texts() {
    assert_eq!(decimal_text(0), "0");
    assert_eq!(decimal_text(u64::MAX), "18446744073709551615");
    assert_eq!(hex_text(&[0, 0xab, 0x0f]), "00ab0f");
    assert_eq!(trim_text(" \t a b\u{a0}\n"), "a b");
}

#[test]
fn invites_with_other_line_ends_work_once() {
    let content = "ABC\tal\r\nDEF\tbo\r\n";
    let left = consume_invite(content, "ABC").unwrap();
    assert_eq!(left, "DEF\tbo\n");
    assert_eq!(consume_invite(&left, "ABC"), None);
    assert_eq!(consume_invite(&left, "DEF").unwrap(), "");
    // A line with one return too many is another one, until it is written again.
    let left = consume_invite("ABC\nABC\r\r\n", "ABC").unwrap();
    assert_eq!(consume_invite(&left, "ABC").unwrap(), "");
}
