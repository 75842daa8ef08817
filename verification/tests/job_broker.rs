//! The broker, the node registry, and the leaderboard.

use lol_crawler::api::{
    auth, bearer_token, check_enroll, check_invite, check_proto, leaderboard, poll_wait_ms,
    stats_response, valid_name,
};
use lol_crawler::broker::{Broker, Completion, MAX_ATTEMPTS, TARGET_INFLIGHT_PER_HOST};
use lol_crawler::config::LEASE_MS;
use lol_crawler::proto::{JobOutcome, JobResult};
use lol_crawler::registry::{token_hash_hex, Registry};
use lol_crawler::stats::{Bucket, NodeWindows, Stats, HOUR_MS, MINUTE_MS};

const NOW: u64 = 1_700_000_000_000;

fn setup() -> (Registry, Broker) {
    let mut registry = Registry::new();
    registry.enroll_runtime(1, "alice".into(), "h1".into());
    registry.enroll_runtime(2, "bob".into(), "h2".into());
    registry.touch(1, NOW);
    registry.touch(2, NOW);
    (registry, Broker::new())
}

fn ok_result(id: u64, body: &str) -> JobResult {
    JobResult { id, outcome: JobOutcome::Done, body: Some(body.to_string()), error: None }
}

fn failed_result(id: u64, error: &str) -> JobResult {
    JobResult { id, outcome: JobOutcome::Failed, body: None, error: Some(error.to_string()) }
}

/// What a fetch was told, if it was told something.
fn told(done: Completion) -> Option<(u64, Result<Option<String>, String>)> {
    done.resolved.map(|r| (r.id, r.result))
}

#[test]
fn fetch_roundtrip() {
    let (mut reg, mut broker) = setup();
    let id = broker.fetch("europe", "match-v5.match", "/x".into(), NOW).unwrap();
    let jobs = broker.take_jobs(&reg, 1, &vec![], NOW).jobs;
    assert_eq!(jobs.len(), 1);
    assert_eq!(jobs[0].host, "europe");
    assert_eq!(jobs[0].id, id);
    let done = broker.complete(&mut reg, 1, ok_result(jobs[0].id, "{\"a\":1}"));
    assert_eq!(told(done), Some((id, Ok(Some("{\"a\":1}".to_string())))));
}

#[test]
fn audit_twin_goes_to_other_node_and_mismatch_is_counted() {
    let (mut reg, mut broker) = setup();
    let id = broker.fetch("europe", "match-v5.match", "/m/1".into(), NOW).unwrap();

    let handed = broker.take_jobs(&reg, 1, &vec![], NOW);
    let jobs1 = handed.jobs;
    assert_eq!(jobs1.len(), 1, "primary only; twin created after dispatch");
    // Every job is audited.
    assert_eq!(handed.auditable, vec![id]);
    broker.start_audits(1, &handed.auditable, NOW);
    // Twin must not be dispatched to node 1.
    assert!(broker.take_jobs(&reg, 1, &vec![], NOW).jobs.is_empty());
    let jobs2 = broker.take_jobs(&reg, 2, &vec![], NOW).jobs;
    assert_eq!(jobs2.len(), 1, "twin goes to the other node");
    assert_eq!(jobs2[0].path, "/m/1");

    let done = broker.complete(&mut reg, 1, ok_result(jobs1[0].id, "{\"winner\":\"blue\"}"));
    assert_eq!(told(done), Some((id, Ok(Some("{\"winner\":\"blue\"}".to_string())))));
    let done = broker.complete(&mut reg, 2, ok_result(jobs2[0].id, "{\"winner\":\"red\"}"));
    let mismatch = done.mismatch.unwrap();
    assert!(mismatch.hard);
    assert_eq!((mismatch.primary_node, mismatch.twin_node), (1, 2));

    let reports = reg.report(NOW);
    for r in reports {
        if r.name == "alice" || r.name == "bob" {
            assert_eq!(r.audits_hard_fail, 1, "{} should be flagged", r.name);
        }
    }
}

#[test]
fn expired_lease_requeues_for_other_nodes() {
    let (mut reg, mut broker) = setup();
    let id = broker.fetch("americas", "match-v5.ids", "/l".into(), NOW).unwrap();
    let jobs = broker.take_jobs(&reg, 1, &vec![], NOW).jobs;
    assert_eq!(jobs.len(), 1);
    // Nothing else to hand out while leased.
    assert!(broker.take_jobs(&reg, 2, &vec![], NOW).jobs.is_empty());
    broker.sweep(NOW + LEASE_MS + 1000);
    let jobs2 = broker.take_jobs(&reg, 2, &vec![], NOW + LEASE_MS + 1000).jobs;
    assert_eq!(jobs2.len(), 1);
    assert_eq!(jobs2[0].id, jobs[0].id);
    let done = broker.complete(&mut reg, 2, ok_result(jobs2[0].id, "[]"));
    assert_eq!(told(done), Some((id, Ok(Some("[]".to_string())))));
}

#[test]
fn shutdown_resolves_pending_fetches() {
    let (_reg, mut broker) = setup();
    let id = broker.fetch("asia", "match-v5.match", "/x".into(), NOW).unwrap();
    assert_eq!(broker.shutdown(), vec![id]);
    assert!(broker.is_shutdown());
    assert_eq!(broker.fetch("asia", "match-v5.match", "/y".into(), NOW), None);
}

#[test]
fn audits_pass_on_the_same_document() {
    let (mut reg, mut broker) = setup();
    broker.fetch("europe", "match-v5.match", "/m/1".into(), NOW).unwrap();
    let handed = broker.take_jobs(&reg, 1, &vec![], NOW);
    broker.start_audits(1, &handed.auditable, NOW);
    let twin = broker.take_jobs(&reg, 2, &vec![], NOW).jobs.remove(0);
    broker.complete(&mut reg, 1, ok_result(handed.jobs[0].id, "{\"a\":1,\"b\":[2]}"));
    let done = broker.complete(&mut reg, 2, ok_result(twin.id, " {\"b\": [2], \"a\": 1}"));
    assert!(done.mismatch.is_none());
    let reports = reg.report(NOW);
    assert_eq!(reports[0].audits_pass, 1);
    assert_eq!(reports[1].audits_pass, 1);
}

#[test]
fn audits_of_changing_endpoints_fail_softly() {
    let (mut reg, mut broker) = setup();
    broker.fetch("europe", "match-v5.ids", "/l".into(), NOW).unwrap();
    let handed = broker.take_jobs(&reg, 1, &vec![], NOW);
    broker.start_audits(1, &handed.auditable, NOW);
    let twin = broker.take_jobs(&reg, 2, &vec![], NOW).jobs.remove(0);
    broker.complete(&mut reg, 1, ok_result(handed.jobs[0].id, "[1]"));
    let done = broker.complete(&mut reg, 2, ok_result(twin.id, "[1,2]"));
    assert!(!done.mismatch.unwrap().hard);
    assert_eq!(reg.report(NOW)[0].audits_soft_fail, 1);
}

#[test]
fn no_job_is_audited_without_another_node() {
    let mut registry = Registry::new();
    registry.enroll_runtime(1, "alice".into(), "h1".into());
    registry.touch(1, NOW);
    let mut broker = Broker::new();
    broker.fetch("europe", "match-v5.match", "/m".into(), NOW).unwrap();
    let handed = broker.take_jobs(&registry, 1, &vec![], NOW);
    assert_eq!(handed.jobs.len(), 1);
    assert!(handed.auditable.is_empty());
}

#[test]
fn a_failed_job_goes_round_until_it_is_given_up() {
    let (mut reg, mut broker) = setup();
    let id = broker.fetch("kr", "match-v5.ids", "/l".into(), NOW).unwrap();
    for k in 1..=MAX_ATTEMPTS {
        let node = 1 + k % 2;
        let jobs = broker.take_jobs(&reg, node, &vec![], NOW).jobs;
        assert_eq!(jobs.len(), 1, "attempt {k}");
        let done = broker.complete(&mut reg, node, failed_result(id, "boom"));
        if k < MAX_ATTEMPTS {
            assert!(done.requeued);
            assert_eq!(told(done), None);
        } else {
            let (told_id, res) = told(done).unwrap();
            assert_eq!(told_id, id);
            assert!(res.is_err());
        }
    }
    assert_eq!(broker.depth(), (0, 0));
}

#[test]
fn late_and_foreign_answers_are_ignored() {
    let (mut reg, mut broker) = setup();
    let id = broker.fetch("kr", "match-v5.ids", "/l".into(), NOW).unwrap();
    broker.take_jobs(&reg, 1, &vec![], NOW);
    // Not the holder: a failure does not count.
    let done = broker.complete(&mut reg, 2, failed_result(id, "no"));
    assert!(!done.requeued);
    assert_eq!(told(done), None);
    let done = broker.complete(&mut reg, 1, ok_result(id, "[]"));
    assert!(told(done).is_some());
    // The same answer once more.
    let done = broker.complete(&mut reg, 1, ok_result(id, "[]"));
    assert_eq!(told(done), None);
}

#[test]
fn a_refused_key_marks_the_node() {
    let (mut reg, mut broker) = setup();
    let id = broker.fetch("kr", "match-v5.ids", "/l".into(), NOW).unwrap();
    broker.take_jobs(&reg, 1, &vec![], NOW);
    let res = JobResult { id, outcome: JobOutcome::KeyRejected, body: None, error: None };
    let done = broker.complete(&mut reg, 1, res);
    assert!(done.requeued);
    assert!(reg.report(NOW)[0].key_bad);
    // Work that goes through shows that the key is good again.
    let jobs = broker.take_jobs(&reg, 1, &vec![], NOW).jobs;
    let done = broker.complete(&mut reg, 1, ok_result(jobs[0].id, "[]"));
    assert_eq!(done.counted, Some(false));
    assert!(!reg.report(NOW)[0].key_bad);
}

#[test]
fn nodes_are_topped_up_per_host() {
    let (reg, mut broker) = setup();
    for i in 0..12 {
        broker.fetch("europe", "match-v5.ids", format!("/{i}"), NOW).unwrap();
        broker.fetch("asia", "match-v5.ids", format!("/{i}"), NOW).unwrap();
    }
    assert_eq!(broker.depth(), (24, 0));
    let pending = vec![("europe".to_string(), 6u32)];
    let jobs = broker.take_jobs(&reg, 1, &pending, NOW).jobs;
    let on = |host: &str| jobs.iter().filter(|j| j.host == host).count();
    assert_eq!(on("europe"), 2);
    assert_eq!(on("asia"), TARGET_INFLIGHT_PER_HOST as usize);
    assert_eq!(broker.depth(), (14, 10));
}

#[test]
fn a_thing_that_does_not_exist_is_an_answer() {
    let (mut reg, mut broker) = setup();
    let id = broker.fetch("kr", "match-v5.match", "/m".into(), NOW).unwrap();
    broker.take_jobs(&reg, 1, &vec![], NOW);
    let res = JobResult { id, outcome: JobOutcome::NotFound, body: None, error: None };
    let done = broker.complete(&mut reg, 1, res);
    assert_eq!(done.counted, Some(false));
    assert_eq!(told(done), Some((id, Ok(None))));
}

// ---- the registry ----

#[test]
fn tokens_are_known_by_their_hash() {
    assert_eq!(
        token_hash_hex("abc"),
        "ba7816bf8f01cfea414140de5dae2223b00361a396177a9cb410ff61f20015ad"
    );
    let mut registry = Registry::new();
    registry.enroll_runtime(4, "alice".into(), token_hash_hex("secret"));
    assert_eq!(registry.auth("secret"), Some(4));
    assert_eq!(registry.auth("other"), None);
    assert!(registry.name_taken("alice"));
    assert!(!registry.name_taken("bob"));
    assert_eq!(registry.name_of(4), "alice");
    assert_eq!(registry.name_of(9), "node#9");
}

#[test]
fn reports_come_in_the_order_of_the_names() {
    let mut registry = Registry::new();
    registry.enroll_runtime(1, "zoe".into(), "h1".into());
    registry.enroll_runtime(2, "adam".into(), "h2".into());
    registry.touch(2, NOW);
    registry.job_completed(2);
    let reports = registry.report(NOW + 61_500);
    assert_eq!(reports[0].name, "adam");
    assert_eq!(reports[0].completed, 1);
    assert_eq!(reports[0].idle_secs, Some(61));
    assert_eq!(reports[1].name, "zoe");
    assert_eq!(reports[1].idle_secs, None);
}

// ---- the leaderboard ----

#[test]
fn windows_roll_and_totals_persist() {
    let mut stats = Stats::default();
    let t0 = 1_000_000 * HOUR_MS; // some hour boundary
    stats.record(1, true, t0);
    stats.record(1, false, t0 + MINUTE_MS);

    let snap = stats.snapshot(t0 + 2 * MINUTE_MS);
    let n = &snap[0];
    assert_eq!(n.m60.requests, 2);
    assert_eq!(n.m60.matches, 1);
    assert_eq!(n.h24.requests, 2);
    assert_eq!(n.all.requests, 2);

    // 61 minutes later the minute ring is empty, hours still count.
    let snap = stats.snapshot(t0 + 62 * MINUTE_MS);
    let n = &snap[0];
    assert_eq!(n.m60.requests, 0);
    assert_eq!(n.h24.requests, 2);

    // 25 hours later the 24 h window is empty, 7 d and all-time not.
    let snap = stats.snapshot(t0 + 25 * HOUR_MS);
    let n = &snap[0];
    assert_eq!(n.h24.requests, 0);
    assert_eq!(n.d7.requests, 2);
    assert_eq!(n.all.requests, 2);
}

#[test]
fn dirty_flush_roundtrips_through_load() {
    let mut stats = Stats::default();
    let t0 = 500_000 * HOUR_MS;
    stats.record(7, true, t0);
    stats.record(7, true, t0 + HOUR_MS); // second hour bucket
    let dirty = stats.take_dirty();
    assert_eq!(dirty.len(), 2);
    assert!(stats.take_dirty().is_empty(), "drained");

    // Reload far in the future: totals survive, windows are empty.
    let mut reloaded = Stats::load(dirty, t0 + 400 * HOUR_MS);
    let snap = reloaded.snapshot(t0 + 400 * HOUR_MS);
    assert_eq!(snap[0].all.requests, 2);
    assert_eq!(snap[0].all.matches, 2);
    assert_eq!(snap[0].d7.requests, 0);
}

#[test]
fn the_leaderboard_is_ranked() {
    let mut registry = Registry::new();
    registry.enroll_runtime(1, "carol".into(), "h1".into());
    registry.enroll_runtime(2, "bob".into(), "h2".into());
    registry.enroll_runtime(3, "alice".into(), "h3".into());
    registry.touch(1, NOW);
    registry.touch(2, NOW - 120_000);
    let b = |requests, matches| Bucket { requests, matches };
    let windows = vec![NodeWindows { node_id: 1, m60: b(1, 0), h24: b(2, 1), d7: b(3, 1), all: b(9, 4) }];
    let nodes = leaderboard(&registry.report(NOW), &windows);
    let names: Vec<&str> = nodes.iter().map(|n| n.name.as_str()).collect();
    assert_eq!(names, ["carol", "alice", "bob"]);
    assert!(nodes[0].online);
    assert!(!nodes[1].online && !nodes[2].online);
    assert_eq!(nodes[0].requests.all, 9);
    assert_eq!(nodes[0].matches.h24, 1);
    assert_eq!(nodes[1].requests.all, 0);
    let resp = stats_response(&registry, 3, &windows, NOW);
    assert_eq!(resp.you, "alice");
    assert_eq!(resp.generated_ms, NOW);
    assert_eq!(resp.nodes, nodes);
}

// ---- who is let in ----

#[test]
fn names_of_nodes() {
    assert!(valid_name("a"));
    assert!(valid_name("node_1-b"));
    assert!(valid_name(&"x".repeat(32)));
    assert!(!valid_name(""));
    assert!(!valid_name(&"x".repeat(33)));
    assert!(!valid_name("Alice"));
    assert!(!valid_name("a b"));
    assert!(!valid_name("é"));
}

#[test]
fn only_the_same_protocol_is_spoken() {
    assert!(check_proto(Some("1")).is_ok());
    let refused = check_proto(Some("2")).unwrap_err();
    assert_eq!(refused.status, 426);
    assert_eq!(
        refused.message,
        "protocol version mismatch (server speaks v1); please update crawler-node"
    );
    assert_eq!(check_proto(None).unwrap_err().status, 426);
    assert_eq!(check_proto(Some("one")).unwrap_err().status, 426);
}

#[test]
fn bearers_of_a_token_are_let_in() {
    let mut registry = Registry::new();
    registry.enroll_runtime(7, "alice".into(), token_hash_hex("t0k"));
    assert_eq!(bearer_token(Some("Bearer t0k")), Some("t0k"));
    assert_eq!(bearer_token(Some("Basic t0k")), None);
    assert_eq!(auth(&registry, Some("Bearer t0k")), Ok(7));
    let refused = auth(&registry, Some("Bearer other")).unwrap_err();
    assert_eq!((refused.status, refused.message.as_str()), (401, "invalid or unknown token"));
    assert_eq!(auth(&registry, None).unwrap_err().status, 401);
}

#[test]
fn enrolment_is_checked_in_order() {
    let mut registry = Registry::new();
    registry.enroll_runtime(7, "alice".into(), "h".into());
    assert_eq!(check_enroll(&registry, None, "UPPER").unwrap_err().status, 426);
    assert_eq!(check_enroll(&registry, Some("1"), "UPPER").unwrap_err().status, 400);
    assert_eq!(check_enroll(&registry, Some("1"), "alice").unwrap_err().status, 409);
    assert!(check_enroll(&registry, Some("1"), "bob").is_ok());
    assert!(check_invite(Some(true)).is_ok());
    assert_eq!(check_invite(Some(false)).unwrap_err().status, 403);
    assert_eq!(check_invite(None).unwrap_err().status, 500);
    assert_eq!(poll_wait_ms(100), 100);
    assert_eq!(poll_wait_ms(1_000_000), 30_000);
}

#[test]
fn a_window_ends_with_the_current_hour() {
    let b = |requests| Bucket { requests, matches: 0 };
    let rows = vec![(1, 0, b(1)), (1, HOUR_MS, b(2)), (1, 2 * HOUR_MS, b(4))];
    let snap = Stats::load(rows, HOUR_MS).snapshot(HOUR_MS);
    assert_eq!(snap.len(), 1);
    assert_eq!((snap[0].h24, snap[0].d7, snap[0].all), (b(3), b(3), b(7)));
    assert_eq!(snap[0].m60, b(0));
}

#[test]
fn dirty_hours_come_once_and_in_order() {
    let t0 = 1_800_000_000_000;
    let b = |requests, matches| Bucket { requests, matches };
    let mut s = Stats::default();
    s.record(7, true, t0 + HOUR_MS);
    s.record(7, true, t0);
    assert_eq!(s.take_dirty(), [(7, t0, b(1, 1)), (7, t0 + HOUR_MS, b(1, 1))]);
    assert!(s.take_dirty().is_empty());
    // The value of the hour, not what was added since.
    s.record(7, false, t0 + 1);
    assert_eq!(s.take_dirty(), [(7, t0, b(2, 1))]);
}

#[test]
fn a_request_raises_every_window_of_its_node() {
    let t = 1_800_000_000_000;
    let mut s = Stats::default();
    s.record(1, false, t - 200 * HOUR_MS);
    s.record(1, true, t - 30 * HOUR_MS);
    s.record(2, true, t);
    let before = s.snapshot(t);
    s.record(1, true, t);
    let after = s.snapshot(t);
    let b = |requests, matches| Bucket { requests, matches };
    assert_eq!(before[0], NodeWindows { node_id: 1, m60: b(0, 0), h24: b(0, 0), d7: b(1, 1), all: b(2, 1) });
    assert_eq!(after[0], NodeWindows { node_id: 1, m60: b(1, 1), h24: b(1, 1), d7: b(2, 2), all: b(3, 2) });
    assert_eq!(before[1], after[1]);
}
