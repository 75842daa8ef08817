//! The node: rate limits, requests, its loop, and the make-believe node.

use lol_crawler::executor::{request_url, Cooldown, Execution, GetStep, Reply, Verdict, get_step};
use lol_crawler::events::{NodeEvent, NodeHandle};
use lol_crawler::frontend::{enroll_form, enrolled, notice_for, ui_state, with_key, Notice};
use lol_crawler::mock::{
    fake_job, next_scene, opening_scene, pick_traffic, stats, windows, Rng, Scene, BLIP_MS,
    KEY_DEMO_MS, TRAFFIC,
};
use lol_crawler::proto::{EnrollResponse, Job, JobOutcome, JobResult};
use lol_crawler::ratelimit::{parse_limit_header, RateLimiter, Turn, WindowSpec};
use lol_crawler::riot::{
    apex_league_path, league_entries_by_puuid_path, league_entries_path, match_ids_path,
    match_path, timeline_path,
};
use lol_crawler::worker::{
    first_upload, outcome_str, server_base, upload_failed, NodeConfig, PollFailure, Turn as Step, Worker,
    BUSY_WAIT_MS, IDLE_WAIT_MS,
};

const MS: u64 = 1_000_000;

// ---- rate limits ----

#[test]
fn parses_limit_headers() {
    assert_eq!(
        parse_limit_header("20:1,100:120"),
        vec![
            WindowSpec { limit: 20, window_ms: 1_000 },
            WindowSpec { limit: 100, window_ms: 120_000 },
        ]
    );
    assert_eq!(parse_limit_header("2000:10"), vec![WindowSpec { limit: 2000, window_ms: 10_000 }]);
    assert!(parse_limit_header("garbage").is_empty());
}

#[test]
fn limit_headers_with_bad_parts() {
    let one = vec![WindowSpec { limit: 7, window_ms: 3_000 }];
    assert_eq!(parse_limit_header(" 7:3 "), one);
    assert_eq!(parse_limit_header("x:1,7:3,5"), one);
    assert!(parse_limit_header("").is_empty());
}

#[test]
fn a_window_lets_through_its_limit() {
    let specs = vec![WindowSpec { limit: 2, window_ms: 1_000 }];
    let mut l = RateLimiter::new("kr", specs, false);
    let t = 5_000 * MS;
    assert_eq!(l.acquire(t, 0), Turn::Send);
    assert_eq!(l.acquire(t + 100 * MS, 0), Turn::Send);
    assert_eq!(l.acquire(t + 300 * MS, 0), Turn::Wait(700 * MS));
    // A wait that was asked for is long enough.
    assert_eq!(l.acquire(t + 1_000 * MS, 0), Turn::Send);
    assert_eq!(l.acquire(t + 1_000 * MS, 0), Turn::Wait(100 * MS));
    assert_eq!(l.sent_total(), 3);
}

#[test]
fn the_tightest_window_decides() {
    let mut l = RateLimiter::new(
        "kr",
        vec![
            WindowSpec { limit: 2, window_ms: 1_000 },
            WindowSpec { limit: 3, window_ms: 10_000 },
        ],
        false,
    );
    for t in [0, 1, 1_000] {
        assert_eq!(l.acquire(t * MS, 0), Turn::Send);
    }
    assert_eq!(l.acquire(1_500 * MS, 0), Turn::Wait(8_500 * MS));
}

#[test]
fn a_host_is_paced_and_an_endpoint_is_not() {
    let mut host = RateLimiter::for_host("kr");
    assert_eq!(host.acquire(10, 500), Turn::Send);
    assert_eq!(host.acquire(100, 500), Turn::Wait(410));
    assert_eq!(host.acquire(510, 500), Turn::Send);
    let mut method = RateLimiter::for_method("kr", "match-v5.match");
    assert_eq!(method.acquire(10, 500), Turn::Send);
    assert_eq!(method.acquire(10, 500), Turn::Send);
}

#[test]
fn a_cooldown_holds_everything_back() {
    let mut l = RateLimiter::for_method("kr", "match-v5.ids");
    l.cooldown(0, 10);
    l.cooldown(0, 3);
    assert_eq!(l.acquire(4_000 * MS, 0), Turn::Wait(6_000 * MS));
    assert_eq!(l.acquire(10_000 * MS, 0), Turn::Send);
}

#[test]
fn declared_windows_replace_the_old_ones() {
    let mut l = RateLimiter::for_host("kr");
    assert_eq!(l.specs().len(), 2);
    l.update_specs(vec![]);
    assert_eq!(l.specs().len(), 2);
    l.update_specs(parse_limit_header("500:10"));
    assert_eq!(*l.specs(), vec![WindowSpec { limit: 500, window_ms: 10_000 }]);
}

// ---- requests ----

fn status(code: u16, text: &str) -> Reply {
    Reply::Status { code, status: text.to_string(), retry_after: None, limit_type: None }
}

fn limited(retry_after: Option<&str>, limit_type: Option<&str>) -> Reply {
    Reply::Status {
        code: 429,
        status: "429 Too Many Requests".to_string(),
        retry_after: retry_after.map(|s| s.to_string()),
        limit_type: limit_type.map(|s| s.to_string()),
    }
}

fn ended(v: Verdict) -> (JobOutcome, Option<String>, Option<String>) {
    let r = v.result.unwrap();
    (r.outcome, r.body, r.error)
}

#[test]
fn urls_name_the_host() {
    assert_eq!(request_url("europe", "/lol/x"), "https://europe.api.riotgames.com/lol/x");
    assert_eq!(apex_league_path("masterleagues"), "/lol/league/v4/masterleagues/by-queue/RANKED_SOLO_5x5");
    assert_eq!(
        league_entries_path("DIAMOND", "II", 3),
        "/lol/league/v4/entries/RANKED_SOLO_5x5/DIAMOND/II?page=3"
    );
    assert_eq!(league_entries_by_puuid_path("abc"), "/lol/league/v4/entries/by-puuid/abc");
    assert_eq!(match_path("KR_1"), "/lol/match/v5/matches/KR_1");
    assert_eq!(timeline_path("KR_1"), "/lol/match/v5/matches/KR_1/timeline");
    assert_eq!(
        match_ids_path("abc", Some(77), 100),
        "/lol/match/v5/matches/by-puuid/abc/ids?queue=420&start=100&count=100&startTime=77"
    );
    assert_eq!(
        match_ids_path("abc", None, 0),
        "/lol/match/v5/matches/by-puuid/abc/ids?queue=420&start=0&count=100"
    );
}

#[test]
fn answers_end_a_job() {
    let mut e = Execution::new(9);
    assert!(e.begin());
    let v = e.answered(Reply::Body("{}".to_string()));
    assert!(!v.key_bad && v.cooldown.is_none() && v.sleep_secs == 0);
    assert_eq!(v.result.as_ref().unwrap().id, 9);
    assert_eq!(ended(v), (JobOutcome::Done, Some("{}".to_string()), None));
    assert_eq!(ended(e.answered(status(404, "404 Not Found"))), (JobOutcome::NotFound, None, None));
    assert_eq!(
        ended(e.answered(status(418, "418 I'm a teapot"))),
        (JobOutcome::Failed, None, Some("unexpected status 418 I'm a teapot".to_string()))
    );
    assert_eq!(
        ended(e.answered(Reply::Unread("eof".to_string()))),
        (JobOutcome::Failed, None, Some("body read: eof".to_string()))
    );
    let v = e.answered(status(403, "403 Forbidden"));
    assert!(v.key_bad);
    assert_eq!(
        ended(v),
        (JobOutcome::KeyRejected, None, Some("riot returned 403 Forbidden".to_string()))
    );
}

#[test]
fn a_limited_request_is_no_attempt() {
    let mut e = Execution::new(1);
    assert!(e.begin());
    for _ in 0..10 {
        let v = e.answered(limited(Some("7"), Some("method")));
        assert_eq!(v.cooldown, Some(Cooldown { on_method: true, secs: 7 }));
        assert!(v.result.is_none());
        assert!(!e.begin());
    }
    let v = e.answered(limited(None, Some("application")));
    assert_eq!(v.cooldown, Some(Cooldown { on_method: false, secs: 10 }));
    e.begin();
    let v = e.answered(limited(Some("soon"), None));
    assert_eq!(v.cooldown, Some(Cooldown { on_method: false, secs: 10 }));
}

#[test]
fn a_failing_request_is_tried_four_times() {
    let mut e = Execution::new(1);
    for k in 1..=4u64 {
        assert_eq!(e.begin(), k == 1);
        let v = e.answered(status(503, "503 Service Unavailable"));
        assert_eq!(v.sleep_secs, 5 * k);
        assert_eq!(v.result.is_some(), k == 4);
        if k == 4 {
            assert_eq!(
                ended(v).2.unwrap(),
                "503 Service Unavailable after 4 attempts"
            );
        }
    }
    let mut e = Execution::new(1);
    for k in 1..=4 {
        e.begin();
        let v = e.answered(Reply::Lost("timed out".to_string()));
        assert_eq!(v.result.is_some(), k == 4);
        if k == 4 {
            assert_eq!(ended(v).2.unwrap(), "request error: timed out");
        }
    }
}

#[test]
fn a_single_client_decides_alike() {
    let url = "https://kr/x";
    assert_eq!(get_step(1, Reply::Body("b".into()), url), GetStep::Body("b".into()));
    assert_eq!(get_step(1, status(404, "404"), url), GetStep::NotFound);
    assert_eq!(get_step(1, limited(Some("3"), None), url), GetStep::Cooldown(3));
    assert_eq!(get_step(2, status(401, "401"), url), GetStep::Retry(60));
    assert_eq!(
        get_step(3, status(401, "401"), url),
        GetStep::GiveUp(60, "API key rejected (401)".into())
    );
    assert_eq!(get_step(2, status(500, "500"), url), GetStep::Retry(10));
    assert_eq!(
        get_step(4, status(500, "500"), url),
        GetStep::GiveUp(20, "giving up after 4 attempts: 500 https://kr/x".into())
    );
    assert_eq!(get_step(3, Reply::Lost("e".into()), url), GetStep::Retry(15));
    assert_eq!(get_step(4, Reply::Lost("e".into()), url), GetStep::GiveUp(20, "e".into()));
    assert_eq!(
        get_step(1, status(400, "400"), url),
        GetStep::GiveUp(0, "unexpected status 400 for https://kr/x".into())
    );
    assert_eq!(get_step(1, Reply::Unread("e".into()), url), GetStep::GiveUp(0, "e".into()));
}

// ---- the loop ----

fn job(id: u64, host: &str, method: &str) -> Job {
    Job { id, host: host.to_string(), method: method.to_string(), path: "/p".to_string(), lease_ms: 150_000 }
}

fn done(id: u64, outcome: JobOutcome) -> JobResult {
    JobResult { id, outcome, body: None, error: None }
}

fn poll(w: &mut Worker) -> (Vec<(String, u32)>, u64) {
    match w.turn() {
        Step::Poll { pending, wait_ms } => (pending, wait_ms),
        Step::Pause { .. } => panic!("the node polls"),
    }
}

#[test]
fn jobs_come_and_go() {
    let mut w = Worker::new();
    assert_eq!(poll(&mut w), (vec![], IDLE_WAIT_MS));
    let jobs =
        vec![job(1, "kr", "match-v5.match"), job(2, "asia", "match-v5.ids"), job(3, "kr", "x")];
    assert!(w.polled(&jobs));
    assert_eq!(poll(&mut w), (vec![("asia".to_string(), 1), ("kr".to_string(), 2)], BUSY_WAIT_MS));
    let event = w.job_done(&jobs[0], &done(1, JobOutcome::Done), 250);
    assert_eq!(
        event,
        NodeEvent::JobDone {
            id: 1,
            host: "kr".to_string(),
            method: "match-v5.match".to_string(),
            outcome: "ok".to_string(),
            ms: 250,
        }
    );
    w.job_done(&jobs[1], &done(2, JobOutcome::Done), 1);
    w.job_done(&jobs[2], &done(3, JobOutcome::Failed), 1);
    assert_eq!(poll(&mut w), (vec![], IDLE_WAIT_MS));
    let s = w.snapshot();
    assert_eq!((s.completed, s.matches, s.connected, s.key_bad), (3, 1, true, false));
    assert_eq!(s.per_host, vec![("asia".to_string(), 1), ("kr".to_string(), 2)]);
    assert!(!w.polled(&vec![]));
    w.stop();
    assert!(!w.snapshot().connected);
}

#[test]
fn a_refused_key_pauses_the_node() {
    let mut w = Worker::new();
    w.refuse_key();
    assert!(matches!(w.turn(), Step::Pause { announce: true }));
    assert!(matches!(w.turn(), Step::Pause { announce: false }));
    assert!(w.snapshot().key_bad);
    w.resume();
    assert!(!w.snapshot().key_bad);
    assert!(matches!(w.turn(), Step::Poll { .. }));
    w.refuse_key();
    assert!(matches!(w.turn(), Step::Pause { announce: true }));
}

#[test]
fn outages_are_told_once() {
    let mut w = Worker::new();
    assert_eq!(w.poll_failed(false), PollFailure::Retry { announce: false });
    assert!(w.polled(&vec![]));
    assert_eq!(w.poll_failed(false), PollFailure::Retry { announce: true });
    assert_eq!(w.poll_failed(false), PollFailure::Retry { announce: false });
    assert!(w.polled(&vec![]));
    assert_eq!(w.poll_failed(true), PollFailure::Fatal);
}

#[test]
fn uploads_are_given_up_in_the_end() {
    let mut u = first_upload();
    let mut delays = vec![];
    while let Some((delay, next)) = upload_failed(u, false) {
        delays.push(delay);
        u = next;
    }
    assert_eq!(&delays[..7], &[1, 2, 4, 8, 16, 30, 30]);
    assert!(delays.iter().sum::<u64>() >= 300);
    assert!(delays[..delays.len() - 1].iter().sum::<u64>() < 300);
    assert!(upload_failed(first_upload(), true).is_none());
}

#[test]
fn names_of_outcomes_and_servers() {
    assert_eq!(outcome_str(JobOutcome::Done), "ok");
    assert_eq!(outcome_str(JobOutcome::NotFound), "not_found");
    assert_eq!(outcome_str(JobOutcome::KeyRejected), "key_rejected");
    assert_eq!(outcome_str(JobOutcome::Failed), "failed");
    assert_eq!(server_base("https://x.org/"), "https://x.org");
    assert_eq!(server_base("https://x.org"), "https://x.org");
}

#[test]
fn a_handle_counts() {
    let mut h = NodeHandle::new();
    h.job_finished("kr", true);
    h.job_finished("kr", false);
    h.set_key_bad(true);
    assert!(!h.set_connected(true));
    assert!(h.set_connected(true));
    let s = h.snapshot();
    assert_eq!((s.completed, s.matches, s.key_bad, s.connected), (2, 1, true, true));
    assert_eq!(s.per_host, vec![("kr".to_string(), 2)]);
}

// ---- the make-believe node ----

#[test]
fn numbers_follow_from_the_seed() {
    let mut a = Rng::new(42);
    let mut b = Rng::new(43);
    assert_eq!(a.next(), b.next());
    // One step by hand.
    let mut x: u64 = 43;
    x ^= x >> 12;
    x ^= x << 25;
    x ^= x >> 27;
    assert_eq!(Rng::new(42).next(), x.wrapping_mul(0x2545_F491_4F6C_DD1D));
    for _ in 0..100 {
        let n = a.between(3, 9);
        assert!((3..9).contains(&n));
        assert!(a.below(4) < 4);
    }
}

#[test]
fn all_kinds_of_traffic_come() {
    let mut rng = Rng::new(7);
    let mut counts = [0usize; 10];
    for _ in 0..10_000 {
        counts[pick_traffic(&mut rng)] += 1;
    }
    for (i, n) in counts.iter().enumerate() {
        let share = TRAFFIC[i].2 as usize * 100;
        assert!(*n > share / 2 && *n < share * 2, "kind {i} came {n} times");
    }
    let job = fake_job(7);
    assert!(TRAFFIC.iter().any(|t| t.0 == job.host && t.1 == job.method));
    assert_eq!(job.is_match, job.method == "match-v5.match" && job.outcome == "ok");
    assert!((300..2_600).contains(&job.queued_ms));
}

#[test]
fn the_script_goes_on() {
    let mut rng = Rng::new(1);
    let start = opening_scene();
    let (scene, s) = next_scene(start, 0, &mut rng);
    assert!(matches!(scene, Scene::Jobs { outage: false, count } if (1..=3).contains(&count)));
    assert_eq!(s, start);
    let (scene, s) = next_scene(s, BLIP_MS, &mut rng);
    assert!(matches!(scene, Scene::Jobs { outage: true, .. }));
    assert_eq!(s.next_blip_ms, 2 * BLIP_MS);
    let (scene, s) = next_scene(s, KEY_DEMO_MS, &mut rng);
    assert_eq!(scene, Scene::KeyExpires);
    let (scene, _) = next_scene(s, KEY_DEMO_MS, &mut rng);
    assert!(matches!(scene, Scene::Jobs { .. }));
}

#[test]
fn a_made_up_leaderboard() {
    let w = windows(10, 5);
    assert_eq!((w.m60, w.h24, w.d7, w.all), (605, 12_005, 72_005, 300_005));
    let s = stats("me", 7, 2, 99);
    assert_eq!((s.you.as_str(), s.generated_ms, s.nodes.len()), ("me", 99, 5));
    assert_eq!(s.nodes[0].name, "poro-feeder");
    assert_eq!(s.nodes[4].requests.m60, 18_007);
    assert_eq!(s.nodes[4].matches.m60, 6_002);
    assert!(!s.nodes[3].online);
}

// ---- the frontend ----

fn config() -> NodeConfig {
    NodeConfig {
        server: "http://h:8420".to_string(),
        name: "al".to_string(),
        token: "t".to_string(),
        riot_api_key: "k".to_string(),
    }
}

#[test]
fn a_form_is_cleaned_and_taken_once() {
    let form = enroll_form(&None, " http://h:8420// ", " al\n", "CODE ").unwrap();
    assert_eq!((form.server.as_str(), form.name.as_str()), ("http://h:8420", "al"));
    assert_eq!(form.invite, "CODE");
    let answer = EnrollResponse { token: "t".to_string(), name: "al".to_string() };
    assert_eq!(enrolled(&form, answer, " k "), config());
    let again = enroll_form(&Some(config()), "s", "n", "i").map(|_| ()).unwrap_err();
    assert_eq!(again, "already enrolled");
}

#[test]
fn a_new_key_needs_a_configuration() {
    assert_eq!(with_key(&None, "k2"), Err("not enrolled".to_string()));
    let c = with_key(&Some(config()), " k2\n").unwrap();
    assert_eq!((c.riot_api_key.as_str(), c.token.as_str()), ("k2", "t"));
}

#[test]
fn a_frontend_draws_itself_from_the_counters() {
    let mut h = NodeHandle::new();
    h.job_finished("kr", true);
    let ui = ui_state(&Some(config()), "0.1.0", h.snapshot());
    assert_eq!((ui.enrolled, ui.name.as_str(), ui.server.as_str()), (true, "al", "http://h:8420"));
    assert_eq!((ui.version.as_str(), ui.snapshot.matches), ("0.1.0", 1));
    let ui = ui_state(&None, "0.1.0", h.snapshot());
    assert_eq!((ui.enrolled, ui.name.as_str()), (false, ""));
    assert_eq!(notice_for(&NodeEvent::KeyBad), Notice::Show);
    assert_eq!(notice_for(&NodeEvent::KeyOk), Notice::Withdraw);
    assert_eq!(notice_for(&NodeEvent::Connected), Notice::Keep);
}
