//! What a node does, and what its server keeps of it.

use crate::days::{is_done, DATE_FORMAT};
use crate::proto::{Job, JobOutcome};
use crate::registry::{job_done, judged_both, judged_one, AuditVerdict, RegistryV};
use crate::riot::{
    apex_path, entries_path, ids_path, signed_decimal, METHOD_APEX, METHOD_BY_PUUID,
    METHOD_ENTRIES, METHOD_IDS, METHOD_MATCH, METHOD_TIMELINE,
};
use crate::sorted::lists;
use crate::text::{decimal, is_white};
use crate::worker::{
    after_job, after_poll, held, is_lost_poll, is_turn, next_upload, outcome_text, resumed,
    without_slashes, NodeConfig, PollFailure, Turn, Upload, WorkerV,
};
use crate::mock::{fake_outcome, is_fake_job, scene_at, windows_at, FakeJob, Scene, Script};
use crate::frontend::{is_form, is_rekeyed, notice_of, EnrollForm};
use crate::events::NodeEvent;
use crate::text_laws::law_blanks_are_cut_off;
use vstd::prelude::*;

verus! {

// ---- turns ----

/// A node whose key was refused pauses, and says so once. Any other polls: it
/// tells the server how many jobs it holds for each host, and waits for up to
/// twenty-five seconds if it holds none, and for one and a half if it does.
pub proof fn law_nodes_poll_unless_refused(
    before: WorkerV,
    after: WorkerV,
    res: Turn,
    host: Seq<char>,
    n: u32,
)
    requires
        is_turn(before, after, res),
    ensures
        res is Pause <==> before.key_refused,
        res matches Turn::Pause { announce } ==> {
            &&& announce <==> !before.announced
            &&& after.announced
            &&& announce ==> after.handle.key_bad
            &&& after.inflight == before.inflight
            &&& after.key_refused
        },
        res matches Turn::Poll { pending, wait_ms } ==> {
            &&& after == before
            &&& lists(pending@, host, n) <==> n > 0 && before.inflight.contains_key(host)
                && before.inflight[host] == n
            &&& before.inflight.contains_key(host) && before.inflight[host] > 0 ==> wait_ms == 1_500
            &&& (forall|h: Seq<char>| #[trigger]
                before.inflight.contains_key(h) ==> before.inflight[h] == 0) ==> wait_ms == 25_000
        },
{
    assert(held(before.inflight, host) >= 0);
    if forall|h: Seq<char>| #[trigger]
        before.inflight.contains_key(h) ==> before.inflight[h] == 0 {
        assert forall|h: Seq<char>| #[trigger] held(before.inflight, h) == 0 by {
            assert(before.inflight.contains_key(h) ==> before.inflight[h] == 0);
        }
    }
}

/// How many of some jobs are for a host.
pub open spec fn jobs_for(jobs: Seq<Job>, host: Seq<char>) -> nat
    decreases jobs.len(),
{
    if jobs.len() == 0 {
        0
    } else {
        jobs_for(jobs.drop_last(), host) + (if jobs.last().host@ == host {
            1nat
        } else {
            0nat
        })
    }
}

/// Every job that comes is held for its host, and a node that got an answer is
/// connected.
pub proof fn law_jobs_are_held_for_their_hosts(before: WorkerV, jobs: Seq<Job>, host: Seq<char>)
    requires
        held(before.inflight, host) + jobs_for(jobs, host) <= u32::MAX,
    ensures
        held(after_poll(before, jobs).inflight, host) == held(before.inflight, host) + jobs_for(
            jobs,
            host,
        ),
        after_poll(before, jobs).handle.connected,
        after_poll(before, jobs).handle.completed == before.handle.completed,
        after_poll(before, jobs).key_refused == before.key_refused,
    decreases jobs.len(),
{
    if jobs.len() > 0 {
        law_jobs_are_held_for_their_hosts(before, jobs.drop_last(), host);
    }
}

/// A server that speaks another protocol ends a node. Any other failed poll is
/// tried again, and is worth saying if the server was there before.
pub proof fn law_lost_polls_are_tried_again(
    before: WorkerV,
    after: WorkerV,
    mismatch: bool,
    res: PollFailure,
)
    requires
        is_lost_poll(before, after, mismatch, res),
    ensures
        mismatch <==> res is Fatal,
        mismatch ==> after == before,
        !mismatch ==> !after.handle.connected,
        res matches PollFailure::Retry { announce } ==> (announce <==> before.handle.connected),
        after.inflight == before.inflight,
        after.handle.completed == before.handle.completed,
        after.handle.matches == before.handle.matches,
{
}

/// A job that was done is no longer held, and counts once: for the node, for
/// its host, and as a match if it brought one.
pub proof fn law_done_jobs_count_once(
    before: WorkerV,
    host: Seq<char>,
    method: Seq<char>,
    outcome: JobOutcome,
    other: Seq<char>,
)
    requires
        before.inflight.contains_key(host),
        before.inflight[host] > 0,
        before.handle.completed < u64::MAX,
        before.handle.matches < u64::MAX,
        before.handle.per_host.contains_key(host) ==> before.handle.per_host[host] < u64::MAX,
    ensures
        ({
            let after = after_job(before, host, method, outcome);
            &&& after.inflight[host] == before.inflight[host] - 1
            &&& other != host && before.inflight.contains_key(other) ==> after.inflight[other]
                == before.inflight[other]
            &&& after.handle.completed == before.handle.completed + 1
            &&& after.handle.matches == before.handle.matches + (if method == "match-v5.match"@
                && outcome == JobOutcome::Done {
                1int
            } else {
                0int
            })
            &&& after.handle.per_host.contains_key(host)
            &&& before.handle.per_host.contains_key(host) ==> after.handle.per_host[host]
                == before.handle.per_host[host] + 1
            &&& !before.handle.per_host.contains_key(host) ==> after.handle.per_host[host] == 1
            &&& other != host ==> after.handle.per_host.contains_key(other)
                == before.handle.per_host.contains_key(other)
            &&& other != host && before.handle.per_host.contains_key(other)
                ==> after.handle.per_host[other] == before.handle.per_host[other]
            &&& after.handle.key_bad == before.handle.key_bad
            &&& after.handle.connected == before.handle.connected
            &&& after.key_refused == before.key_refused
        }),
{
}

/// With a new key a node polls again, and says so anew if that is refused too.
pub proof fn law_new_keys_are_tried(before: WorkerV, after: WorkerV, res: Turn)
    requires
        is_turn(resumed(before), after, res),
    ensures
        res is Poll,
        !after.announced,
        !after.handle.key_bad,
        after.inflight == before.inflight,
{
}

/// A result that did not get through is sent again: after the wait that is due,
/// which doubles up to half a minute, until five minutes were spent. A server
/// that speaks another protocol gets none.
pub proof fn law_uploads_are_tried_for_five_minutes(u: Upload)
    requires
        1 <= u.delay <= 30,
        u.waited < 330,
    ensures
        next_upload(u, true) is None,
        u.waited >= 300 ==> next_upload(u, false) is None,
        u.waited < 300 ==> next_upload(u, false) is Some,
        next_upload(u, false) matches Some((wait, next)) ==> {
            &&& wait == u.delay
            &&& next.waited == u.waited + wait
            &&& u.delay <= 15 ==> next.delay == 2 * u.delay
            &&& u.delay > 15 ==> next.delay == 30
        },
{
}

/// How the outcomes of jobs are written.
pub proof fn law_outcomes_are_written()
    ensures
        outcome_text(JobOutcome::Done) == "ok"@,
        outcome_text(JobOutcome::NotFound) == "not_found"@,
        outcome_text(JobOutcome::KeyRejected) == "key_rejected"@,
        outcome_text(JobOutcome::Failed) == "failed"@,
{
}

/// Only the slashes at the end of a server's address are cut off.
pub proof fn law_slashes_are_cut_off(s: Seq<char>, slashes: nat)
    requires
        s.len() > 0 ==> s.last() != '/',
    ensures
        without_slashes(s + Seq::new(slashes, |i: int| '/')) == s,
    decreases slashes,
{
    let t = s + Seq::new(slashes, |i: int| '/');
    if slashes == 0 {
        assert(t =~= s);
    } else {
        law_slashes_are_cut_off(s, (slashes - 1) as nat);
        assert(t.last() == '/');
        assert(t.drop_last() =~= s + Seq::new((slashes - 1) as nat, |i: int| '/'));
    }
}

// ---- the server's side ----

/// A verdict counts once for a node, and in its own counter only.
pub proof fn law_verdicts_count_once(r: RegistryV, id: u32, other: u32)
    requires
        r.nodes.contains_key(id),
        r.nodes[id].audits_pass < u64::MAX,
        r.nodes[id].audits_hard_fail < u64::MAX,
        r.nodes[id].audits_soft_fail < u64::MAX,
        r.nodes[id].completed < u64::MAX,
    ensures
        ({
            let n = r.nodes[id];
            let pass = judged_one(r, id, AuditVerdict::Pass);
            let hard = judged_one(r, id, AuditVerdict::HardFail);
            let soft = judged_one(r, id, AuditVerdict::SoftFail);
            let done = job_done(r, id);
            &&& pass.nodes[id].audits_pass == n.audits_pass + 1
            &&& pass.nodes[id].audits_hard_fail == n.audits_hard_fail
            &&& pass.nodes[id].audits_soft_fail == n.audits_soft_fail
            &&& hard.nodes[id].audits_pass == n.audits_pass
            &&& hard.nodes[id].audits_hard_fail == n.audits_hard_fail + 1
            &&& hard.nodes[id].audits_soft_fail == n.audits_soft_fail
            &&& soft.nodes[id].audits_pass == n.audits_pass
            &&& soft.nodes[id].audits_hard_fail == n.audits_hard_fail
            &&& soft.nodes[id].audits_soft_fail == n.audits_soft_fail + 1
            &&& pass.nodes[id].completed == n.completed
            &&& done.nodes[id].completed == n.completed + 1
            &&& !done.nodes[id].key_bad
            &&& done.nodes[id].audits_pass == n.audits_pass
            &&& done.nodes[id].audits_hard_fail == n.audits_hard_fail
            &&& done.nodes[id].audits_soft_fail == n.audits_soft_fail
            &&& done.nodes[id].last_seen_ms == n.last_seen_ms
            &&& other != id && r.nodes.contains_key(other) ==> pass.nodes[other] == r.nodes[other]
                && hard.nodes[other] == r.nodes[other] && soft.nodes[other] == r.nodes[other]
                && done.nodes[other] == r.nodes[other]
            &&& pass.tokens == r.tokens && done.tokens == r.tokens
        }),
{
}

/// Both nodes of an audit get the verdict, and nobody else does.
pub proof fn law_both_nodes_are_judged(
    r: RegistryV,
    a: u32,
    b: u32,
    verdict: AuditVerdict,
    other: u32,
)
    requires
        a != b,
        r.nodes.contains_key(a),
        r.nodes.contains_key(b),
    ensures
        judged_both(r, a, b, verdict).nodes[a] == judged_one(r, a, verdict).nodes[a],
        judged_both(r, a, b, verdict).nodes[b] == judged_one(r, b, verdict).nodes[b],
        other != a && other != b && r.nodes.contains_key(other) ==> judged_both(
            r,
            a,
            b,
            verdict,
        ).nodes[other] == r.nodes[other],
        judged_both(r, a, b, verdict).nodes.dom() == r.nodes.dom(),
{
    assert(judged_both(r, a, b, verdict).nodes.dom() =~= r.nodes.dom());
}

// ---- days ----

/// The segment of a day is rewritten once the day is over, nobody writes to it,
/// and it was left alone for an hour.
pub proof fn law_days_are_done_after_an_hour(date: int, today: int, open: bool, age_secs: u64)
    ensures
        is_done(Some(date), today, open, Some(age_secs)) <==> date < today && !open && age_secs
            >= 60 * 60,
        !is_done(None, today, open, Some(age_secs)),
        !is_done(Some(date), today, open, None),
        DATE_FORMAT@ == "%Y-%m-%d"@,
{
}

// ---- requests ----

/// Where things are asked for, and under which name a request is counted.
pub proof fn law_requests(
    league: Seq<char>,
    tier: Seq<char>,
    division: Seq<char>,
    page: int,
    puuid: Seq<char>,
    since: i64,
    start: int,
)
    requires
        since >= 0,
    ensures
        apex_path(league) == "/lol/league/v4/"@ + league + "/by-queue/"@ + "RANKED_SOLO_5x5"@,
        entries_path(tier, division, page) == "/lol/league/v4/entries/"@ + "RANKED_SOLO_5x5"@
            + "/"@ + tier + "/"@ + division + "?page="@ + decimal(page),
        ids_path(puuid, None, start) == "/lol/match/v5/matches/by-puuid/"@ + puuid + "/ids?queue="@
            + decimal(420) + "&start="@ + decimal(start) + "&count=100"@,
        ids_path(puuid, Some(since), start) == ids_path(puuid, None, start) + "&startTime="@
            + decimal(since as int),
        signed_decimal(-1 - since) == "-"@ + decimal(since + 1),
        METHOD_APEX@ == "league-v4.apex"@,
        METHOD_ENTRIES@ == "league-v4.entries"@,
        METHOD_BY_PUUID@ == "league-v4.by-puuid"@,
        METHOD_IDS@ == "match-v5.ids"@,
        METHOD_MATCH@ == "match-v5.match"@,
        METHOD_TIMELINE@ == "match-v5.timeline"@,
{
    let base = "/lol/match/v5/matches/by-puuid/"@ + puuid + "/ids?queue="@ + decimal(420)
        + "&start="@ + decimal(start) + "&count=100"@;
    assert(base + Seq::<char>::empty() =~= base);
    assert(ids_path(puuid, Some(since), start) =~= base + "&startTime="@ + decimal(since as int));
}

// ---- the demonstration ----

/// The demonstration lets the key expire once, after two and a half minutes; an
/// outage comes every minute and a half, and one to three jobs at a time.
pub proof fn law_demonstration(script: Script, elapsed_ms: u64, roll: u64)
    requires
        elapsed_ms <= 1_000_000_000,
    ensures
        !script.key_demo_done && elapsed_ms >= 150_000 ==> scene_at(script, elapsed_ms, roll) == (
            Scene::KeyExpires,
            (Script { key_demo_done: true, next_blip_ms: script.next_blip_ms }),
        ),
        script.key_demo_done || elapsed_ms < 150_000 ==> {
            let (scene, next) = scene_at(script, elapsed_ms, roll);
            &&& scene matches Scene::Jobs { outage, count } && 1 <= count <= 3 && count == 1 + roll
                % 3 && (outage <==> script.next_blip_ms <= elapsed_ms)
            &&& next.key_demo_done == script.key_demo_done
            &&& script.next_blip_ms <= elapsed_ms ==> next.next_blip_ms == elapsed_ms + 90_000
            &&& script.next_blip_ms > elapsed_ms ==> next.next_blip_ms == script.next_blip_ms
        },
{
}

/// Of a hundred made-up jobs ninety-one go well, six find nothing, and three
/// fail. Made-up counts grow with the rate of requests.
pub proof fn law_made_up_jobs(roll: u64, rpm: int, extra: int)
    requires
        roll < 100,
        0 <= rpm <= 1_000,
        0 <= extra <= 1_000_000,
    ensures
        fake_outcome(roll) == "ok"@ || roll >= 91,
        roll < 91 ==> fake_outcome(roll) == "ok"@,
        91 <= roll < 97 ==> fake_outcome(roll) == "not_found"@,
        97 <= roll ==> fake_outcome(roll) == "failed"@,
        windows_at(rpm, extra).m60 == 60 * rpm + extra,
        windows_at(rpm, extra).h24 == 1_200 * rpm + extra,
        windows_at(rpm, extra).d7 == 7_200 * rpm + extra,
        windows_at(rpm, extra).all == 30_000 * rpm + extra,
{
}

/// A made-up job waits for up to two and a half seconds, is answered within one,
/// and is uploaded within another. It counts as a match if it fetched one.
pub proof fn law_made_up_jobs_are_quick(seed: u64, job: FakeJob)
    requires
        is_fake_job(seed, job),
    ensures
        300 <= job.queued_ms < 2_600,
        120 <= job.answer_ms < 900,
        150 <= job.upload_ms < 700,
        job.outcome@ == "ok"@ || job.outcome@ == "not_found"@ || job.outcome@ == "failed"@,
        job.is_match <==> job.method@ == "match-v5.match"@ && job.outcome@ == "ok"@,
{
}

// ---- frontends ----

/// Who enrols need not care about blanks, nor about slashes after the server. A
/// node that is enrolled is not enrolled again.
pub proof fn law_forms_are_taken(
    before: Seq<char>,
    server: Seq<char>,
    slashes: nat,
    name: Seq<char>,
    invite: Seq<char>,
    after: Seq<char>,
    res: Result<EnrollForm, String>,
)
    requires
        forall|i: int| 0 <= i < before.len() ==> is_white(#[trigger] before[i]),
        forall|i: int| 0 <= i < after.len() ==> is_white(#[trigger] after[i]),
        server.len() > 0 && !is_white(server[0]) && !is_white(server.last()) && server.last()
            != '/',
        name.len() > 0 && !is_white(name[0]) && !is_white(name.last()),
        invite.len() > 0 && !is_white(invite[0]) && !is_white(invite.last()),
        is_form(
            false,
            before + (server + Seq::new(slashes, |i: int| '/')) + after,
            before + name + after,
            before + invite + after,
            res,
        ),
    ensures
        res is Ok,
        res->Ok_0.server@ == server,
        res->Ok_0.name@ == name,
        res->Ok_0.invite@ == invite,
{
    let address = server + Seq::new(slashes, |i: int| '/');
    assert(address[0] == server[0]);
    if slashes > 0 {
        assert(address.last() == '/');
    } else {
        assert(address =~= server);
    }
    law_blanks_are_cut_off(before, address, after);
    law_blanks_are_cut_off(before, name, after);
    law_blanks_are_cut_off(before, invite, after);
    law_slashes_are_cut_off(server, slashes);
}

/// A node that is enrolled can have a new key and cannot be enrolled; one that is
/// not can be enrolled and cannot have a key.
pub proof fn law_keys_are_for_enrolled_nodes(
    cfg: NodeConfig,
    key: Seq<char>,
    named: Result<NodeConfig, String>,
    form: Result<EnrollForm, String>,
    text: Seq<char>,
)
    requires
        key.len() > 0 && !is_white(key[0]) && !is_white(key.last()),
    ensures
        is_rekeyed(Some(cfg), key, named) ==> named is Ok && named->Ok_0.riot_api_key@ == key
            && named->Ok_0.server@ == cfg.server@ && named->Ok_0.name@ == cfg.name@
            && named->Ok_0.token@ == cfg.token@,
        is_rekeyed(None, key, named) ==> named is Err && named->Err_0@ == "not enrolled"@,
        is_form(true, text, text, text, form) ==> form is Err && form->Err_0@
            == "already enrolled"@,
{
    let none = Seq::<char>::empty();
    law_blanks_are_cut_off(none, key, none);
    assert(none + key + none =~= key);
}

/// A refused key puts the notice up, a new one takes it down, and nothing else
/// does either.
pub proof fn law_notices(event: NodeEvent)
    ensures
        notice_of(event) is Show <==> event is KeyBad,
        notice_of(event) is Withdraw <==> event is KeyOk,
{
}

} // verus!
