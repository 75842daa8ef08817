//! The work loop of a node, without its waiting: when to poll and for how
//! long, when to pause on a refused key, what to say to whoever watches.

use crate::events::{finished, HandleV, NodeEvent, NodeHandle, Snapshot};
use crate::named::Named;
use crate::proto::{Job, JobOutcome, JobResult};
use crate::riot::METHOD_MATCH;
use crate::sorted::{lists, name_sorted, names};
use crate::text::same_text;
use vstd::prelude::*;
use vstd::string::StrSliceExecFns;

verus! {

/// How long the server may keep a poll of an idle node.
pub const IDLE_WAIT_MS: u64 = 25_000;

/// How long the server may keep a poll while jobs are flowing.
pub const BUSY_WAIT_MS: u64 = 1_500;

/// How long a paused node waits before it looks for a new key.
pub const PAUSE_SECS: u64 = 15;

/// How long a node waits after a poll that failed.
pub const RECONNECT_SECS: u64 = 5;

/// How long a node waits between polls if no job ends.
pub const POLL_PACE_MS: u64 = 750;

/// A result is given up after so many seconds: its lease is over by then.
pub const UPLOAD_PATIENCE_SECS: u64 = 300;

/// The longest wait between two uploads.
pub const UPLOAD_DELAY_MAX_SECS: u64 = 30;

/// The server refused the protocol of this build.
#[derive(Clone, Debug, PartialEq, Eq)]
pub struct ProtocolMismatch(pub String);

/// What a node knows about its server and itself.
#[derive(Clone, Debug, PartialEq, Eq)]
pub struct NodeConfig {
    pub server: String,
    pub name: String,
    pub token: String,
    pub riot_api_key: String,
}

/// How an outcome is written.
pub open spec fn outcome_text(o: JobOutcome) -> Seq<char> {
    match o {
        JobOutcome::Done => "ok"@,
        JobOutcome::NotFound => "not_found"@,
        JobOutcome::KeyRejected => "key_rejected"@,
        JobOutcome::Failed => "failed"@,
    }
}

pub fn outcome_str(o: JobOutcome) -> (res: &'static str)
    ensures
        res@ == outcome_text(o),
{
    match o {
        JobOutcome::Done => "ok",
        JobOutcome::NotFound => "not_found",
        JobOutcome::KeyRejected => "key_rejected",
        JobOutcome::Failed => "failed",
    }
}

/// A text without slashes at its end.
pub open spec fn without_slashes(s: Seq<char>) -> Seq<char>
    decreases s.len(),
{
    if s.len() > 0 && s.last() == '/' {
        without_slashes(s.drop_last())
    } else {
        s
    }
}

/// The address of a server, without slashes at its end.
pub fn server_base(server: &str) -> (res: String)
    ensures
        res@ == without_slashes(server@),
{
    let mut n: usize = server.unicode_len();
    assert(server@.take(n as int) =~= server@);
    while n > 0 && server.get_char(n - 1) == '/'
        invariant
            n <= server@.len(),
            without_slashes(server@.take(n as int)) == without_slashes(server@),
        ensures
            n == 0 || server@[n - 1] != '/',
        decreases n,
    {
        assert(server@.take(n as int).drop_last() =~= server@.take(n - 1));
        n = n - 1;
    }
    assert(server@.take(n as int) =~= server@.subrange(0, n as int));
    server.substring_char(0, n).to_string()
}

// ---- uploads ----

/// The waits of an upload: the next one, and all of them so far.
#[derive(Clone, Copy, Debug, PartialEq, Eq, Structural)]
pub struct Upload {
    pub delay: u64,
    pub waited: u64,
}

/// An upload that has not failed yet.
pub fn first_upload() -> (res: Upload)
    ensures
        res == (Upload { delay: 1, waited: 0 }),
        upload_ok(res),
{
    Upload { delay: 1, waited: 0 }
}

/// The waits grow up to the longest, and stop soon after the patience ends.
pub open spec fn upload_ok(u: Upload) -> bool {
    1 <= u.delay <= UPLOAD_DELAY_MAX_SECS && u.waited < UPLOAD_PATIENCE_SECS
        + UPLOAD_DELAY_MAX_SECS
}

/// What follows an upload that failed: how long to wait, or nothing if the
/// result is given up.
pub open spec fn next_upload(u: Upload, mismatch: bool) -> Option<(u64, Upload)> {
    if mismatch || u.waited >= UPLOAD_PATIENCE_SECS {
        None
    } else {
        Some(
            (
                u.delay,
                Upload {
                    delay: if u.delay * 2 <= UPLOAD_DELAY_MAX_SECS {
                        (u.delay * 2) as u64
                    } else {
                        UPLOAD_DELAY_MAX_SECS
                    },
                    waited: (u.waited + u.delay) as u64,
                },
            ),
        )
    }
}

/// Decides what follows an upload that failed.
pub fn upload_failed(u: Upload, mismatch: bool) -> (res: Option<(u64, Upload)>)
    requires
        upload_ok(u),
    ensures
        res == next_upload(u, mismatch),
        res matches Some((_, next)) ==> upload_ok(next),
{
    if mismatch || u.waited >= UPLOAD_PATIENCE_SECS {
        return None;
    }
    let twice: u64 = u.delay * 2;
    let delay: u64 = if twice <= UPLOAD_DELAY_MAX_SECS {
        twice
    } else {
        UPLOAD_DELAY_MAX_SECS
    };
    Some((u.delay, Upload { delay, waited: u.waited + u.delay }))
}

// ---- the loop ----

/// The state of the loop: the jobs held for each host, whether the key was
/// refused, whether that was said, and the counters.
#[verifier::ext_equal]
pub struct WorkerV {
    pub inflight: Map<Seq<char>, u32>,
    pub key_refused: bool,
    pub announced: bool,
    pub handle: HandleV,
}

pub struct Worker {
    inflight: Named<u32>,
    key_refused: bool,
    announced: bool,
    handle: NodeHandle,
}

/// What the loop does next.
pub enum Turn {
    /// Wait for a new key; the first time, say so.
    Pause { announce: bool },
    /// Ask the server for work, telling it what is held.
    Poll { pending: Vec<(String, u32)>, wait_ms: u64 },
}

/// What follows a poll that failed.
#[derive(Clone, Copy, Debug, PartialEq, Eq, Structural)]
pub enum PollFailure {
    /// The protocol is not spoken: stop.
    Fatal,
    /// Try again later; say so if the server could be reached before.
    Retry { announce: bool },
}

/// How many jobs are held for a host.
pub open spec fn held(m: Map<Seq<char>, u32>, host: Seq<char>) -> u32 {
    if m.contains_key(host) {
        m[host]
    } else {
        0
    }
}

/// The jobs held after some more came.
pub open spec fn taken(m: Map<Seq<char>, u32>, jobs: Seq<Job>) -> Map<Seq<char>, u32>
    decreases jobs.len(),
{
    if jobs.len() == 0 {
        m
    } else {
        let before = taken(m, jobs.drop_last());
        let host = jobs.last().host@;
        let n = held(before, host);
        before.insert(
            host,
            if n < u32::MAX {
                (n + 1) as u32
            } else {
                n
            },
        )
    }
}

/// The jobs held after one ended.
pub open spec fn let_go(m: Map<Seq<char>, u32>, host: Seq<char>) -> Map<Seq<char>, u32> {
    if m.contains_key(host) {
        m.insert(
            host,
            if m[host] > 0 {
                (m[host] - 1) as u32
            } else {
                0
            },
        )
    } else {
        m
    }
}

/// What a node does next: it waits for a new key once its key was refused, and
/// polls otherwise, telling the server what it holds.
pub open spec fn is_turn(before: WorkerV, after: WorkerV, res: Turn) -> bool {
    match res {
        Turn::Pause { announce } => {
            &&& before.key_refused
            &&& announce == !before.announced
            &&& after == (WorkerV {
                announced: true,
                handle: HandleV { key_bad: before.handle.key_bad || announce, ..before.handle },
                ..before
            })
        },
        Turn::Poll { pending, wait_ms } => {
            &&& !before.key_refused
            &&& after == before
            &&& name_sorted(pending@)
            &&& forall|host: Seq<char>, n: u32| #[trigger]
                lists(pending@, host, n) <==> n > 0 && held(before.inflight, host) == n
            &&& wait_ms == if (forall|host: Seq<char>| #[trigger]
                held(before.inflight, host) == 0) {
                IDLE_WAIT_MS
            } else {
                BUSY_WAIT_MS
            }
        },
    }
}

/// A node whose poll was answered.
pub open spec fn after_poll(before: WorkerV, jobs: Seq<Job>) -> WorkerV {
    WorkerV {
        inflight: taken(before.inflight, jobs),
        handle: HandleV { connected: true, ..before.handle },
        ..before
    }
}

/// What follows a poll that failed.
pub open spec fn is_lost_poll(
    before: WorkerV,
    after: WorkerV,
    mismatch: bool,
    res: PollFailure,
) -> bool {
    if mismatch {
        res == PollFailure::Fatal && after == before
    } else {
        res == (PollFailure::Retry { announce: before.handle.connected }) && after == (WorkerV {
            handle: HandleV { connected: false, ..before.handle },
            ..before
        })
    }
}

/// A node that has done a job.
pub open spec fn after_job(
    before: WorkerV,
    host: Seq<char>,
    method: Seq<char>,
    outcome: JobOutcome,
) -> WorkerV {
    WorkerV {
        inflight: let_go(before.inflight, host),
        handle: finished(before.handle, host, brought_match(method, outcome)),
        ..before
    }
}

/// A node that has a new key.
pub open spec fn resumed(before: WorkerV) -> WorkerV {
    WorkerV {
        key_refused: false,
        announced: false,
        handle: HandleV { key_bad: false, ..before.handle },
        ..before
    }
}

/// Whether a job brought a match.
pub open spec fn brought_match(method: Seq<char>, outcome: JobOutcome) -> bool {
    method == METHOD_MATCH@ && outcome == JobOutcome::Done
}

impl View for Worker {
    type V = WorkerV;

    closed spec fn view(&self) -> WorkerV {
        WorkerV {
            inflight: self.inflight@,
            key_refused: self.key_refused,
            announced: self.announced,
            handle: self.handle@,
        }
    }
}

impl Worker {
    pub closed spec fn wf(&self) -> bool {
        self.inflight.wf() && self.handle.wf()
    }

    pub fn new() -> (res: Self)
        ensures
            res.wf(),
            res@.inflight == Map::<Seq<char>, u32>::empty(),
            !res@.key_refused,
            !res@.announced,
            res@.handle == (HandleV {
                completed: 0,
                matches: 0,
                per_host: Map::empty(),
                key_bad: false,
                connected: false,
            }),
    {
        Worker {
            inflight: Named::new(),
            key_refused: false,
            announced: false,
            handle: NodeHandle::new(),
        }
    }

    fn pending(&self) -> (res: Vec<(String, u32)>)
        requires
            self.wf(),
        ensures
            name_sorted(res@),
            forall|host: Seq<char>, n: u32| #[trigger]
                lists(res@, host, n) <==> n > 0 && held(self@.inflight, host) == n,
            res@.len() == 0 <==> forall|host: Seq<char>| #[trigger] held(self@.inflight, host) == 0,
    {
        let all = self.inflight.by_name();
        let mut out: Vec<(String, u32)> = Vec::new();
        let mut i: usize = 0;
        while i < all.len()
            invariant
                i <= all@.len(),
                name_sorted(all@),
                name_sorted(out@),
                forall|k: int|
                    0 <= k < out@.len() ==> names(all@.take(i as int), (#[trigger] out@[k]).0@),
                forall|host: Seq<char>, n: u32| #[trigger]
                    lists(out@, host, n) <==> n > 0 && lists(all@.take(i as int), host, n),
            decreases all@.len() - i,
        {
            let (host, n) = &all[i];
            let ghost was = out@;
            let ghost before = all@.take(i as int);
            let ghost after = all@.take(i + 1);
            if *n > 0 {
                out.push((host.clone(), *n));
            }
            proof {
                assert(after =~= before.push(all@[i as int]));
                assert forall|h: Seq<char>, m: u32| #[trigger]
                    lists(after, h, m) <==> lists(before, h, m) || (h == host@ && m == *n) by {
                    if lists(before, h, m) {
                        let j = choose|j: int|
                            0 <= j < before.len() && (#[trigger] before[j]).0@ == h && before[j].1
                                == m;
                        assert(after[j].0@ == h);
                    }
                    if h == host@ && m == *n {
                        assert(after[i as int].0@ == h);
                    }
                }
                assert forall|h: Seq<char>, m: u32| #[trigger]
                    lists(out@, h, m) <==> lists(was, h, m) || (*n > 0 && h == host@ && m == *n) by {
                    if lists(was, h, m) {
                        let j = choose|j: int|
                            0 <= j < was.len() && (#[trigger] was[j]).0@ == h && was[j].1 == m;
                        assert(out@[j].0@ == h);
                    }
                    if *n > 0 && h == host@ && m == *n {
                        assert(out@[was.len() as int].0@ == h);
                    }
                }
                assert forall|a: int, b: int| 0 <= a < b < out@.len() implies
                    crate::text::sorts_before((#[trigger] out@[a]).0@, (#[trigger] out@[b]).0@, 0) by {
                    if b == was.len() {
                        assert(was[a] == out@[a]);
                        let j = choose|j: int|
                            0 <= j < before.len() && (#[trigger] before[j]).0@ == was[a].0@;
                        assert(all@[j] == before[j]);
                        assert(all@[i as int].0@ == out@[b].0@);
                    } else {
                        assert(was[a] == out@[a] && was[b] == out@[b]);
                    }
                }
                assert forall|k: int| 0 <= k < out@.len() implies names(
                    after,
                    (#[trigger] out@[k]).0@,
                ) by {
                    if k < was.len() {
                        assert(was[k] == out@[k]);
                        let j = choose|j: int|
                            0 <= j < before.len() && (#[trigger] before[j]).0@ == was[k].0@;
                        assert(after[j].0@ == out@[k].0@);
                    } else {
                        assert(after[i as int].0@ == out@[k].0@);
                    }
                }
            }
            i = i + 1;
        }
        proof {
            assert(all@.take(i as int) =~= all@);
            let m = self@.inflight;
            assert forall|host: Seq<char>| out@.len() == 0 implies #[trigger] held(m, host) == 0 by {
                if held(m, host) > 0 {
                    assert(lists(all@, host, m[host]));
                    assert(lists(out@, host, m[host]));
                }
            }
            if out@.len() > 0 {
                assert(lists(out@, out@[0].0@, out@[0].1));
                assert(lists(all@, out@[0].0@, out@[0].1));
                assert(held(m, out@[0].0@) > 0);
            }
        }
        out
    }

    /// What the loop does next. While the key is refused no work is asked for.
    pub fn turn(&mut self) -> (res: Turn)
        requires
            old(self).wf(),
        ensures
            final(self).wf(),
            is_turn(old(self)@, final(self)@, res),
    {
        if self.key_refused {
            let announce = !self.announced;
            if announce {
                self.handle.set_key_bad(true);
                self.announced = true;
            }
            return Turn::Pause { announce };
        }
        let pending = self.pending();
        let wait_ms: u64 = if pending.len() == 0 {
            IDLE_WAIT_MS
        } else {
            BUSY_WAIT_MS
        };
        Turn::Poll { pending, wait_ms }
    }

    /// Notes that the key was refused.
    pub fn refuse_key(&mut self)
        requires
            old(self).wf(),
        ensures
            final(self).wf(),
            final(self)@ == (WorkerV { key_refused: true, ..old(self)@ }),
    {
        self.key_refused = true;
    }

    /// Goes on with a new key.
    pub fn resume(&mut self)
        requires
            old(self).wf(),
        ensures
            final(self).wf(),
            final(self)@ == resumed(old(self)@),
    {
        self.key_refused = false;
        self.announced = false;
        self.handle.set_key_bad(false);
    }

    /// Takes the jobs of a poll that went through; says whether the server is
    /// reached for the first time or again.
    pub fn polled(&mut self, jobs: &Vec<Job>) -> (res: bool)
        requires
            old(self).wf(),
        ensures
            final(self).wf(),
            res == !old(self)@.handle.connected,
            final(self)@ == after_poll(old(self)@, jobs@),
    {
        let was = self.handle.set_connected(true);
        let ghost start = self@;
        let mut i: usize = 0;
        assert(jobs@.take(0) =~= Seq::empty());
        while i < jobs.len()
            invariant
                self.wf(),
                i <= jobs@.len(),
                self@ == (WorkerV { inflight: taken(start.inflight, jobs@.take(i as int)), ..start }),
            decreases jobs@.len() - i,
        {
            assert(jobs@.take(i + 1).drop_last() =~= jobs@.take(i as int));
            let n: u32 = match self.inflight.get(jobs[i].host.as_str()) {
                Some(n) => *n,
                None => 0,
            };
            self.inflight.put(jobs[i].host.clone(), n.saturating_add(1));
            i = i + 1;
        }
        assert(jobs@.take(i as int) =~= jobs@);
        !was
    }

    /// Decides what follows a poll that failed.
    pub fn poll_failed(&mut self, mismatch: bool) -> (res: PollFailure)
        requires
            old(self).wf(),
        ensures
            final(self).wf(),
            is_lost_poll(old(self)@, final(self)@, mismatch, res),
    {
        if mismatch {
            return PollFailure::Fatal;
        }
        let was = self.handle.set_connected(false);
        PollFailure::Retry { announce: was }
    }

    /// Counts a job that was answered, and says what to tell.
    pub fn job_done(&mut self, job: &Job, result: &JobResult, ms: u64) -> (res: NodeEvent)
        requires
            old(self).wf(),
        ensures
            final(self).wf(),
            final(self)@ == after_job(old(self)@, job.host@, job.method@, result.outcome),
            res matches NodeEvent::JobDone { id, host, method, outcome, ms: took } && id == job.id
                && host@ == job.host@ && method@ == job.method@ && outcome@ == outcome_text(
                result.outcome,
            ) && took == ms,
    {
        let held_now: Option<u32> = match self.inflight.get(job.host.as_str()) {
            Some(n) => Some(*n),
            None => None,
        };
        if let Some(n) = held_now {
            self.inflight.put(job.host.clone(), n.saturating_sub(1));
        }
        let is_match = same_text(job.method.as_str(), METHOD_MATCH) && result.outcome
            == JobOutcome::Done;
        self.handle.job_finished(job.host.as_str(), is_match);
        NodeEvent::JobDone {
            id: job.id,
            host: job.host.clone(),
            method: job.method.clone(),
            outcome: outcome_str(result.outcome).to_string(),
            ms,
        }
    }

    /// The loop ended.
    pub fn stop(&mut self)
        requires
            old(self).wf(),
        ensures
            final(self).wf(),
            final(self)@ == (WorkerV {
                handle: HandleV { connected: false, ..old(self)@.handle },
                ..old(self)@
            }),
    {
        let _ = self.handle.set_connected(false);
    }

    /// The counters at this moment.
    pub fn snapshot(&self) -> (res: Snapshot)
        requires
            self.wf(),
        ensures
            res.completed == self@.handle.completed,
            res.matches == self@.handle.matches,
            res.key_bad == self@.handle.key_bad,
            res.connected == self@.handle.connected,
            name_sorted(res.per_host@),
            forall|host: Seq<char>, n: u64| #[trigger]
                lists(res.per_host@, host, n) <==> self@.handle.per_host.contains_key(host)
                    && self@.handle.per_host[host] == n,
    {
        self.handle.snapshot()
    }
}

// ---- laws ----

/// A job that comes and ends leaves the number of jobs held as it was.
pub proof fn law_jobs_come_and_go(m: Map<Seq<char>, u32>, job: Job, host: Seq<char>)
    requires
        held(m, job.host@) < u32::MAX,
    ensures
        held(let_go(taken(m, seq![job]), job.host@), host) == held(m, host),
{
    reveal_with_fuel(taken, 2);
    assert(seq![job].drop_last() =~= Seq::empty());
    assert(seq![job].last() == job);
}

/// A result that cannot be delivered is given up, at the latest half a minute
/// after the patience ended.
pub proof fn law_uploads_end(u: Upload)
    requires
        upload_ok(u),
    ensures
        match next_upload(u, false) {
            Some((wait, next)) => next.waited == u.waited + wait && wait >= 1 && u.waited
                < UPLOAD_PATIENCE_SECS && next.waited < UPLOAD_PATIENCE_SECS
                + UPLOAD_DELAY_MAX_SECS,
            None => u.waited >= UPLOAD_PATIENCE_SECS,
        },
{
}

} // verus!
