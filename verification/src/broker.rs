//! The fetch broker between the crawl logic, which wants bodies, and the
//! nodes, which pull jobs and send back results.
//!
//! A job handed out is queued again if no result comes within its lease. Some
//! jobs are given to a second node as well, and the two bodies compared.

use crate::config::LEASE_MS;
use crate::json::{json_equal, same_document};
use crate::named::Named;
use crate::proto::{Job, JobOutcome, JobResult};
use crate::registry::{
    is_active, job_done, judged_both, with_node, AuditVerdict, NodeV, Registry, RegistryV,
};
use crate::riot::METHOD_MATCH;
use crate::table::lemma_count;
use crate::text::same_text;
use std::collections::BTreeMap;
use vstd::prelude::*;
use vstd::std_specs::iter::IteratorSpec;
use vstd::string::StringExecFns;

verus! {

/// How many jobs a node may hold for one routing host.
pub const TARGET_INFLIGHT_PER_HOST: u32 = 8;

/// A job is given up after this many failed attempts.
pub const MAX_ATTEMPTS: u32 = 6;

/// A twin that nobody took for this long is dropped.
pub const TWIN_TTL_MS: u64 = 600_000;

/// Endpoints whose answers never change.
pub const IMMUTABLE_METHODS: [&'static str; 2] = ["match-v5.match", "match-v5.timeline"];

struct JobState {
    host: String,
    method: String,
    path: String,
    /// The node that holds the job, and when its lease ends.
    lease: Option<(u32, u64)>,
    attempts: u32,
    /// The node that must not run the job.
    exclude: Option<u32>,
    /// The other job of an audit.
    twin: Option<u64>,
    is_twin: bool,
    created_ms: u64,
}

/// A job.
#[verifier::ext_equal]
pub struct JobV {
    pub host: Seq<char>,
    pub method: Seq<char>,
    pub path: Seq<char>,
    pub lease: Option<(u32, u64)>,
    pub attempts: u32,
    pub exclude: Option<u32>,
    pub twin: Option<u64>,
    pub is_twin: bool,
    pub created_ms: u64,
}

impl View for JobState {
    type V = JobV;

    closed spec fn view(&self) -> JobV {
        JobV {
            host: self.host@,
            method: self.method@,
            path: self.path@,
            lease: self.lease,
            attempts: self.attempts,
            exclude: self.exclude,
            twin: self.twin,
            is_twin: self.is_twin,
            created_ms: self.created_ms,
        }
    }
}

/// The answer to a job: a body, or that there is no such thing.
#[derive(Clone, Debug, PartialEq, Eq)]
pub enum Answer {
    Found(String),
    NotFound,
}

impl View for Answer {
    type V = Option<Seq<char>>;

    open spec fn view(&self) -> Option<Seq<char>> {
        match self {
            Answer::Found(body) => Some(body@),
            Answer::NotFound => None,
        }
    }
}

struct AuditPair {
    method: String,
    path: String,
    primary_node: u32,
    twin_node: Option<u32>,
    primary: Option<Answer>,
    twin: Option<Answer>,
}

/// An audit, under the id of its twin job.
#[verifier::ext_equal]
pub struct PairV {
    pub method: Seq<char>,
    pub path: Seq<char>,
    pub primary_node: u32,
    pub twin_node: Option<u32>,
    pub primary: Option<Option<Seq<char>>>,
    pub twin: Option<Option<Seq<char>>>,
}

spec fn answer_view(a: Option<Answer>) -> Option<Option<Seq<char>>> {
    match a {
        Some(a) => Some(a@),
        None => None,
    }
}

impl View for AuditPair {
    type V = PairV;

    closed spec fn view(&self) -> PairV {
        PairV {
            method: self.method@,
            path: self.path@,
            primary_node: self.primary_node,
            twin_node: self.twin_node,
            primary: answer_view(self.primary),
            twin: answer_view(self.twin),
        }
    }
}

/// Jobs, the queues of those that nobody holds, and the audits under way.
#[verifier::ext_equal]
pub struct BrokerV {
    pub next_id: u64,
    pub jobs: Map<u64, JobV>,
    pub queues: Map<Seq<char>, Seq<(u64, Option<u32>)>>,
    pub audits: Map<u64, PairV>,
    pub closed: bool,
}

pub struct Broker {
    next_id: u64,
    jobs: BTreeMap<u64, JobState>,
    queues: Named<Vec<(u64, Option<u32>)>>,
    audits: BTreeMap<u64, AuditPair>,
    closed: bool,
}

impl View for Broker {
    type V = BrokerV;

    closed spec fn view(&self) -> BrokerV {
        BrokerV {
            next_id: self.next_id,
            jobs: self.jobs@.map_values(|j: JobState| j@),
            queues: self.queues@.map_values(|q: Vec<(u64, Option<u32>)>| q@),
            audits: self.audits@.map_values(|p: AuditPair| p@),
            closed: self.closed,
        }
    }
}

/// The queue of a host.
pub open spec fn queue_of(b: BrokerV, host: Seq<char>) -> Seq<(u64, Option<u32>)> {
    if b.queues.contains_key(host) {
        b.queues[host]
    } else {
        Seq::empty()
    }
}

/// The `i`-th entry of a host's queue is of a job.
pub open spec fn queued_at(b: BrokerV, host: Seq<char>, i: int, id: u64) -> bool {
    0 <= i < queue_of(b, host).len() && queue_of(b, host)[i].0 == id
}

/// What holds of the jobs and queues at all times: ids are below the next one;
/// a queued job that is still there is held by nobody and queued with its
/// exclusion at its host; no job is queued twice; every job that nobody holds
/// is queued; no node holds a job that it must not run; and no job has used up
/// its attempts.
pub open spec fn queues_ok(b: BrokerV) -> bool {
    &&& forall|id: u64| #[trigger] b.jobs.contains_key(id) ==> id < b.next_id
    &&& forall|h: Seq<char>, i: int, id: u64| #[trigger]
        queued_at(b, h, i, id) ==> id < b.next_id && (b.jobs.contains_key(id)
            ==> b.jobs[id].lease is None && b.jobs[id].host == h && b.jobs[id].exclude == queue_of(
            b,
            h,
        )[i].1)
    &&& forall|h: Seq<char>, i: int, g: Seq<char>, j: int, id: u64|
        #[trigger] queued_at(b, h, i, id) && #[trigger] queued_at(b, g, j, id) ==> h == g && i == j
    &&& forall|id: u64| #[trigger]
        b.jobs.contains_key(id) && b.jobs[id].lease is None ==> is_queued(b, b.jobs[id].host, id)
    &&& forall|id: u64| #[trigger]
        b.jobs.contains_key(id) ==> b.jobs[id].attempts < MAX_ATTEMPTS && (b.jobs[id].lease
            matches Some((n, _)) ==> b.jobs[id].exclude != Some(n))
}

/// A job is in the queue of a host.
pub open spec fn is_queued(b: BrokerV, host: Seq<char>, id: u64) -> bool {
    exists|i: int| #[trigger] queued_at(b, host, i, id)
}

/// What becomes of a fetch: a body, that there is none, or why it was given up.
pub struct Resolution {
    pub id: u64,
    pub result: Result<Option<String>, String>,
}

/// What a resolution says: the job, and the answer or the reason.
#[verifier::ext_equal]
pub struct ResolutionV {
    pub id: u64,
    pub result: Result<Option<Seq<char>>, Seq<char>>,
}

impl View for Resolution {
    type V = ResolutionV;

    open spec fn view(&self) -> ResolutionV {
        ResolutionV {
            id: self.id,
            result: match self.result {
                Ok(Some(body)) => Ok(Some(body@)),
                Ok(None) => Ok(None),
                Err(why) => Err(why@),
            },
        }
    }
}

impl Broker {
    pub closed spec fn wf(&self) -> bool {
        &&& self.queues.wf()
        &&& queues_ok(self@)
    }

    /// No job is queued twice, none that nobody holds is lost, and none is
    /// held by a node that must not run it.
    pub proof fn law_no_job_is_lost(&self)
        requires
            self.wf(),
        ensures
            queues_ok(self@),
    {
    }

    pub fn new() -> (res: Self)
        ensures
            res.wf(),
            res@ == (BrokerV {
                next_id: 1,
                jobs: Map::empty(),
                queues: Map::empty(),
                audits: Map::empty(),
                closed: false,
            }),
    {
        let res = Broker {
            next_id: 1,
            jobs: BTreeMap::new(),
            queues: Named::new(),
            audits: BTreeMap::new(),
            closed: false,
        };
        assert(res@ =~= BrokerV {
            next_id: 1,
            jobs: Map::empty(),
            queues: Map::empty(),
            audits: Map::empty(),
            closed: false,
        });
        res
    }

    pub fn is_shutdown(&self) -> (res: bool)
        ensures
            res == self@.closed,
    {
        self.closed
    }

    fn job(&self, id: u64) -> (res: Option<&JobState>)
        ensures
            match res {
                Some(job) => self@.jobs.contains_key(id) && job@ == self@.jobs[id],
                None => !self@.jobs.contains_key(id),
            },
    {
        self.jobs.get(&id)
    }

    fn take_job(&mut self, id: u64) -> (res: Option<JobState>)
        requires
            old(self).queues.wf(),
        ensures
            final(self).queues.wf(),
            final(self)@ == (BrokerV { jobs: old(self)@.jobs.remove(id), ..old(self)@ }),
            match res {
                Some(job) => old(self)@.jobs.contains_key(id) && job@ == old(self)@.jobs[id],
                None => !old(self)@.jobs.contains_key(id),
            },
    {
        let ghost was = self@;
        let res = self.jobs.remove(&id);
        assert(self@.jobs =~= was.jobs.remove(id));
        res
    }

    fn put_job(&mut self, id: u64, job: JobState)
        requires
            old(self).queues.wf(),
        ensures
            final(self).queues.wf(),
            final(self)@ == (BrokerV { jobs: old(self)@.jobs.insert(id, job@), ..old(self)@ }),
    {
        let ghost was = self@;
        let ghost v = job@;
        let _ = self.jobs.insert(id, job);
        assert(self@.jobs =~= was.jobs.insert(id, v));
    }

    fn take_audit(&mut self, id: u64) -> (res: Option<AuditPair>)
        requires
            old(self).queues.wf(),
        ensures
            final(self).queues.wf(),
            final(self)@ == (BrokerV { audits: old(self)@.audits.remove(id), ..old(self)@ }),
            match res {
                Some(pair) => old(self)@.audits.contains_key(id) && pair@
                    == old(self)@.audits[id],
                None => !old(self)@.audits.contains_key(id),
            },
    {
        let ghost was = self@;
        let res = self.audits.remove(&id);
        assert(self@.audits =~= was.audits.remove(id));
        res
    }

    fn put_audit(&mut self, id: u64, pair: AuditPair)
        requires
            old(self).queues.wf(),
        ensures
            final(self).queues.wf(),
            final(self)@ == (BrokerV {
                audits: old(self)@.audits.insert(id, pair@),
                ..old(self)@
            }),
    {
        let ghost was = self@;
        let ghost v = pair@;
        let _ = self.audits.insert(id, pair);
        assert(self@.audits =~= was.audits.insert(id, v));
    }

    fn enqueue(&mut self, host: &str, id: u64, exclude: Option<u32>)
        requires
            old(self).queues.wf(),
        ensures
            final(self).queues.wf(),
            final(self)@ == enqueued(old(self)@, host@, id, exclude),
    {
        let ghost was = self@;
        let mut q: Vec<(u64, Option<u32>)> = match self.queues.take(host) {
            Some(q) => q,
            None => Vec::new(),
        };
        assert(q@ =~= queue_of(was, host@));
        q.push((id, exclude));
        let ghost v = q@;
        self.queues.put(host.to_string(), q);
        assert(self@.queues =~= was.queues.insert(host@, v));
    }
}

/// A job put at the end of a host's queue.
pub open spec fn enqueued(b: BrokerV, host: Seq<char>, id: u64, exclude: Option<u32>) -> BrokerV {
    BrokerV { queues: b.queues.insert(host, queue_of(b, host).push((id, exclude))), ..b }
}

// ---- the crawl side ----

/// The broker after a fetch was asked for.
pub open spec fn fetching(
    b: BrokerV,
    host: Seq<char>,
    method: Seq<char>,
    path: Seq<char>,
    now_ms: u64,
) -> BrokerV {
    let id = b.next_id;
    enqueued(
        BrokerV {
            next_id: (id + 1) as u64,
            jobs: b.jobs.insert(
                id,
                JobV {
                    host,
                    method,
                    path,
                    lease: None,
                    attempts: 0,
                    exclude: None,
                    twin: None,
                    is_twin: false,
                    created_ms: now_ms,
                },
            ),
            ..b
        },
        host,
        id,
        None,
    )
}

/// Putting a new job at the end of its queue keeps the queues in order.
proof fn lemma_enqueue_new(b: BrokerV, id: u64, job: JobV)
    requires
        queues_ok(b),
        id >= b.next_id,
        id < u64::MAX,
        job.lease is None,
        job.attempts < MAX_ATTEMPTS,
    ensures
        queues_ok(
            enqueued(
                BrokerV { next_id: (id + 1) as u64, jobs: b.jobs.insert(id, job), ..b },
                job.host,
                id,
                job.exclude,
            ),
        ),
{
    let m = BrokerV { next_id: (id + 1) as u64, jobs: b.jobs.insert(id, job), ..b };
    let c = enqueued(m, job.host, id, job.exclude);
    lemma_enqueue(b, m, c, job.host, id, job.exclude);
}

/// What an entry at the end of a queue means for the other entries.
proof fn lemma_entries(b: BrokerV, host: Seq<char>, id: u64, exclude: Option<u32>)
    ensures
        forall|h: Seq<char>, i: int, x: u64| #[trigger]
            queued_at(enqueued(b, host, id, exclude), h, i, x) <==> queued_at(b, h, i, x) || (h
                == host && i == queue_of(b, host).len() && x == id),
        forall|h: Seq<char>, i: int|
            0 <= i < queue_of(b, h).len() ==> #[trigger] queue_of(
                enqueued(b, host, id, exclude),
                h,
            )[i] == queue_of(b, h)[i],
        queue_of(enqueued(b, host, id, exclude), host) == queue_of(b, host).push((id, exclude)),
{
}

proof fn lemma_enqueue(
    b: BrokerV,
    m: BrokerV,
    c: BrokerV,
    host: Seq<char>,
    id: u64,
    exclude: Option<u32>,
)
    requires
        queues_ok(b),
        m.queues == b.queues,
        m.next_id >= b.next_id,
        id < m.next_id,
        m.jobs.contains_key(id),
        m.jobs[id].lease is None,
        m.jobs[id].host == host,
        m.jobs[id].exclude == exclude,
        m.jobs[id].attempts < MAX_ATTEMPTS,
        forall|x: u64| x != id ==> (#[trigger] m.jobs.contains_key(x) ==> b.jobs.contains_key(x)
            && b.jobs[x] == m.jobs[x]),
        forall|h: Seq<char>, i: int| !#[trigger] queued_at(b, h, i, id),
        c == enqueued(m, host, id, exclude),
    ensures
        queues_ok(c),
{
    lemma_entries(m, host, id, exclude);
    assert forall|h: Seq<char>, i: int, x: u64| #[trigger] queued_at(m, h, i, x) == queued_at(
        b,
        h,
        i,
        x,
    ) by {}
    assert forall|x: u64| #[trigger] c.jobs.contains_key(x) implies x < c.next_id by {
        if x != id {
            assert(b.jobs.contains_key(x));
        }
    }
    assert forall|h: Seq<char>, i: int, x: u64| #[trigger] queued_at(c, h, i, x) implies x
        < c.next_id && (c.jobs.contains_key(x) ==> c.jobs[x].lease is None && c.jobs[x].host == h
        && c.jobs[x].exclude == queue_of(c, h)[i].1) by {
        if !(h == host && i == queue_of(m, host).len() && x == id) {
            assert(queued_at(m, h, i, x));
            assert(queued_at(b, h, i, x));
            assert(x != id);
            assert(queue_of(c, h)[i] == queue_of(b, h)[i]);
        }
    }
    assert forall|h: Seq<char>, i: int, g: Seq<char>, j: int, x: u64|
        #[trigger] queued_at(c, h, i, x) && #[trigger] queued_at(c, g, j, x) implies h == g && i
        == j by {
        assert(queued_at(m, h, i, x) ==> queued_at(b, h, i, x));
        assert(queued_at(m, g, j, x) ==> queued_at(b, g, j, x));
        assert(!queued_at(b, h, i, id));
        assert(!queued_at(b, g, j, id));
    }
    assert forall|x: u64| #[trigger] c.jobs.contains_key(x) && c.jobs[x].lease is None implies
        is_queued(c, c.jobs[x].host, x) by {
        if x == id {
            assert(queued_at(c, host, queue_of(m, host).len() as int, id));
        } else {
            assert(b.jobs.contains_key(x));
            assert(is_queued(b, b.jobs[x].host, x));
            let i = choose|i: int| #[trigger] queued_at(b, b.jobs[x].host, i, x);
            assert(queued_at(m, b.jobs[x].host, i, x));
            assert(queued_at(c, c.jobs[x].host, i, x));
        }
    }
    assert forall|x: u64| #[trigger] c.jobs.contains_key(x) implies c.jobs[x].attempts
        < MAX_ATTEMPTS && (c.jobs[x].lease matches Some((n, _)) ==> c.jobs[x].exclude
        != Some(n)) by {
        if x != id {
            assert(b.jobs.contains_key(x));
        }
    }
}

/// Taking jobs away, and nothing else, keeps the queues in order.
proof fn lemma_fewer_jobs(b: BrokerV, c: BrokerV)
    requires
        queues_ok(b),
        c.queues == b.queues,
        c.next_id == b.next_id,
        forall|x: u64| #[trigger]
            c.jobs.contains_key(x) ==> b.jobs.contains_key(x) && b.jobs[x] == c.jobs[x],
    ensures
        queues_ok(c),
{
    assert forall|h: Seq<char>, i: int, x: u64| #[trigger] queued_at(c, h, i, x) == queued_at(
        b,
        h,
        i,
        x,
    ) by {}
    assert forall|h: Seq<char>| #[trigger] queue_of(c, h) == queue_of(b, h) by {}
    assert forall|h: Seq<char>, i: int, x: u64| #[trigger] queued_at(c, h, i, x) implies x
        < c.next_id && (c.jobs.contains_key(x) ==> c.jobs[x].lease is None && c.jobs[x].host == h
        && c.jobs[x].exclude == queue_of(c, h)[i].1) by {
        assert(queued_at(b, h, i, x));
    }
    assert forall|h: Seq<char>, i: int, g: Seq<char>, j: int, x: u64|
        #[trigger] queued_at(c, h, i, x) && #[trigger] queued_at(c, g, j, x) implies h == g && i
        == j by {
        assert(queued_at(b, h, i, x) && queued_at(b, g, j, x));
    }
    assert forall|x: u64| #[trigger] c.jobs.contains_key(x) && c.jobs[x].lease is None implies
        is_queued(c, c.jobs[x].host, x) by {
        assert(b.jobs.contains_key(x));
        assert(is_queued(b, b.jobs[x].host, x));
        let i = choose|i: int| #[trigger] queued_at(b, b.jobs[x].host, i, x);
        assert(queued_at(c, c.jobs[x].host, i, x));
    }
}

impl Broker {
    /// Whether an id is left for every job and one more.
    pub fn has_room(&self) -> (res: bool)
        requires
            self.wf(),
        ensures
            res == (self@.next_id + self@.jobs.dom().len() < u64::MAX),
    {
        assert(self@.jobs.dom() =~= self.jobs@.dom());
        let n: usize = self.jobs.len();
        n as u64 <= u64::MAX - 1 && self.next_id < u64::MAX - n as u64
    }

    /// Whether ids are left for some more jobs.
    pub fn has_room_for(&self, n: usize) -> (res: bool)
        ensures
            res == (self@.next_id + n < u64::MAX),
    {
        self.next_id < u64::MAX && (n as u64) < u64::MAX - self.next_id
    }

    /// Asks for a body, unless the broker was shut down: gives the id of the
    /// job, under which its resolution comes.
    pub fn fetch(&mut self, host: &str, method: &str, path: String, now_ms: u64) -> (res: Option<
        u64,
    >)
        requires
            old(self).wf(),
            old(self)@.next_id < u64::MAX,
        ensures
            final(self).wf(),
            match res {
                Some(id) => {
                    &&& !old(self)@.closed
                    &&& id == old(self)@.next_id
                    &&& final(self)@ == fetching(old(self)@, host@, method@, path@, now_ms)
                },
                None => old(self)@.closed && final(self)@ == old(self)@,
            },
    {
        if self.closed {
            return None;
        }
        let ghost was = self@;
        let id: u64 = self.next_id;
        let job = JobState {
            host: host.to_string(),
            method: method.to_string(),
            path,
            lease: None,
            attempts: 0,
            exclude: None,
            twin: None,
            is_twin: false,
            created_ms: now_ms,
        };
        let ghost v = job@;
        proof {
            lemma_enqueue_new(was, id, v);
        }
        self.next_id = id + 1;
        self.put_job(id, job);
        self.enqueue(host, id, None);
        Some(id)
    }
}

// ---- the node side: taking jobs ----

/// The jobs that a node takes from a queue: the first ones that it may run, up
/// to `cap`.
pub open spec fn picks(q: Seq<(u64, Option<u32>)>, node: u32, cap: int) -> Seq<u64>
    decreases q.len(),
{
    if q.len() == 0 || cap <= 0 {
        Seq::empty()
    } else if q[0].1 == Some(node) {
        picks(q.skip(1), node, cap)
    } else {
        seq![q[0].0] + picks(q.skip(1), node, cap - 1)
    }
}

/// What stays in a queue when a node takes jobs from it.
pub open spec fn leaves(q: Seq<(u64, Option<u32>)>, node: u32, cap: int) -> Seq<
    (u64, Option<u32>),
>
    decreases q.len(),
{
    if q.len() == 0 || cap <= 0 {
        q
    } else if q[0].1 == Some(node) {
        seq![q[0]] + leaves(q.skip(1), node, cap)
    } else {
        leaves(q.skip(1), node, cap - 1)
    }
}

/// The broker after a job was handed to a node, if it is still there.
pub open spec fn leased(b: BrokerV, id: u64, node: u32, until_ms: u64) -> BrokerV {
    if b.jobs.contains_key(id) {
        BrokerV {
            jobs: b.jobs.insert(id, JobV { lease: Some((node, until_ms)), ..b.jobs[id] }),
            ..b
        }
    } else {
        b
    }
}

/// The broker after jobs were handed to a node.
pub open spec fn leased_all(b: BrokerV, ids: Seq<u64>, node: u32, until_ms: u64) -> BrokerV
    decreases ids.len(),
{
    if ids.len() == 0 {
        b
    } else {
        leased(leased_all(b, ids.drop_last(), node, until_ms), ids.last(), node, until_ms)
    }
}

/// The broker after a node took up to `cap` jobs of a host.
pub open spec fn taken_from(
    b: BrokerV,
    host: Seq<char>,
    node: u32,
    cap: int,
    until_ms: u64,
) -> BrokerV {
    leased_all(
        BrokerV { queues: b.queues.insert(host, leaves(queue_of(b, host), node, cap)), ..b },
        picks(queue_of(b, host), node, cap),
        node,
        until_ms,
    )
}

/// How many jobs a node says that it holds for a host.
pub open spec fn held_for(pending: Seq<(String, u32)>, host: Seq<char>) -> int
    decreases pending.len(),
{
    if pending.len() == 0 {
        0
    } else if pending[0].0@ == host {
        pending[0].1 as int
    } else {
        held_for(pending.skip(1), host)
    }
}

/// How many more jobs of a host a node may take.
pub open spec fn room_for(pending: Seq<(String, u32)>, host: Seq<char>) -> int {
    let held = held_for(pending, host);
    if held < TARGET_INFLIGHT_PER_HOST {
        TARGET_INFLIGHT_PER_HOST - held
    } else {
        0
    }
}

/// The broker after a node took jobs of each of the hosts.
pub open spec fn taken(
    b: BrokerV,
    hosts: Seq<Seq<char>>,
    node: u32,
    pending: Seq<(String, u32)>,
    until_ms: u64,
) -> BrokerV
    decreases hosts.len(),
{
    if hosts.len() == 0 {
        b
    } else {
        let host = hosts.last();
        taken_from(
            taken(b, hosts.drop_last(), node, pending, until_ms),
            host,
            node,
            room_for(pending, host),
            until_ms,
        )
    }
}

/// Those of the ids that are of jobs still there.
pub open spec fn still_there(b: BrokerV, ids: Seq<u64>) -> Seq<u64>
    decreases ids.len(),
{
    if ids.len() == 0 {
        Seq::empty()
    } else {
        let rest = still_there(b, ids.drop_last());
        if b.jobs.contains_key(ids.last()) {
            rest.push(ids.last())
        } else {
            rest
        }
    }
}

/// The jobs that a node takes, of one host after the other.
pub open spec fn handed(
    b: BrokerV,
    hosts: Seq<Seq<char>>,
    node: u32,
    pending: Seq<(String, u32)>,
) -> Seq<u64>
    decreases hosts.len(),
{
    if hosts.len() == 0 {
        Seq::empty()
    } else {
        let host = hosts.last();
        handed(b, hosts.drop_last(), node, pending) + still_there(
            b,
            picks(queue_of(b, host), node, room_for(pending, host)),
        )
    }
}

/// The jobs among these that may get a twin: no twins, and none that has one.
pub open spec fn auditable(b: BrokerV, ids: Seq<u64>) -> Seq<u64>
    decreases ids.len(),
{
    if ids.len() == 0 {
        Seq::empty()
    } else {
        let rest = auditable(b, ids.drop_last());
        let job = b.jobs[ids.last()];
        if !job.is_twin && job.twin is None {
            rest.push(ids.last())
        } else {
            rest
        }
    }
}

/// A job as a node gets it.
pub open spec fn is_job(job: Job, id: u64, v: JobV) -> bool {
    job.id == id && job.host@ == v.host && job.method@ == v.method && job.path@ == v.path
        && job.lease_ms == LEASE_MS
}

/// What a node takes: the jobs, and those of them that may be audited.
pub struct Handed {
    pub jobs: Vec<Job>,
    pub auditable: Vec<u64>,
}

/// No id is twice in a queue.
/// A node takes jobs of the hosts in turn: as many of each as it has room for,
/// and each for the time of a lease. Its jobs may be audited if another node is
/// active.
pub open spec fn is_handout(
    b: BrokerV,
    hosts: Seq<Seq<char>>,
    registry: RegistryV,
    node: u32,
    pending: Seq<(String, u32)>,
    now_ms: u64,
    after: BrokerV,
    res: Handed,
) -> bool {
    let ids = handed(b, hosts, node, pending);
    let active = exists|n: u32| #[trigger]
        registry.nodes.contains_key(n) && n != node && is_active(registry.nodes[n], now_ms);
    &&& after == taken(b, hosts, node, pending, (now_ms + LEASE_MS) as u64)
    &&& res.jobs@.len() == ids.len()
    &&& forall|i: int|
        0 <= i < ids.len() ==> is_job(#[trigger] res.jobs@[i], ids[i], b.jobs[ids[i]])
    &&& res.auditable@ == (if active {
        auditable(b, ids)
    } else {
        Seq::empty()
    })
}

spec fn once_each(q: Seq<(u64, Option<u32>)>) -> bool {
    forall|i: int, j: int| 0 <= i < j < q.len() ==> (#[trigger] q[i]).0 != (#[trigger] q[j]).0
}

spec fn holds_id(q: Seq<(u64, Option<u32>)>, id: u64) -> bool {
    exists|i: int| 0 <= i < q.len() && (#[trigger] q[i]).0 == id
}

proof fn lemma_picks(q: Seq<(u64, Option<u32>)>, node: u32, cap: int)
    requires
        once_each(q),
    ensures
        once_each(leaves(q, node, cap)),
        forall|i: int|
            0 <= i < leaves(q, node, cap).len() ==> q.contains(
                #[trigger] leaves(q, node, cap)[i],
            ),
        forall|i: int|
            0 <= i < picks(q, node, cap).len() ==> exists|k: int|
                0 <= k < q.len() && (#[trigger] q[k]).0 == #[trigger] picks(q, node, cap)[i]
                    && q[k].1 != Some(node),
        forall|k: int|
            0 <= k < q.len() ==> leaves(q, node, cap).contains(#[trigger] q[k]) || picks(
                q,
                node,
                cap,
            ).contains(q[k].0),
        forall|id: u64|
            picks(q, node, cap).contains(id) ==> !#[trigger] holds_id(leaves(q, node, cap), id),
    decreases q.len(),
{
    if q.len() == 0 || cap <= 0 {
        assert forall|k: int| 0 <= k < q.len() implies leaves(q, node, cap).contains(
            #[trigger] q[k],
        ) by {}
    } else {
        let rest = q.skip(1);
        let first = q[0];
        assert forall|i: int, j: int| 0 <= i < j < rest.len() implies (#[trigger] rest[i]).0 != (
        #[trigger] rest[j]).0 by {
            assert(rest[i] == q[i + 1] && rest[j] == q[j + 1]);
        }
        assert forall|k: int| 0 <= k < rest.len() implies (#[trigger] rest[k]).0 != first.0 by {
            assert(rest[k] == q[k + 1]);
            assert(q[0].0 != q[k + 1].0);
        }
        if first.1 == Some(node) {
            lemma_picks(rest, node, cap);
            let l0 = leaves(rest, node, cap);
            let p0 = picks(rest, node, cap);
            let l = leaves(q, node, cap);
            let p = picks(q, node, cap);
            assert(l =~= seq![first] + l0);
            assert(p == p0);
            assert forall|i: int| 0 <= i < l.len() implies q.contains(#[trigger] l[i]) by {
                if i == 0 {
                    assert(q[0] == l[0]);
                } else {
                    assert(l[i] == l0[i - 1]);
                    let k = choose|k: int| 0 <= k < rest.len() && rest[k] == l0[i - 1];
                    assert(q[k + 1] == l[i]);
                }
            }
            assert forall|i: int, j: int| 0 <= i < j < l.len() implies (#[trigger] l[i]).0 != (
            #[trigger] l[j]).0 by {
                assert(l[j] == l0[j - 1]);
                if i == 0 {
                    let k = choose|k: int| 0 <= k < rest.len() && rest[k] == l0[j - 1];
                    assert(rest[k].0 != first.0);
                } else {
                    assert(l[i] == l0[i - 1]);
                }
            }
            assert forall|i: int| 0 <= i < p.len() implies exists|k: int|
                0 <= k < q.len() && (#[trigger] q[k]).0 == #[trigger] p[i] && q[k].1
                    != Some(node) by {
                let k = choose|k: int|
                    0 <= k < rest.len() && (#[trigger] rest[k]).0 == p0[i] && rest[k].1
                        != Some(node);
                assert(q[k + 1] == rest[k]);
            }
            assert forall|k: int| 0 <= k < q.len() implies l.contains(#[trigger] q[k])
                || p.contains(q[k].0) by {
                if k == 0 {
                    assert(l[0] == q[0]);
                } else {
                    assert(rest[k - 1] == q[k]);
                    if l0.contains(rest[k - 1]) {
                        let i = choose|i: int| 0 <= i < l0.len() && l0[i] == rest[k - 1];
                        assert(l[i + 1] == q[k]);
                    }
                }
            }
            assert forall|id: u64| p.contains(id) implies !#[trigger] holds_id(l, id) by {
                if holds_id(l, id) {
                    let i = choose|i: int| 0 <= i < l.len() && (#[trigger] l[i]).0 == id;
                    if i == 0 {
                        let x = choose|x: int| 0 <= x < p0.len() && p0[x] == id;
                        let k = choose|k: int|
                            0 <= k < rest.len() && (#[trigger] rest[k]).0 == p0[x] && rest[k].1
                                != Some(node);
                        assert(rest[k].0 != first.0);
                    } else {
                        assert(l[i] == l0[i - 1]);
                        assert(holds_id(l0, id));
                    }
                }
            }
        } else {
            lemma_picks(rest, node, cap - 1);
            let l = leaves(rest, node, cap - 1);
            let p0 = picks(rest, node, cap - 1);
            let p = picks(q, node, cap);
            assert(p =~= seq![first.0] + p0);
            assert forall|i: int| 0 <= i < l.len() implies q.contains(#[trigger] l[i]) by {
                let k = choose|k: int| 0 <= k < rest.len() && rest[k] == l[i];
                assert(q[k + 1] == l[i]);
            }
            assert forall|i: int| 0 <= i < p.len() implies exists|k: int|
                0 <= k < q.len() && (#[trigger] q[k]).0 == #[trigger] p[i] && q[k].1
                    != Some(node) by {
                if i == 0 {
                    assert(q[0].0 == p[0]);
                } else {
                    assert(p[i] == p0[i - 1]);
                    let k = choose|k: int|
                        0 <= k < rest.len() && (#[trigger] rest[k]).0 == p0[i - 1] && rest[k].1
                            != Some(node);
                    assert(q[k + 1] == rest[k]);
                }
            }
            assert forall|k: int| 0 <= k < q.len() implies l.contains(#[trigger] q[k])
                || p.contains(q[k].0) by {
                if k == 0 {
                    assert(p[0] == q[0].0);
                } else {
                    assert(rest[k - 1] == q[k]);
                    if p0.contains(rest[k - 1].0) {
                        let i = choose|i: int| 0 <= i < p0.len() && p0[i] == rest[k - 1].0;
                        assert(p[i + 1] == q[k].0);
                    }
                }
            }
            assert forall|id: u64| p.contains(id) implies !#[trigger] holds_id(l, id) by {
                let x = choose|x: int| 0 <= x < p.len() && p[x] == id;
                if x == 0 {
                    if holds_id(l, id) {
                        let i = choose|i: int| 0 <= i < l.len() && (#[trigger] l[i]).0 == id;
                        let k = choose|k: int| 0 <= k < rest.len() && rest[k] == l[i];
                        assert(rest[k].0 != first.0);
                    }
                } else {
                    assert(p0[x - 1] == id);
                    assert(p0.contains(id));
                }
            }
        }
    }
}

proof fn lemma_leased_all(b: BrokerV, ids: Seq<u64>, node: u32, until_ms: u64)
    ensures
        ({
            let c = leased_all(b, ids, node, until_ms);
            &&& c == (BrokerV { jobs: c.jobs, ..b })
            &&& c.jobs.dom() == b.jobs.dom()
            &&& forall|x: u64| #[trigger]
                c.jobs.contains_key(x) ==> c.jobs[x] == (if ids.contains(x) {
                    JobV { lease: Some((node, until_ms)), ..b.jobs[x] }
                } else {
                    b.jobs[x]
                })
        }),
    decreases ids.len(),
{
    if ids.len() > 0 {
        let rest = ids.drop_last();
        lemma_leased_all(b, rest, node, until_ms);
        let m = leased_all(b, rest, node, until_ms);
        let c = leased_all(b, ids, node, until_ms);
        assert(c.jobs.dom() =~= b.jobs.dom());
        assert forall|x: u64| #[trigger] c.jobs.contains_key(x) implies c.jobs[x] == (if
        ids.contains(x) {
            JobV { lease: Some((node, until_ms)), ..b.jobs[x] }
        } else {
            b.jobs[x]
        }) by {
            assert(m.jobs.contains_key(x));
            if x == ids.last() {
                assert(ids[ids.len() - 1] == x);
            } else {
                assert(ids.contains(x) == rest.contains(x)) by {
                    if ids.contains(x) {
                        let i = choose|i: int| 0 <= i < ids.len() && ids[i] == x;
                        assert(rest[i] == x);
                    }
                    if rest.contains(x) {
                        let i = choose|i: int| 0 <= i < rest.len() && rest[i] == x;
                        assert(ids[i] == x);
                    }
                }
            }
        }
    }
}

/// Taking jobs of one host keeps the queues in order.
proof fn lemma_taken_from(b: BrokerV, host: Seq<char>, node: u32, cap: int, until_ms: u64)
    requires
        queues_ok(b),
    ensures
        queues_ok(taken_from(b, host, node, cap, until_ms)),
{
    let q = queue_of(b, host);
    let l = leaves(q, node, cap);
    let p = picks(q, node, cap);
    let m = BrokerV { queues: b.queues.insert(host, l), ..b };
    let c = taken_from(b, host, node, cap, until_ms);
    assert(once_each(q)) by {
        assert forall|i: int, j: int| 0 <= i < j < q.len() implies (#[trigger] q[i]).0 != (
        #[trigger] q[j]).0 by {
            if q[i].0 == q[j].0 {
                assert(queued_at(b, host, i, q[i].0) && queued_at(b, host, j, q[i].0));
            }
        }
    }
    lemma_picks(q, node, cap);
    lemma_leased_all(m, p, node, until_ms);
    assert(queue_of(c, host) == l);
    assert forall|h: Seq<char>| h != host implies #[trigger] queue_of(c, h) == queue_of(b, h) by {}
    assert forall|h: Seq<char>, i: int, x: u64| #[trigger] queued_at(c, h, i, x) implies exists|
        k: int,
    | #[trigger]
        queued_at(b, h, k, x) && queue_of(b, h)[k] == queue_of(c, h)[i] && (h != host ==> k
            == i) by {
        if h == host {
            assert(q.contains(l[i]));
            let k = choose|k: int| 0 <= k < q.len() && q[k] == l[i];
            assert(queued_at(b, h, k, x));
        } else {
            assert(queued_at(b, h, i, x));
        }
    }
    assert forall|x: u64| #[trigger] c.jobs.contains_key(x) implies x < c.next_id by {
        assert(b.jobs.contains_key(x));
    }
    assert forall|h: Seq<char>, i: int, x: u64| #[trigger] queued_at(c, h, i, x) implies x
        < c.next_id && (c.jobs.contains_key(x) ==> c.jobs[x].lease is None && c.jobs[x].host == h
        && c.jobs[x].exclude == queue_of(c, h)[i].1) by {
        let k = choose|k: int| #[trigger]
            queued_at(b, h, k, x) && queue_of(b, h)[k] == queue_of(c, h)[i] && (h != host ==> k
                == i);
        assert(queued_at(b, h, k, x));
        if c.jobs.contains_key(x) {
            assert(b.jobs.contains_key(x));
            assert(!p.contains(x)) by {
                if p.contains(x) {
                    let y = choose|y: int| 0 <= y < p.len() && p[y] == x;
                    let z = choose|z: int|
                        0 <= z < q.len() && (#[trigger] q[z]).0 == p[y] && q[z].1 != Some(node);
                    assert(queued_at(b, host, z, x));
                    assert(h == host);
                    assert(l[i].0 == x);
                    assert(holds_id(l, x));
                }
            }
        }
    }
    assert forall|h: Seq<char>, i: int, g: Seq<char>, j: int, x: u64|
        #[trigger] queued_at(c, h, i, x) && #[trigger] queued_at(c, g, j, x) implies h == g && i
        == j by {
        let k1 = choose|k: int| #[trigger]
            queued_at(b, h, k, x) && queue_of(b, h)[k] == queue_of(c, h)[i] && (h != host ==> k
                == i);
        let k2 = choose|k: int| #[trigger]
            queued_at(b, g, k, x) && queue_of(b, g)[k] == queue_of(c, g)[j] && (g != host ==> k
                == j);
        assert(queued_at(b, h, k1, x) && queued_at(b, g, k2, x));
        assert(h == g && k1 == k2);
        if h == host && i != j {
            if i < j {
                assert(l[i].0 != l[j].0);
            } else {
                assert(l[j].0 != l[i].0);
            }
        }
    }
    assert forall|x: u64| #[trigger] c.jobs.contains_key(x) && c.jobs[x].lease is None implies
        is_queued(c, c.jobs[x].host, x) by {
        assert(b.jobs.contains_key(x));
        assert(!p.contains(x));
        assert(is_queued(b, b.jobs[x].host, x));
        let i = choose|i: int| #[trigger] queued_at(b, b.jobs[x].host, i, x);
        if b.jobs[x].host == host {
            assert(l.contains(q[i]) || p.contains(q[i].0));
            let k = choose|k: int| 0 <= k < l.len() && l[k] == q[i];
            assert(queued_at(c, host, k, x));
        } else {
            assert(queued_at(c, b.jobs[x].host, i, x));
        }
    }
    assert forall|x: u64| #[trigger] c.jobs.contains_key(x) implies c.jobs[x].attempts
        < MAX_ATTEMPTS && (c.jobs[x].lease matches Some((n, _)) ==> c.jobs[x].exclude
        != Some(n)) by {
        assert(b.jobs.contains_key(x));
        if p.contains(x) {
            let y = choose|y: int| 0 <= y < p.len() && p[y] == x;
            let z = choose|z: int|
                0 <= z < q.len() && (#[trigger] q[z]).0 == p[y] && q[z].1 != Some(node);
            assert(queued_at(b, host, z, x));
        }
    }
}

/// What taking jobs of some hosts leaves alone: the queues of other hosts, and
/// of the jobs everything but who holds them.
proof fn lemma_taken_frame(
    b: BrokerV,
    hosts: Seq<Seq<char>>,
    node: u32,
    pending: Seq<(String, u32)>,
    until_ms: u64,
)
    ensures
        ({
            let c = taken(b, hosts, node, pending, until_ms);
            &&& c == (BrokerV { jobs: c.jobs, queues: c.queues, ..b })
            &&& c.jobs.dom() == b.jobs.dom()
            &&& forall|x: u64| #[trigger]
                c.jobs.contains_key(x) ==> c.jobs[x] == (JobV {
                    lease: c.jobs[x].lease,
                    ..b.jobs[x]
                })
            &&& forall|h: Seq<char>|
                !hosts.contains(h) ==> #[trigger] queue_of(c, h) == queue_of(b, h)
        }),
    decreases hosts.len(),
{
    if hosts.len() > 0 {
        let rest = hosts.drop_last();
        let host = hosts.last();
        lemma_taken_frame(b, rest, node, pending, until_ms);
        let m = taken(b, rest, node, pending, until_ms);
        let c = taken(b, hosts, node, pending, until_ms);
        let cap = room_for(pending, host);
        let l = leaves(queue_of(m, host), node, cap);
        let m2 = BrokerV { queues: m.queues.insert(host, l), ..m };
        lemma_leased_all(m2, picks(queue_of(m, host), node, cap), node, until_ms);
        assert forall|x: u64| #[trigger] c.jobs.contains_key(x) implies c.jobs[x] == (JobV {
            lease: c.jobs[x].lease,
            ..b.jobs[x]
        }) by {
            assert(m.jobs.contains_key(x));
        }
        assert forall|h: Seq<char>| !hosts.contains(h) implies #[trigger] queue_of(c, h)
            == queue_of(b, h) by {
            assert(hosts[hosts.len() - 1] == host);
            assert(!rest.contains(h)) by {
                if rest.contains(h) {
                    let i = choose|i: int| 0 <= i < rest.len() && rest[i] == h;
                    assert(hosts[i] == h);
                }
            }
            assert(queue_of(m, h) == queue_of(b, h));
        }
    }
}

impl Broker {
    /// The hosts that have a queue, in the order in which they are served.
    pub closed spec fn host_order(&self) -> Seq<Seq<char>> {
        self.queues.names()
    }

    /// Every host with a queue is served, once.
    pub proof fn lemma_host_order(&self)
        requires
            self.wf(),
        ensures
            self.host_order().no_duplicates(),
            forall|h: Seq<char>| #[trigger]
                self.host_order().contains(h) <==> self@.queues.contains_key(h),
    {
        self.queues.lemma_names();
        assert forall|h: Seq<char>| #[trigger] self.host_order().contains(h) <==>
            self@.queues.contains_key(h) by {
            assert(self.queues@.contains_key(h) <==> self.queues.names().contains(h));
        }
    }

    fn split_queue(&mut self, host: &str, node: u32, cap: u32) -> (res: Vec<u64>)
        requires
            old(self).queues.wf(),
        ensures
            final(self).queues.wf(),
            res@ == picks(queue_of(old(self)@, host@), node, cap as int),
            final(self)@ == (BrokerV {
                queues: old(self)@.queues.insert(
                    host@,
                    leaves(queue_of(old(self)@, host@), node, cap as int),
                ),
                ..old(self)@
            }),
    {
        let ghost was = self@;
        let q: Vec<(u64, Option<u32>)> = match self.queues.take(host) {
            Some(q) => q,
            None => Vec::new(),
        };
        let ghost all = q@;
        assert(all =~= queue_of(was, host@));
        let mut picked: Vec<u64> = Vec::new();
        let mut left: Vec<(u64, Option<u32>)> = Vec::new();
        let mut room: u32 = cap;
        let mut i: usize = 0;
        assert(all.skip(0) =~= all);
        assert(picked@ + picks(all, node, cap as int) =~= picks(all, node, cap as int));
        assert(left@ + leaves(all, node, cap as int) =~= leaves(all, node, cap as int));
        while i < q.len()
            invariant
                q@ == all,
                i <= all.len(),
                picked@ + picks(all.skip(i as int), node, room as int) == picks(
                    all,
                    node,
                    cap as int,
                ),
                left@ + leaves(all.skip(i as int), node, room as int) == leaves(
                    all,
                    node,
                    cap as int,
                ),
            decreases all.len() - i,
        {
            let ghost rest = all.skip(i as int);
            let ghost p0 = picked@;
            let ghost l0 = left@;
            assert(rest[0] == all[i as int]);
            assert(rest.skip(1) =~= all.skip(i + 1));
            let (id, exclude): (u64, Option<u32>) = q[i];
            let mine = match exclude {
                Some(n) => n == node,
                None => false,
            };
            if room == 0 {
                left.push((id, exclude));
                proof {
                    let tail = all.skip(i + 1);
                    assert(picks(tail, node, 0) =~= Seq::empty());
                    assert(leaves(tail, node, 0) == tail);
                    assert(rest =~= seq![rest[0]] + tail);
                    assert(l0 + rest =~= left@ + tail);
                }
            } else if mine {
                left.push((id, exclude));
                assert(l0 + (seq![rest[0]] + leaves(rest.skip(1), node, room as int)) =~= left@
                    + leaves(rest.skip(1), node, room as int));
            } else {
                picked.push(id);
                assert(p0 + (seq![rest[0].0] + picks(rest.skip(1), node, room - 1)) =~= picked@
                    + picks(rest.skip(1), node, room - 1));
                room = room - 1;
            }
            i = i + 1;
        }
        proof {
            let none = all.skip(i as int);
            assert(none =~= Seq::empty());
            assert(picked@ + picks(none, node, room as int) =~= picked@);
            assert(left@ + leaves(none, node, room as int) =~= left@);
        }
        let ghost lv = left@;
        self.queues.put(host.to_string(), left);
        assert(self@.queues =~= was.queues.insert(host@, lv));
        picked
    }

    fn held(&self, pending: &Vec<(String, u32)>, host: &str) -> (res: u32)
        ensures
            res == held_for(pending@, host@),
    {
        let mut i: usize = 0;
        assert(pending@.skip(0) =~= pending@);
        while i < pending.len()
            invariant
                i <= pending@.len(),
                held_for(pending@.skip(i as int), host@) == held_for(pending@, host@),
            decreases pending@.len() - i,
        {
            assert(pending@.skip(i as int)[0] == pending@[i as int]);
            assert(pending@.skip(i as int).skip(1) =~= pending@.skip(i + 1));
            if same_text(pending[i].0.as_str(), host) {
                return pending[i].1;
            }
            i = i + 1;
        }
        0
    }

    /// Hands jobs to a node: for each host as many as make up what it may hold,
    /// less what it says that it holds. The jobs that may be audited are named
    /// if there is another active node to audit them.
    pub fn take_jobs(
        &mut self,
        registry: &Registry,
        node_id: u32,
        pending: &Vec<(String, u32)>,
        now_ms: u64,
    ) -> (res: Handed)
        requires
            old(self).wf(),
            now_ms + LEASE_MS <= u64::MAX,
        ensures
            final(self).wf(),
            is_handout(
                old(self)@,
                old(self).host_order(),
                registry@,
                node_id,
                pending@,
                now_ms,
                final(self)@,
                res,
            ),
    {
        let until: u64 = now_ms + LEASE_MS;
        let audit_possible = registry.active_node_other_than(node_id, now_ms);
        let ghost start = *self;
        let ghost b = self@;
        let ghost all = self.host_order();
        proof {
            self.lemma_host_order();
        }
        let mut hosts: Vec<String> = Vec::new();
        let len: usize = self.queues.len();
        let mut i: usize = 0;
        while i < len
            invariant
                *self == start,
                self.wf(),
                all == self.host_order(),
                len == all.len(),
                i <= len,
                hosts@.len() == i,
                forall|j: int| 0 <= j < i ==> (#[trigger] hosts@[j])@ == all[j],
            decreases len - i,
        {
            let (name, _) = self.queues.entry(i);
            hosts.push(name.clone());
            i = i + 1;
        }
        let mut jobs: Vec<Job> = Vec::new();
        let mut audits: Vec<u64> = Vec::new();
        let ghost mut given: Seq<u64> = Seq::empty();
        let mut h: usize = 0;
        assert(all.take(0) =~= Seq::empty());
        while h < hosts.len()
            invariant
                self.wf(),
                until == now_ms + LEASE_MS,
                all.no_duplicates(),
                hosts@.len() == all.len(),
                forall|j: int| 0 <= j < all.len() ==> (#[trigger] hosts@[j])@ == all[j],
                h <= all.len(),
                self@ == taken(b, all.take(h as int), node_id, pending@, until),
                given == handed(b, all.take(h as int), node_id, pending@),
                jobs@.len() == given.len(),
                forall|x: int|
                    0 <= x < given.len() ==> is_job(
                        #[trigger] jobs@[x],
                        given[x],
                        b.jobs[given[x]],
                    ),
                audits@ == auditable(b, given),
            decreases all.len() - h,
        {
            let ghost before = self@;
            let ghost host = all[h as int];
            let name = &hosts[h];
            let held: u32 = self.held(pending, name.as_str());
            let cap: u32 = TARGET_INFLIGHT_PER_HOST.saturating_sub(held);
            proof {
                lemma_taken_frame(b, all.take(h as int), node_id, pending@, until);
                assert(!all.take(h as int).contains(host)) by {
                    if all.take(h as int).contains(host) {
                        let sub = all.take(h as int);
                        let k = choose|k: int| 0 <= k < sub.len() && sub[k] == host;
                        assert(all[k] == all[h as int]);
                    }
                }
                assert(queue_of(before, host) == queue_of(b, host));
                assert(cap == room_for(pending@, host));
                lemma_taken_from(before, host, node_id, cap as int, until);
                assert(all.take(h + 1).drop_last() =~= all.take(h as int));
            }
            let picked = self.split_queue(name.as_str(), node_id, cap);
            let ghost mid = self@;
            let ghost given0 = given;
            let mut k: usize = 0;
            assert(picked@.take(0) =~= Seq::empty());
            assert(given0 + Seq::<u64>::empty() =~= given0);
            while k < picked.len()
                invariant
                    self.queues.wf(),
                    until == now_ms + LEASE_MS,
                    k <= picked@.len(),
                    mid.jobs.dom() == b.jobs.dom(),
                    forall|x: u64| #[trigger]
                        mid.jobs.contains_key(x) ==> mid.jobs[x] == (JobV {
                            lease: mid.jobs[x].lease,
                            ..b.jobs[x]
                        }),
                    self@ == leased_all(mid, picked@.take(k as int), node_id, until),
                    given == given0 + still_there(b, picked@.take(k as int)),
                    jobs@.len() == given.len(),
                    forall|x: int|
                        0 <= x < given.len() ==> is_job(
                            #[trigger] jobs@[x],
                            given[x],
                            b.jobs[given[x]],
                        ),
                    audits@ == auditable(b, given),
                decreases picked@.len() - k,
            {
                let id: u64 = picked[k];
                let ghost now = self@;
                proof {
                    assert(picked@.take(k + 1).drop_last() =~= picked@.take(k as int));
                    lemma_leased_all(mid, picked@.take(k as int), node_id, until);
                }
                if let Some(mut job) = self.take_job(id) {
                    assert(now.jobs.contains_key(id));
                    assert(mid.jobs.contains_key(id));
                    let ghost v = job@;
                    assert(v.host == b.jobs[id].host && v.method == b.jobs[id].method && v.path
                        == b.jobs[id].path);
                    job.lease = Some((node_id, until));
                    jobs.push(
                        Job {
                            id,
                            host: job.host.clone(),
                            method: job.method.clone(),
                            path: job.path.clone(),
                            lease_ms: LEASE_MS,
                        },
                    );
                    let may = !job.is_twin && job.twin.is_none();
                    if may {
                        audits.push(id);
                    }
                    self.put_job(id, job);
                    proof {
                        assert(self@.jobs =~= leased(now, id, node_id, until).jobs);
                        let g0 = given;
                        given = g0.push(id);
                        assert(given.drop_last() =~= g0);
                        assert(given =~= given0 + still_there(b, picked@.take(k + 1)));
                    }
                } else {
                    assert(self@.jobs =~= now.jobs);
                    assert(!b.jobs.contains_key(id));
                }
                k = k + 1;
            }
            assert(picked@.take(k as int) =~= picked@);
            h = h + 1;
        }
        assert(all.take(h as int) =~= all);
        Handed {
            jobs,
            auditable: if audit_possible {
                audits
            } else {
                Vec::new()
            },
        }
    }
}

// ---- audits ----

/// The broker after a job that a node holds got a twin for another node.
pub open spec fn audited(b: BrokerV, id: u64, node: u32, now_ms: u64) -> BrokerV {
    if !b.jobs.contains_key(id) || b.jobs[id].is_twin || b.jobs[id].twin is Some {
        b
    } else {
        let job = b.jobs[id];
        let t = b.next_id;
        let twin = JobV {
            host: job.host,
            method: job.method,
            path: job.path,
            lease: None,
            attempts: 0,
            exclude: Some(node),
            twin: Some(id),
            is_twin: true,
            created_ms: now_ms,
        };
        let pair = PairV {
            method: job.method,
            path: job.path,
            primary_node: node,
            twin_node: None,
            primary: None,
            twin: None,
        };
        enqueued(
            BrokerV {
                next_id: (t + 1) as u64,
                jobs: b.jobs.insert(id, JobV { twin: Some(t), ..job }).insert(t, twin),
                audits: b.audits.insert(t, pair),
                ..b
            },
            job.host,
            t,
            Some(node),
        )
    }
}

/// The broker after jobs that a node holds got twins, in order.
pub open spec fn audited_all(b: BrokerV, ids: Seq<u64>, node: u32, now_ms: u64) -> BrokerV
    decreases ids.len(),
{
    if ids.len() == 0 {
        b
    } else {
        audited(audited_all(b, ids.drop_last(), node, now_ms), ids.last(), node, now_ms)
    }
}

/// Changes to jobs that touch neither who holds them nor where they are queued
/// keep the queues in order.
proof fn lemma_same_holds(b: BrokerV, c: BrokerV)
    requires
        queues_ok(b),
        c.queues == b.queues,
        c.next_id == b.next_id,
        c.jobs.dom() == b.jobs.dom(),
        forall|x: u64| #[trigger]
            c.jobs.contains_key(x) ==> c.jobs[x].lease == b.jobs[x].lease && c.jobs[x].host
                == b.jobs[x].host && c.jobs[x].exclude == b.jobs[x].exclude && c.jobs[x].attempts
                < MAX_ATTEMPTS,
    ensures
        queues_ok(c),
{
    assert forall|h: Seq<char>, i: int, x: u64| #[trigger] queued_at(c, h, i, x) == queued_at(
        b,
        h,
        i,
        x,
    ) by {}
    assert forall|h: Seq<char>| #[trigger] queue_of(c, h) == queue_of(b, h) by {}
    assert forall|x: u64| #[trigger] c.jobs.contains_key(x) implies x < c.next_id by {
        assert(b.jobs.contains_key(x));
    }
    assert forall|h: Seq<char>, i: int, x: u64| #[trigger] queued_at(c, h, i, x) implies x
        < c.next_id && (c.jobs.contains_key(x) ==> c.jobs[x].lease is None && c.jobs[x].host == h
        && c.jobs[x].exclude == queue_of(c, h)[i].1) by {
        assert(queued_at(b, h, i, x));
        if c.jobs.contains_key(x) {
            assert(b.jobs.contains_key(x));
        }
    }
    assert forall|h: Seq<char>, i: int, g: Seq<char>, j: int, x: u64|
        #[trigger] queued_at(c, h, i, x) && #[trigger] queued_at(c, g, j, x) implies h == g && i
        == j by {
        assert(queued_at(b, h, i, x) && queued_at(b, g, j, x));
    }
    assert forall|x: u64| #[trigger] c.jobs.contains_key(x) && c.jobs[x].lease is None implies
        is_queued(c, c.jobs[x].host, x) by {
        assert(b.jobs.contains_key(x));
        assert(is_queued(b, b.jobs[x].host, x));
        let i = choose|i: int| #[trigger] queued_at(b, b.jobs[x].host, i, x);
        assert(queued_at(c, c.jobs[x].host, i, x));
    }
    assert forall|x: u64| #[trigger] c.jobs.contains_key(x) implies (c.jobs[x].lease matches Some(
        (n, _),
    ) ==> c.jobs[x].exclude != Some(n)) by {
        assert(b.jobs.contains_key(x));
    }
}

proof fn lemma_audited(b: BrokerV, id: u64, node: u32, now_ms: u64)
    requires
        queues_ok(b),
        b.next_id < u64::MAX,
    ensures
        queues_ok(audited(b, id, node, now_ms)),
        audited(b, id, node, now_ms).next_id <= b.next_id + 1,
{
    if b.jobs.contains_key(id) && !b.jobs[id].is_twin && b.jobs[id].twin is None {
        let job = b.jobs[id];
        let t = b.next_id;
        assert(id < t);
        let linked = BrokerV {
            jobs: b.jobs.insert(id, JobV { twin: Some(t), ..job }),
            audits: audited(b, id, node, now_ms).audits,
            ..b
        };
        assert(linked.jobs.dom() =~= b.jobs.dom());
        assert forall|x: u64| #[trigger] linked.jobs.contains_key(x) implies linked.jobs[x].lease
            == b.jobs[x].lease && linked.jobs[x].host == b.jobs[x].host && linked.jobs[x].exclude
            == b.jobs[x].exclude && linked.jobs[x].attempts < MAX_ATTEMPTS by {
            assert(b.jobs.contains_key(x));
        }
        lemma_same_holds(b, linked);
        let twin = JobV {
            host: job.host,
            method: job.method,
            path: job.path,
            lease: None,
            attempts: 0,
            exclude: Some(node),
            twin: Some(id),
            is_twin: true,
            created_ms: now_ms,
        };
        lemma_enqueue_new(linked, t, twin);
    }
}

impl Broker {
    /// Gives jobs that a node holds a twin each, which another node is to run.
    pub fn start_audits(&mut self, node_id: u32, ids: &Vec<u64>, now_ms: u64)
        requires
            old(self).wf(),
            old(self)@.next_id + ids@.len() < u64::MAX,
        ensures
            final(self).wf(),
            final(self)@ == audited_all(old(self)@, ids@, node_id, now_ms),
    {
        let ghost b = self@;
        let mut i: usize = 0;
        assert(ids@.take(0) =~= Seq::empty());
        while i < ids.len()
            invariant
                self.wf(),
                i <= ids@.len(),
                b.next_id + ids@.len() < u64::MAX,
                self@.next_id <= b.next_id + i,
                self@ == audited_all(b, ids@.take(i as int), node_id, now_ms),
            decreases ids@.len() - i,
        {
            let id: u64 = ids[i];
            let ghost now = self@;
            proof {
                assert(ids@.take(i + 1).drop_last() =~= ids@.take(i as int));
                lemma_audited(now, id, node_id, now_ms);
            }
            let apt = match self.job(id) {
                Some(job) => !job.is_twin && job.twin.is_none(),
                None => false,
            };
            if apt {
                if let Some(mut job) = self.take_job(id) {
                    let twin_id: u64 = self.next_id;
                    self.next_id = twin_id + 1;
                    job.twin = Some(twin_id);
                    let host = job.host.clone();
                    let twin = JobState {
                        host: job.host.clone(),
                        method: job.method.clone(),
                        path: job.path.clone(),
                        lease: None,
                        attempts: 0,
                        exclude: Some(node_id),
                        twin: Some(id),
                        is_twin: true,
                        created_ms: now_ms,
                    };
                    let pair = AuditPair {
                        method: job.method.clone(),
                        path: job.path.clone(),
                        primary_node: node_id,
                        twin_node: None,
                        primary: None,
                        twin: None,
                    };
                    self.put_job(id, job);
                    self.put_job(twin_id, twin);
                    self.put_audit(twin_id, pair);
                    self.enqueue(host.as_str(), twin_id, Some(node_id));
                    assert(self@ =~= audited(now, id, node_id, now_ms)) by {
                        assert(now.jobs.remove(id).insert(
                            id,
                            JobV { twin: Some(twin_id), ..now.jobs[id] },
                        ) =~= now.jobs.insert(id, JobV { twin: Some(twin_id), ..now.jobs[id] }));
                    }
                }
            }
            i = i + 1;
        }
        assert(ids@.take(i as int) =~= ids@);
    }
}

// ---- the node side: results ----

/// The broker after a job was put back into its queue, if somebody held it.
pub open spec fn released(b: BrokerV, id: u64, attempts: u32) -> BrokerV {
    if !b.jobs.contains_key(id) {
        b
    } else {
        let job = JobV { lease: None, attempts, ..b.jobs[id] };
        let c = BrokerV { jobs: b.jobs.insert(id, job), ..b };
        if b.jobs[id].lease is None {
            c
        } else {
            enqueued(c, job.host, id, job.exclude)
        }
    }
}

/// The broker after a job was given up, and its audit with it.
pub open spec fn abandoned(b: BrokerV, id: u64) -> BrokerV {
    if !b.jobs.contains_key(id) {
        b
    } else {
        let job = b.jobs[id];
        if job.is_twin {
            BrokerV { jobs: b.jobs.remove(id), audits: b.audits.remove(id), ..b }
        } else {
            match job.twin {
                Some(t) => BrokerV {
                    jobs: b.jobs.remove(id).remove(t),
                    audits: b.audits.remove(t),
                    ..b
                },
                None => BrokerV { jobs: b.jobs.remove(id), ..b },
            }
        }
    }
}

/// Why a job was given up, as its fetch is told.
pub open spec fn given_up(why: Seq<char>, path: Seq<char>) -> Seq<char> {
    "job abandoned: "@ + why + " ("@ + path + ")"@
}

/// What the fetch of a job is told when the job is given up; nobody waits for
/// a twin.
pub open spec fn abandon_note(b: BrokerV, id: u64, why: Seq<char>) -> Seq<ResolutionV> {
    if b.jobs.contains_key(id) && !b.jobs[id].is_twin {
        seq![ResolutionV { id, result: Err(given_up(why, b.jobs[id].path)) }]
    } else {
        Seq::empty()
    }
}

/// A job fails once more: it is given up at the last attempt, or put back.
pub open spec fn failed_once(b: BrokerV, id: u64) -> BrokerV {
    if !b.jobs.contains_key(id) {
        b
    } else if b.jobs[id].attempts + 1 >= MAX_ATTEMPTS {
        abandoned(b, id)
    } else {
        released(b, id, (b.jobs[id].attempts + 1) as u32)
    }
}

/// What a fetch is told when its job fails once more.
pub open spec fn failure_note(b: BrokerV, id: u64, why: Seq<char>) -> Seq<ResolutionV> {
    if b.jobs.contains_key(id) && b.jobs[id].attempts + 1 >= MAX_ATTEMPTS {
        abandon_note(b, id, why)
    } else {
        Seq::empty()
    }
}

/// A result of a node for a job counts: the node holds the job, or nobody does.
pub open spec fn accepts(b: BrokerV, node: u32, id: u64) -> bool {
    b.jobs.contains_key(id) && match b.jobs[id].lease {
        Some((n, _)) => n == node,
        None => true,
    }
}

/// The audit that a job takes part in.
pub open spec fn audit_of(id: u64, job: JobV) -> Option<u64> {
    if job.is_twin {
        Some(id)
    } else {
        job.twin
    }
}

/// An audit with one more answer.
pub open spec fn with_answer(
    pair: PairV,
    is_twin: bool,
    node: u32,
    answer: Option<Seq<char>>,
) -> PairV {
    if is_twin {
        PairV { twin_node: Some(node), twin: Some(answer), ..pair }
    } else {
        PairV { primary: Some(answer), ..pair }
    }
}

/// The audit of a job after its answer came, if there is one.
pub open spec fn audit_after(
    b: BrokerV,
    node: u32,
    id: u64,
    answer: Option<Seq<char>>,
) -> Option<PairV> {
    let job = b.jobs[id];
    match audit_of(id, job) {
        Some(a) => if b.audits.contains_key(a) {
            Some(with_answer(b.audits[a], job.is_twin, node, answer))
        } else {
            None
        },
        None => None,
    }
}

/// Both answers of an audit are there.
pub open spec fn is_complete(pair: PairV) -> bool {
    pair.primary is Some && pair.twin is Some
}

/// The broker after a job was answered: the job is gone, and its audit has the
/// answer, or is over.
pub open spec fn answered(b: BrokerV, node: u32, id: u64, answer: Option<Seq<char>>) -> BrokerV {
    let job = b.jobs[id];
    BrokerV {
        jobs: b.jobs.remove(id),
        audits: match audit_after(b, node, id, answer) {
            Some(pair) => if is_complete(pair) {
                b.audits.remove(audit_of(id, job)->0)
            } else {
                b.audits.insert(audit_of(id, job)->0, pair)
            },
            None => b.audits,
        },
        ..b
    }
}

/// Two answers say the same: there is no such thing, or the same document.
pub open spec fn same_answer(a: Option<Seq<char>>, b: Option<Seq<char>>) -> bool {
    match (a, b) {
        (Some(x), Some(y)) => same_document(x, y),
        (None, None) => true,
        _ => false,
    }
}

/// The answers of an endpoint never change.
pub open spec fn is_immutable(method: Seq<char>) -> bool {
    method == IMMUTABLE_METHODS@[0]@ || method == IMMUTABLE_METHODS@[1]@
}

/// How a complete audit ends.
pub open spec fn verdict_on(pair: PairV) -> AuditVerdict {
    if same_answer(pair.primary->0, pair.twin->0) {
        AuditVerdict::Pass
    } else if is_immutable(pair.method) {
        AuditVerdict::HardFail
    } else {
        AuditVerdict::SoftFail
    }
}

/// The registry after a job of a node was answered.
pub open spec fn registry_after(r: RegistryV, node: u32, pair: Option<PairV>) -> RegistryV {
    let done = job_done(r, node);
    match pair {
        Some(pair) => if is_complete(pair) {
            judged_both(
                done,
                pair.primary_node,
                match pair.twin_node {
                    Some(n) => n,
                    None => 0,
                },
                verdict_on(pair),
            )
        } else {
            done
        },
        None => done,
    }
}

/// The answer that a result carries, if it carries one.
pub open spec fn answer_in(res: JobResult) -> Option<Option<Seq<char>>> {
    match res.outcome {
        JobOutcome::Done => Some(
            Some(
                match res.body {
                    Some(body) => body@,
                    None => Seq::empty(),
                },
            ),
        ),
        JobOutcome::NotFound => Some(None),
        _ => None,
    }
}

/// A mismatch that an audit found.
pub struct Mismatch {
    pub method: String,
    pub path: String,
    pub primary_node: u32,
    pub twin_node: u32,
    pub hard: bool,
}

/// What came of a result.
pub struct Completion {
    /// What the fetch is told.
    pub resolved: Option<Resolution>,
    /// A job was put back: waiting nodes are to be woken.
    pub requeued: bool,
    /// A request was completed; and whether it fetched a match.
    pub counted: Option<bool>,
    /// An audit found a mismatch.
    pub mismatch: Option<Mismatch>,
}

proof fn lemma_released(b: BrokerV, id: u64, attempts: u32)
    requires
        queues_ok(b),
        attempts < MAX_ATTEMPTS,
    ensures
        queues_ok(released(b, id, attempts)),
{
    if b.jobs.contains_key(id) {
        let job = JobV { lease: None, attempts, ..b.jobs[id] };
        let c = BrokerV { jobs: b.jobs.insert(id, job), ..b };
        assert(c.jobs.dom() =~= b.jobs.dom());
        if b.jobs[id].lease is None {
            assert forall|x: u64| #[trigger] c.jobs.contains_key(x) implies c.jobs[x].lease
                == b.jobs[x].lease && c.jobs[x].host == b.jobs[x].host && c.jobs[x].exclude
                == b.jobs[x].exclude && c.jobs[x].attempts < MAX_ATTEMPTS by {
                assert(b.jobs.contains_key(x));
            }
            lemma_same_holds(b, c);
        } else {
            assert forall|h: Seq<char>, i: int| !#[trigger] queued_at(b, h, i, id) by {}
            lemma_enqueue(b, c, released(b, id, attempts), job.host, id, job.exclude);
        }
    }
}

impl Broker {
    /// Puts a job back into its queue, if somebody held it.
    fn release(&mut self, id: u64, attempts: u32)
        requires
            old(self).wf(),
            attempts < MAX_ATTEMPTS,
        ensures
            final(self).wf(),
            final(self)@ == released(old(self)@, id, attempts),
    {
        let ghost b = self@;
        proof {
            lemma_released(b, id, attempts);
        }
        if let Some(mut job) = self.take_job(id) {
            let held = job.lease.is_some();
            job.lease = None;
            job.attempts = attempts;
            let host = job.host.clone();
            let exclude = job.exclude;
            let ghost v = job@;
            self.put_job(id, job);
            assert(self@.jobs =~= b.jobs.insert(id, v));
            if held {
                self.enqueue(host.as_str(), id, exclude);
            }
        } else {
            assert(self@.jobs =~= b.jobs);
        }
    }

    /// Gives a job up, and its audit with it.
    fn abandon(&mut self, id: u64, why: &str) -> (res: Option<Resolution>)
        requires
            old(self).wf(),
        ensures
            final(self).wf(),
            final(self)@ == abandoned(old(self)@, id),
            noted(res) == abandon_note(old(self)@, id, why@),
    {
        let ghost b = self@;
        proof {
            lemma_fewer_jobs(b, abandoned(b, id));
        }
        match self.take_job(id) {
            Some(job) => {
                if job.is_twin {
                    let _ = self.take_audit(id);
                    None
                } else {
                    if let Some(twin_id) = job.twin {
                        let _ = self.take_audit(twin_id);
                        let _ = self.take_job(twin_id);
                    }
                    let mut note = "job abandoned: ".to_string();
                    note.append(why);
                    note.append(" (");
                    note.append(job.path.as_str());
                    note.append(")");
                    let res = Some(Resolution { id, result: Err(note) });
                    assert(noted(res) =~= abandon_note(b, id, why@));
                    res
                }
            },
            None => {
                assert(self@.jobs =~= b.jobs);
                None
            },
        }
    }

    /// Counts a failed attempt: the job is given up at the last one.
    fn fail(&mut self, id: u64, why: &str) -> (res: Option<Resolution>)
        requires
            old(self).wf(),
        ensures
            final(self).wf(),
            final(self)@ == failed_once(old(self)@, id),
            noted(res) == failure_note(old(self)@, id, why@),
    {
        let attempts: u32 = match self.job(id) {
            Some(job) => job.attempts,
            None => {
                return None;
            },
        };
        if attempts + 1 >= MAX_ATTEMPTS {
            self.abandon(id, why)
        } else {
            self.release(id, attempts + 1);
            None
        }
    }

    /// Notes the answer to a job in its audit, and ends the audit if it has
    /// both answers.
    fn note_answer(
        &mut self,
        registry: &mut Registry,
        node_id: u32,
        audit: Option<u64>,
        is_twin: bool,
        answer: Answer,
    ) -> (res: Option<Mismatch>)
        requires
            old(self).queues.wf(),
        ensures
            final(self).queues.wf(),
            ({
                let after = match audit {
                    Some(a) => if old(self)@.audits.contains_key(a) {
                        Some(with_answer(old(self)@.audits[a], is_twin, node_id, answer@))
                    } else {
                        None
                    },
                    None => None,
                };
                &&& final(self)@ == (BrokerV {
                    audits: match after {
                        Some(pair) => if is_complete(pair) {
                            old(self)@.audits.remove(audit->0)
                        } else {
                            old(self)@.audits.insert(audit->0, pair)
                        },
                        None => old(self)@.audits,
                    },
                    ..old(self)@
                })
                &&& final(registry)@ == (match after {
                    Some(pair) => if is_complete(pair) {
                        judged_both(
                            old(registry)@,
                            pair.primary_node,
                            match pair.twin_node {
                                Some(n) => n,
                                None => 0,
                            },
                            verdict_on(pair),
                        )
                    } else {
                        old(registry)@
                    },
                    None => old(registry)@,
                })
                &&& is_mismatch(res, after)
            }),
    {
        let ghost b = self@;
        let id: u64 = match audit {
            Some(id) => id,
            None => {
                return None;
            },
        };
        let mut pair = match self.take_audit(id) {
            Some(pair) => pair,
            None => {
                assert(self@.audits =~= b.audits);
                return None;
            },
        };
        if is_twin {
            pair.twin_node = Some(node_id);
            pair.twin = Some(answer);
        } else {
            pair.primary = Some(answer);
        }
        let ghost after = pair@;
        assert(after =~= with_answer(b.audits[id], is_twin, node_id, answer@));
        let equal = match (&pair.primary, &pair.twin) {
            (Some(x), Some(y)) => match (x, y) {
                (Answer::Found(a), Answer::Found(c)) => json_equal(a.as_str(), c.as_str()),
                (Answer::NotFound, Answer::NotFound) => true,
                _ => false,
            },
            _ => {
                self.put_audit(id, pair);
                assert(self@.audits =~= b.audits.insert(id, after));
                return None;
            },
        };
        assert(is_complete(after));
        assert(self@.audits =~= b.audits.remove(id));
        let twin_node: u32 = match pair.twin_node {
            Some(n) => n,
            None => 0,
        };
        let hard = same_text(pair.method.as_str(), IMMUTABLE_METHODS[0]) || same_text(
            pair.method.as_str(),
            IMMUTABLE_METHODS[1],
        );
        let verdict = if equal {
            AuditVerdict::Pass
        } else if hard {
            AuditVerdict::HardFail
        } else {
            AuditVerdict::SoftFail
        };
        assert(verdict == verdict_on(after));
        registry.audit_result(pair.primary_node, twin_node, verdict);
        if equal {
            None
        } else {
            Some(
                Mismatch {
                    method: pair.method,
                    path: pair.path,
                    primary_node: pair.primary_node,
                    twin_node,
                    hard,
                },
            )
        }
    }

    /// Takes in a result of a node. One for an unknown job, or for a job that
    /// another node holds by now, is ignored: the first answer wins.
    pub fn complete(&mut self, registry: &mut Registry, node_id: u32, res: JobResult) -> (out:
        Completion)
        requires
            old(self).wf(),
        ensures
            final(self).wf(),
            is_completion(
                old(self)@,
                old(registry)@,
                node_id,
                res,
                final(self)@,
                final(registry)@,
                out,
            ),
    {
        let ghost b = self@;
        let id: u64 = res.id;
        let (accepted, attempts): (bool, u32) = match self.job(id) {
            Some(job) => (
                match job.lease {
                    Some((n, _)) => n == node_id,
                    None => true,
                },
                job.attempts,
            ),
            None => (false, 0),
        };
        assert(accepted == accepts(b, node_id, id));
        if !accepted {
            return Completion { resolved: None, requeued: false, counted: None, mismatch: None };
        }
        let answer: Answer = match res.outcome {
            JobOutcome::Done => match res.body {
                Some(body) => Answer::Found(body),
                None => {
                    let empty = String::new();
                    assert(empty@ =~= Seq::empty());
                    Answer::Found(empty)
                },
            },
            JobOutcome::NotFound => Answer::NotFound,
            JobOutcome::KeyRejected => {
                registry.set_key_bad(node_id, true);
                self.release(id, attempts);
                return Completion { resolved: None, requeued: true, counted: None, mismatch: None };
            },
            JobOutcome::Failed => {
                let resolved = match &res.error {
                    Some(error) => self.fail(id, error.as_str()),
                    None => self.fail(id, "failed"),
                };
                return Completion {
                    resolved,
                    requeued: attempts + 1 < MAX_ATTEMPTS,
                    counted: None,
                    mismatch: None,
                };
            },
        };
        assert(answer_in(res) == Some(answer@));
        proof {
            lemma_fewer_jobs(b, answered(b, node_id, id, answer@));
        }
        match self.take_job(id) {
            Some(job) => {
                let resolved: Option<Resolution> = if job.is_twin {
                    None
                } else {
                    Some(
                        Resolution {
                            id,
                            result: match &answer {
                                Answer::Found(body) => Ok(Some(body.clone())),
                                Answer::NotFound => Ok(None),
                            },
                        },
                    )
                };
                let found = match &answer {
                    Answer::Found(_) => true,
                    Answer::NotFound => false,
                };
                let is_match = found && same_text(job.method.as_str(), METHOD_MATCH);
                registry.job_completed(node_id);
                let audit = if job.is_twin {
                    Some(id)
                } else {
                    job.twin
                };
                let ghost said = answer@;
                let mismatch = self.note_answer(registry, node_id, audit, job.is_twin, answer);
                proof {
                    assert(self@ =~= answered(b, node_id, id, said));
                    assert(noted(resolved) =~= (if job.is_twin {
                        Seq::<ResolutionV>::empty()
                    } else {
                        seq![ResolutionV { id, result: Ok(said) }]
                    }));
                }
                Completion { resolved, requeued: false, counted: Some(is_match), mismatch }
            },
            None => {
                assert(false);
                Completion { resolved: None, requeued: false, counted: None, mismatch: None }
            },
        }
    }
}

/// What comes of a result of a node: the broker and the registry after it, and
/// what is told to others.
pub open spec fn is_completion(
    b: BrokerV,
    r: RegistryV,
    node_id: u32,
    res: JobResult,
    after: BrokerV,
    registry: RegistryV,
    out: Completion,
) -> bool {
    let id = res.id;
    let job = b.jobs[id];
    if !accepts(b, node_id, id) {
        &&& after == b
        &&& registry == r
        &&& noted(out.resolved) == Seq::<ResolutionV>::empty()
        &&& !out.requeued
        &&& out.counted is None
        &&& out.mismatch is None
    } else {
        match answer_in(res) {
            Some(answer) => {
                let pair = audit_after(b, node_id, id, answer);
                &&& after == answered(b, node_id, id, answer)
                &&& registry == registry_after(r, node_id, pair)
                &&& noted(out.resolved) == (if job.is_twin {
                    Seq::<ResolutionV>::empty()
                } else {
                    seq![ResolutionV { id, result: Ok(answer) }]
                })
                &&& !out.requeued
                &&& out.counted == Some(answer is Some && job.method == METHOD_MATCH@)
                &&& is_mismatch(out.mismatch, pair)
            },
            None => {
                let why = match res.error {
                    Some(error) => error@,
                    None => "failed"@,
                };
                &&& if res.outcome == JobOutcome::KeyRejected {
                    &&& after == released(b, id, job.attempts)
                    &&& registry == with_node(
                        r,
                        node_id,
                        NodeV { key_bad: true, ..r.nodes[node_id] },
                    )
                    &&& noted(out.resolved) == Seq::<ResolutionV>::empty()
                    &&& out.requeued
                } else {
                    &&& after == failed_once(b, id)
                    &&& registry == r
                    &&& noted(out.resolved) == failure_note(b, id, why)
                    &&& out.requeued == (job.attempts + 1 < MAX_ATTEMPTS)
                }
                &&& out.counted is None
                &&& out.mismatch is None
            },
        }
    }
}

/// What fetches are told, as a list of none or one.
pub open spec fn noted(r: Option<Resolution>) -> Seq<ResolutionV> {
    match r {
        Some(r) => seq![r@],
        None => Seq::empty(),
    }
}

/// A mismatch is told of exactly if an audit ended without a pass.
pub open spec fn is_mismatch(m: Option<Mismatch>, pair: Option<PairV>) -> bool {
    match pair {
        Some(pair) => if is_complete(pair) && verdict_on(pair) != AuditVerdict::Pass {
            match m {
                Some(m) => {
                    &&& m.method@ == pair.method
                    &&& m.path@ == pair.path
                    &&& m.primary_node == pair.primary_node
                    &&& m.twin_node == match pair.twin_node {
                        Some(n) => n,
                        None => 0,
                    }
                    &&& m.hard == (verdict_on(pair) == AuditVerdict::HardFail)
                },
                None => false,
            }
        } else {
            m is None
        },
        None => m is None,
    }
}

// ---- upkeep ----

/// A job whose lease is over.
pub open spec fn is_expired(job: JobV, now_ms: u64) -> bool {
    job.lease matches Some((_, until)) && until <= now_ms
}

/// A twin that nobody took for too long.
pub open spec fn is_stale(job: JobV, now_ms: u64) -> bool {
    job.is_twin && job.lease is None && now_ms > job.created_ms && now_ms - job.created_ms
        > TWIN_TTL_MS
}

/// The ids of the jobs whose lease is over, each once, in some order.
pub open spec fn lists_expired(b: BrokerV, now_ms: u64, ids: Seq<u64>) -> bool {
    &&& ids.no_duplicates()
    &&& forall|id: u64| #[trigger]
        ids.contains(id) <==> b.jobs.contains_key(id) && is_expired(b.jobs[id], now_ms)
}

/// The broker after the leases of jobs ended, one after the other.
pub open spec fn expired_all(b: BrokerV, ids: Seq<u64>) -> BrokerV
    decreases ids.len(),
{
    if ids.len() == 0 {
        b
    } else {
        failed_once(expired_all(b, ids.drop_last()), ids.last())
    }
}

/// What fetches are told when the leases of jobs end.
pub open spec fn expiry_notes(b: BrokerV, ids: Seq<u64>) -> Seq<ResolutionV>
    decreases ids.len(),
{
    if ids.len() == 0 {
        Seq::empty()
    } else {
        expiry_notes(b, ids.drop_last()) + failure_note(
            expired_all(b, ids.drop_last()),
            ids.last(),
            "lease expired too many times"@,
        )
    }
}

/// The broker without the twins that nobody took, and their audits.
pub open spec fn without_stale(b: BrokerV, now_ms: u64) -> BrokerV {
    let stale = Set::new(
        |id: u64| b.jobs.contains_key(id) && is_stale(b.jobs[id], now_ms),
    );
    BrokerV { jobs: b.jobs.remove_keys(stale), audits: b.audits.remove_keys(stale), ..b }
}

/// Every lease that is over ended, in some order, and every twin that nobody
/// took in time is gone.
pub open spec fn is_sweep(b: BrokerV, now_ms: u64, after: BrokerV, res: Swept) -> bool {
    exists|ids: Seq<u64>| #[trigger]
        lists_expired(b, now_ms, ids) && {
            &&& after == without_stale(expired_all(b, ids), now_ms)
            &&& notes(res.resolved@) == expiry_notes(b, ids)
            &&& res.woke == (ids.len() > 0)
        }
}

/// The broker after it was shut down.
pub open spec fn shut(b: BrokerV) -> BrokerV {
    BrokerV {
        next_id: b.next_id,
        jobs: Map::empty(),
        queues: Map::empty(),
        audits: Map::empty(),
        closed: true,
    }
}

/// How many jobs wait, and how many are held by nodes.
pub open spec fn depths(b: BrokerV) -> (int, int) {
    let held = b.jobs.dom().filter(|id: u64| b.jobs[id].lease is Some).len();
    (b.jobs.dom().len() - held, held as int)
}

/// What the resolutions say.
pub open spec fn notes(list: Seq<Resolution>) -> Seq<ResolutionV> {
    list.map_values(|r: Resolution| r@)
}

/// What a sweep did: what fetches are told, and whether any lease was over.
pub struct Swept {
    pub resolved: Vec<Resolution>,
    pub woke: bool,
}

/// The jobs that fetches wait for, each once, in some order.
pub open spec fn lists_waiting(b: BrokerV, ids: Seq<u64>) -> bool {
    &&& ids.no_duplicates()
    &&& forall|id: u64| #[trigger]
        ids.contains(id) <==> b.jobs.contains_key(id) && !b.jobs[id].is_twin
}

proof fn lemma_failed_once(b: BrokerV, id: u64)
    requires
        queues_ok(b),
    ensures
        queues_ok(failed_once(b, id)),
{
    if b.jobs.contains_key(id) {
        if b.jobs[id].attempts + 1 >= MAX_ATTEMPTS {
            lemma_fewer_jobs(b, abandoned(b, id));
        } else {
            lemma_released(b, id, (b.jobs[id].attempts + 1) as u32);
        }
    }
}

impl Broker {
    fn ids(&self) -> (res: Vec<u64>)
        ensures
            res@.to_set() == self@.jobs.dom(),
            res@.no_duplicates(),
    {
        let mut out: Vec<u64> = Vec::new();
        let it = self.jobs.keys();
        let ghost all = it.remaining();
        for k in iter: it
            invariant
                iter.seq() == all,
                out@ == all.unref().take(iter.index()),
        {
            assert(all.unref().take(iter.index() + 1) =~= all.unref().take(iter.index()).push(*k));
            out.push(*k);
        }
        assert(all.unref().take(all.len() as int) =~= all.unref());
        assert(self@.jobs.dom() =~= self.jobs@.dom());
        out
    }

    fn expired(&self, now_ms: u64) -> (res: Vec<u64>)
        ensures
            lists_expired(self@, now_ms, res@),
    {
        let ids = self.ids();
        let mut out: Vec<u64> = Vec::new();
        let mut i: usize = 0;
        while i < ids.len()
            invariant
                i <= ids@.len(),
                ids@.to_set() == self@.jobs.dom(),
                ids@.no_duplicates(),
                out@.no_duplicates(),
                forall|id: u64| #[trigger]
                    out@.contains(id) <==> ids@.take(i as int).contains(id) && is_expired(
                        self@.jobs[id],
                        now_ms,
                    ),
            decreases ids@.len() - i,
        {
            let id: u64 = ids[i];
            let ghost was = out@;
            proof {
                assert(ids@.to_set().contains(id));
                lemma_next(ids@, i as int);
            }
            if let Some(job) = self.job(id) {
                let over = match job.lease {
                    Some((_, until)) => until <= now_ms,
                    None => false,
                };
                if over {
                    out.push(id);
                    proof {
                        lemma_pushed(was, id);
                    }
                }
            }
            i = i + 1;
        }
        proof {
            assert(ids@.take(i as int) =~= ids@);
            assert forall|id: u64| #[trigger] out@.contains(id) <==> self@.jobs.contains_key(id)
                && is_expired(self@.jobs[id], now_ms) by {
                assert(ids@.contains(id) <==> ids@.to_set().contains(id));
            }
        }
        out
    }

    /// Upkeep: jobs whose lease is over are put back, or given up after too
    /// many attempts, and twins that nobody took are dropped.
    pub fn sweep(&mut self, now_ms: u64) -> (res: Swept)
        requires
            old(self).wf(),
        ensures
            final(self).wf(),
            is_sweep(old(self)@, now_ms, final(self)@, res),
    {
        let ghost b = self@;
        let over = self.expired(now_ms);
        let mut resolved: Vec<Resolution> = Vec::new();
        let mut i: usize = 0;
        assert(over@.take(0) =~= Seq::empty());
        assert(notes(resolved@) =~= Seq::empty());
        while i < over.len()
            invariant
                self.wf(),
                i <= over@.len(),
                self@ == expired_all(b, over@.take(i as int)),
                notes(resolved@) == expiry_notes(b, over@.take(i as int)),
            decreases over@.len() - i,
        {
            let ghost was = resolved@;
            assert(over@.take(i + 1).drop_last() =~= over@.take(i as int));
            match self.fail(over[i], "lease expired too many times") {
                Some(r) => {
                    resolved.push(r);
                    assert(notes(resolved@) =~= notes(was) + seq![r@]);
                },
                None => {
                    assert(notes(was) + Seq::<ResolutionV>::empty() =~= notes(was));
                },
            }
            i = i + 1;
        }
        assert(over@.take(i as int) =~= over@);
        self.drop_stale(now_ms);
        assert(lists_expired(b, now_ms, over@));
        Swept { resolved, woke: over.len() > 0 }
    }

    fn drop_stale(&mut self, now_ms: u64)
        requires
            old(self).wf(),
        ensures
            final(self).wf(),
            final(self)@ == without_stale(old(self)@, now_ms),
    {
        let ghost b = self@;
        let ids = self.ids();
        let ghost stale = Set::new(
            |id: u64| b.jobs.contains_key(id) && is_stale(b.jobs[id], now_ms),
        );
        let mut i: usize = 0;
        proof {
            assert(b.jobs.remove_keys(stale_among(b, now_ms, ids@.take(0))) =~= b.jobs);
            assert(b.audits.remove_keys(stale_among(b, now_ms, ids@.take(0))) =~= b.audits);
        }
        while i < ids.len()
            invariant
                self.wf(),
                queues_ok(b),
                i <= ids@.len(),
                ids@.to_set() == b.jobs.dom(),
                ids@.no_duplicates(),
                self@ == (BrokerV {
                    jobs: b.jobs.remove_keys(stale_among(b, now_ms, ids@.take(i as int))),
                    audits: b.audits.remove_keys(stale_among(b, now_ms, ids@.take(i as int))),
                    ..b
                }),
            decreases ids@.len() - i,
        {
            let id: u64 = ids[i];
            let ghost was = self@;
            proof {
                assert(ids@.to_set().contains(id));
                lemma_next(ids@, i as int);
                let sub = ids@.take(i as int);
                assert(!sub.contains(id)) by {
                    if sub.contains(id) {
                        let k = choose|k: int| 0 <= k < sub.len() && sub[k] == id;
                        assert(ids@[k] == ids@[i as int]);
                    }
                }
                assert(self@.jobs.contains_key(id));
                assert(self@.jobs[id] == b.jobs[id]);
            }
            let gone = match self.job(id) {
                Some(job) => job.is_twin && job.lease.is_none() && now_ms.saturating_sub(
                    job.created_ms,
                ) > TWIN_TTL_MS,
                None => false,
            };
            assert(gone == is_stale(b.jobs[id], now_ms));
            if gone {
                let _ = self.take_job(id);
                let _ = self.take_audit(id);
            }
            proof {
                let now = stale_among(b, now_ms, ids@.take(i + 1));
                assert(self@.jobs =~= b.jobs.remove_keys(now));
                assert(self@.audits =~= b.audits.remove_keys(now));
                lemma_fewer_jobs(was, self@);
            }
            i = i + 1;
        }
        proof {
            assert(ids@.take(i as int) =~= ids@);
            assert(stale_among(b, now_ms, ids@) =~= stale) by {
                assert forall|id: u64| stale_among(b, now_ms, ids@).contains(id)
                    == stale.contains(id) by {
                    assert(ids@.contains(id) <==> ids@.to_set().contains(id));
                }
            }
        }
    }

    /// Shuts the broker down: it takes no more fetches, and gives the ids of
    /// those that wait. They are to be told that the server is shutting down.
    pub fn shutdown(&mut self) -> (res: Vec<u64>)
        requires
            old(self).wf(),
        ensures
            final(self).wf(),
            final(self)@ == shut(old(self)@),
            lists_waiting(old(self)@, res@),
    {
        let ghost b = self@;
        let ids = self.ids();
        let mut out: Vec<u64> = Vec::new();
        let mut i: usize = 0;
        while i < ids.len()
            invariant
                self@ == b,
                i <= ids@.len(),
                ids@.to_set() == b.jobs.dom(),
                ids@.no_duplicates(),
                out@.no_duplicates(),
                forall|id: u64| #[trigger]
                    out@.contains(id) <==> ids@.take(i as int).contains(id) && !b.jobs[id].is_twin,
            decreases ids@.len() - i,
        {
            let id: u64 = ids[i];
            let ghost was = out@;
            proof {
                assert(ids@.to_set().contains(id));
                lemma_next(ids@, i as int);
            }
            if let Some(job) = self.job(id) {
                if !job.is_twin {
                    out.push(id);
                    proof {
                        lemma_pushed(was, id);
                    }
                }
            }
            i = i + 1;
        }
        proof {
            assert(ids@.take(i as int) =~= ids@);
            assert forall|id: u64| #[trigger] out@.contains(id) <==> b.jobs.contains_key(id)
                && !b.jobs[id].is_twin by {
                assert(ids@.contains(id) <==> ids@.to_set().contains(id));
            }
        }
        self.closed = true;
        self.jobs = BTreeMap::new();
        self.queues = Named::new();
        self.audits = BTreeMap::new();
        assert(self@ =~= BrokerV {
            next_id: b.next_id,
            jobs: Map::empty(),
            queues: Map::empty(),
            audits: Map::empty(),
            closed: true,
        });
        out
    }

    /// How many jobs nobody holds, and how many are held.
    pub fn depth(&self) -> (res: (usize, usize))
        requires
            self.wf(),
        ensures
            res.0 == depths(self@).0 && res.1 == depths(self@).1,
    {
        let ids = self.ids();
        let ghost f = |id: u64| self@.jobs[id].lease is Some;
        let mut n: usize = 0;
        let mut i: usize = 0;
        proof {
            assert(ids@.take(0).to_set().filter(f) =~= Set::empty());
        }
        while i < ids.len()
            invariant
                i <= ids@.len(),
                ids@.to_set() == self@.jobs.dom(),
                ids@.no_duplicates(),
                f == (|id: u64| self@.jobs[id].lease is Some),
                n <= i,
                n == ids@.take(i as int).to_set().filter(f).len(),
            decreases ids@.len() - i,
        {
            let id: u64 = ids[i];
            proof {
                lemma_count(ids@, f, i as int);
                assert(ids@.to_set().contains(id));
            }
            if let Some(job) = self.job(id) {
                if job.lease.is_some() {
                    n = n + 1;
                }
            }
            i = i + 1;
        }
        proof {
            assert(ids@.take(i as int) =~= ids@);
            assert(self@.jobs.dom().filter(f) =~= ids@.to_set().filter(f));
            assert(self@.jobs.dom() =~= self.jobs@.dom());
            ids@.unique_seq_to_set();
        }
        (ids.len() - n, n)
    }
}

/// Those of the ids that are of stale twins.
spec fn stale_among(b: BrokerV, now_ms: u64, ids: Seq<u64>) -> Set<u64> {
    Set::new(|id: u64| ids.contains(id) && is_stale(b.jobs[id], now_ms))
}

proof fn lemma_next(keys: Seq<u64>, k: int)
    requires
        0 <= k < keys.len(),
        keys.no_duplicates(),
    ensures
        forall|n: u64| #[trigger]
            keys.take(k + 1).contains(n) <==> keys.take(k).contains(n) || n == keys[k],
        !keys.take(k).contains(keys[k]),
{
    let now = keys.take(k + 1);
    let was = keys.take(k);
    assert forall|n: u64| #[trigger] now.contains(n) <==> was.contains(n) || n == keys[k] by {
        if now.contains(n) {
            let i = choose|i: int| 0 <= i < now.len() && now[i] == n;
            if i < k {
                assert(was[i] == n);
            }
        }
        if was.contains(n) {
            let i = choose|i: int| 0 <= i < was.len() && was[i] == n;
            assert(now[i] == n);
        }
        if n == keys[k] {
            assert(now[k] == n);
        }
    }
    if was.contains(keys[k]) {
        let i = choose|i: int| 0 <= i < was.len() && was[i] == keys[k];
        assert(keys[i] == keys[k]);
    }
}

proof fn lemma_pushed(s: Seq<u64>, x: u64)
    requires
        s.no_duplicates(),
        !s.contains(x),
    ensures
        s.push(x).no_duplicates(),
        forall|n: u64| #[trigger] s.push(x).contains(n) <==> s.contains(n) || n == x,
{
    let t = s.push(x);
    assert forall|n: u64| #[trigger] t.contains(n) <==> s.contains(n) || n == x by {
        if t.contains(n) {
            let i = choose|i: int| 0 <= i < t.len() && t[i] == n;
            if i < s.len() {
                assert(s[i] == n);
            }
        }
        if s.contains(n) {
            let i = choose|i: int| 0 <= i < s.len() && s[i] == n;
            assert(t[i] == n);
        }
        if n == x {
            assert(t[s.len() as int] == n);
        }
    }
    assert forall|i: int, j: int| 0 <= i < t.len() && 0 <= j < t.len() && i != j implies t[i]
        != t[j] by {
        if i == s.len() {
            assert(s.contains(t[j]));
        } else if j == s.len() {
            assert(s.contains(t[i]));
        }
    }
}

// ---- laws ----

/// The first answer wins: once a job was answered, nothing that comes for it
/// is taken in.
pub proof fn law_first_answer_wins(
    b: BrokerV,
    first: u32,
    id: u64,
    answer: Option<Seq<char>>,
    later: u32,
)
    requires
        accepts(b, first, id),
    ensures
        !accepts(answered(b, first, id, answer), later, id),
{
}

/// A node that lost a job to another one is not heard on it.
pub proof fn law_stale_holder_is_ignored(b: BrokerV, id: u64, old_node: u32, new_node: u32, until: u64)
    requires
        b.jobs.contains_key(id),
        old_node != new_node,
    ensures
        !accepts(leased(b, id, new_node, until), old_node, id),
        accepts(leased(b, id, new_node, until), new_node, id),
{
}

/// A job whose lease is over can be taken by another node: it is in its
/// host's queue again, unless it used up its attempts.
pub proof fn law_expired_job_is_queued_again(b: BrokerV, id: u64)
    requires
        queues_ok(b),
        b.jobs.contains_key(id),
        b.jobs[id].attempts + 1 < MAX_ATTEMPTS,
    ensures
        ({
            let c = failed_once(b, id);
            &&& c.jobs.contains_key(id)
            &&& c.jobs[id].lease is None
            &&& is_queued(c, c.jobs[id].host, id)
            &&& c.jobs[id] == (JobV {
                lease: None,
                attempts: (b.jobs[id].attempts + 1) as u32,
                ..b.jobs[id]
            })
        }),
{
    lemma_failed_once(b, id);
    let c = failed_once(b, id);
    assert(c.jobs.contains_key(id));
}

/// A twin never goes to the node that runs the job that it checks.
pub proof fn law_twin_goes_elsewhere(b: BrokerV, id: u64, node: u32, now_ms: u64, cap: int)
    requires
        queues_ok(b),
        b.next_id < u64::MAX,
        b.jobs.contains_key(id),
        !b.jobs[id].is_twin,
        b.jobs[id].twin is None,
    ensures
        ({
            let c = audited(b, id, node, now_ms);
            let t = b.next_id;
            &&& c.jobs.contains_key(t)
            &&& c.jobs[t].is_twin
            &&& c.jobs[t].exclude == Some(node)
            &&& c.jobs[t].path == b.jobs[id].path
            &&& c.jobs[id].twin == Some(t)
            &&& !picks(queue_of(c, b.jobs[id].host), node, cap).contains(t)
        }),
{
    let c = audited(b, id, node, now_ms);
    let t = b.next_id;
    let host = b.jobs[id].host;
    lemma_audited(b, id, node, now_ms);
    assert(id < t);
    let q = queue_of(c, host);
    assert(once_each(q)) by {
        assert forall|i: int, j: int| 0 <= i < j < q.len() implies (#[trigger] q[i]).0 != (
        #[trigger] q[j]).0 by {
            if q[i].0 == q[j].0 {
                assert(queued_at(c, host, i, q[i].0) && queued_at(c, host, j, q[i].0));
            }
        }
    }
    lemma_picks(q, node, cap);
    let p = picks(q, node, cap);
    if p.contains(t) {
        let y = choose|y: int| 0 <= y < p.len() && p[y] == t;
        let z = choose|z: int| 0 <= z < q.len() && (#[trigger] q[z]).0 == p[y] && q[z].1
            != Some(node);
        assert(queued_at(c, host, z, t));
        assert(c.jobs[t].exclude == q[z].1);
    }
}

/// A node is handed no more jobs of a host than it may still hold.
pub proof fn law_no_more_than_target(q: Seq<(u64, Option<u32>)>, node: u32, cap: int)
    ensures
        picks(q, node, cap).len() <= (if cap > 0 {
            cap
        } else {
            0
        }),
        picks(q, node, cap).len() + leaves(q, node, cap).len() == q.len(),
    decreases q.len(),
{
    if q.len() > 0 && cap > 0 {
        if q[0].1 == Some(node) {
            law_no_more_than_target(q.skip(1), node, cap);
        } else {
            law_no_more_than_target(q.skip(1), node, cap - 1);
        }
    }
}

} // verus!
