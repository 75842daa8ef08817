//! What nodes' results lead to: what a fetch is told, what is counted, and how
//! audits end.

use crate::broker::{
    auditable, audited, audited_all, depths, expired_all, expiry_notes, failed_once, failure_note,
    fetching, handed, is_completion, is_expired, is_handout, is_job, is_stale, is_sweep,
    law_no_more_than_target, leased_all, leaves, lists_expired, lists_waiting, notes, picks,
    queue_of, room_for, shut, still_there, taken, without_stale, BrokerV, Completion, Handed, JobV,
    Resolution, ResolutionV, Swept,
};
use crate::json::{json_text, values_equal};
use crate::proto::{Job, JobOutcome, JobResult};
use crate::registry::{is_active, reports, NodeReport, NodeV, RegistryV};
use vstd::prelude::*;

verus! {

/// The answer that a node sends with an outcome: a body, or that there is
/// nothing.
pub open spec fn sent_answer(res: JobResult) -> Option<Seq<char>> {
    if res.outcome == JobOutcome::NotFound {
        None
    } else if res.body is Some {
        Some(res.body->0@)
    } else {
        Some(Seq::empty())
    }
}

/// Two answers agree: neither found anything, or both bodies are the same
/// document; bodies that are no documents must be the same text.
pub open spec fn agree(x: Option<Seq<char>>, y: Option<Seq<char>>) -> bool {
    if x is None || y is None {
        x is None && y is None
    } else if json_text(x->0) is Some && json_text(y->0) is Some {
        values_equal(json_text(x->0)->0, json_text(y->0)->0)
    } else {
        x->0 == y->0
    }
}

/// A node is heard on a job: the job is there, and no other node holds it.
pub open spec fn is_heard(b: BrokerV, node: u32, id: u64) -> bool {
    b.jobs.contains_key(id) && (b.jobs[id].lease is None || (b.jobs[id].lease->0).0 == node)
}

/// The result is the second answer of an audit, and `first` is the other one.
pub open spec fn ends_audit(b: BrokerV, id: u64, audit: u64, first: Option<Seq<char>>) -> bool {
    &&& b.audits.contains_key(audit)
    &&& if b.jobs[id].is_twin {
        audit == id && b.audits[audit].primary == Some(first)
    } else {
        b.jobs[id].twin == Some(audit) && b.audits[audit].twin == Some(first)
            && b.audits[audit].twin_node is Some
    }
}

/// The node that ran the twin of an audit, once this result is in.
pub open spec fn twin_runner(b: BrokerV, node: u32, id: u64, audit: u64) -> u32 {
    if b.jobs[id].is_twin {
        node
    } else {
        b.audits[audit].twin_node->0
    }
}

/// A count is raised by one if something holds, and stays otherwise.
pub open spec fn raised_if(before: u64, after: u64, holds: bool) -> bool {
    after == before + (if holds {
        1int
    } else {
        0int
    })
}

/// How an audit ends shows in the counts of both nodes, and of no other: it
/// passes exactly if the answers agree. If they do not, it fails hard on
/// matches and timelines, which never change, and softly on all else, and the
/// mismatch is told of with both nodes' names.
pub proof fn law_audits_compare_the_answers(
    b: BrokerV,
    r: RegistryV,
    node: u32,
    res: JobResult,
    after: BrokerV,
    registry: RegistryV,
    out: Completion,
    audit: u64,
    first: Option<Seq<char>>,
    n: u32,
)
    requires
        is_completion(b, r, node, res, after, registry, out),
        is_heard(b, node, res.id),
        res.outcome == JobOutcome::Done || res.outcome == JobOutcome::NotFound,
        ends_audit(b, res.id, audit, first),
        b.audits[audit].primary_node != twin_runner(b, node, res.id, audit),
        r.nodes.contains_key(n),
        r.nodes[n].audits_pass < u64::MAX,
        r.nodes[n].audits_hard_fail < u64::MAX,
        r.nodes[n].audits_soft_fail < u64::MAX,
    ensures
        ({
            let pair = b.audits[audit];
            let twin = twin_runner(b, node, res.id, audit);
            let mine = sent_answer(res);
            let same = if b.jobs[res.id].is_twin {
                agree(first, mine)
            } else {
                agree(mine, first)
            };
            let fixed = pair.method == "match-v5.match"@ || pair.method == "match-v5.timeline"@;
            let ran = n == pair.primary_node || n == twin;
            &&& registry.nodes.contains_key(n)
            &&& raised_if(r.nodes[n].audits_pass, registry.nodes[n].audits_pass, ran && same)
            &&& raised_if(
                r.nodes[n].audits_hard_fail,
                registry.nodes[n].audits_hard_fail,
                ran && !same && fixed,
            )
            &&& raised_if(
                r.nodes[n].audits_soft_fail,
                registry.nodes[n].audits_soft_fail,
                ran && !same && !fixed,
            )
            &&& out.mismatch is Some <==> !same
            &&& out.mismatch matches Some(m) ==> m.hard == fixed && m.method@ == pair.method
                && m.path@ == pair.path && m.primary_node == pair.primary_node && m.twin_node
                == twin
            &&& !after.audits.contains_key(audit)
        }),
{
}

/// One body against nothing found is never an agreement, and nothing found on
/// both sides always is.
pub proof fn law_nothing_agrees_with_nothing_only(x: Option<Seq<char>>, y: Option<Seq<char>>)
    ensures
        x is None && y is None ==> agree(x, y),
        (x is None) != (y is None) ==> !agree(x, y),
{
}

/// While an audit has one answer only, or there is none, no audit is counted
/// for anybody and no mismatch is told of.
pub proof fn law_half_an_audit_counts_nothing(
    b: BrokerV,
    r: RegistryV,
    node: u32,
    res: JobResult,
    after: BrokerV,
    registry: RegistryV,
    out: Completion,
    n: u32,
)
    requires
        is_completion(b, r, node, res, after, registry, out),
        b.jobs.contains_key(res.id),
        ({
            let job = b.jobs[res.id];
            if job.is_twin {
                !b.audits.contains_key(res.id) || b.audits[res.id].primary is None
            } else {
                job.twin is None || !b.audits.contains_key(job.twin->0)
                    || b.audits[job.twin->0].twin is None
            }
        }),
        r.nodes.contains_key(n),
    ensures
        registry.nodes.contains_key(n),
        registry.nodes[n].audits_pass == r.nodes[n].audits_pass,
        registry.nodes[n].audits_hard_fail == r.nodes[n].audits_hard_fail,
        registry.nodes[n].audits_soft_fail == r.nodes[n].audits_soft_fail,
        out.mismatch is None,
{
}

/// What a fetch is told, as it comes: who, and the answer or the reason.
pub open spec fn tells(out: Option<Resolution>, id: u64, result: Result<Option<Seq<char>>, Seq<char>>) -> bool {
    match out {
        Some(r) => r.id == id && r@.result == result,
        None => false,
    }
}

/// An answer ends its job: the fetch is told what the node sent, and nothing
/// else; nobody waits for a twin. The node gets the request counted, and as a
/// match only if it is the body of one.
pub proof fn law_answers_reach_the_fetch(
    b: BrokerV,
    r: RegistryV,
    node: u32,
    res: JobResult,
    after: BrokerV,
    registry: RegistryV,
    out: Completion,
)
    requires
        is_completion(b, r, node, res, after, registry, out),
        is_heard(b, node, res.id),
        res.outcome == JobOutcome::Done || res.outcome == JobOutcome::NotFound,
    ensures
        !after.jobs.contains_key(res.id),
        forall|x: u64| x != res.id ==> (#[trigger] after.jobs.contains_key(x)
            <==> b.jobs.contains_key(x)),
        forall|x: u64| x != res.id && #[trigger] b.jobs.contains_key(x) ==> after.jobs[x]
            == b.jobs[x],
        !out.requeued,
        b.jobs[res.id].is_twin ==> out.resolved is None,
        !b.jobs[res.id].is_twin ==> tells(out.resolved, res.id, Ok(sent_answer(res))),
        out.counted == Some(
            res.outcome == JobOutcome::Done && b.jobs[res.id].method == "match-v5.match"@,
        ),
        r.nodes.contains_key(node) ==> registry.nodes.contains_key(node)
            && !registry.nodes[node].key_bad,
        r.nodes.contains_key(node) && r.nodes[node].completed < u64::MAX ==> registry.nodes[node].completed
            == r.nodes[node].completed + 1,
        forall|n: u32| n != node && #[trigger] r.nodes.contains_key(n) ==> registry.nodes[n].completed
            == r.nodes[n].completed && registry.nodes[n].key_bad == r.nodes[n].key_bad,
        registry.tokens == r.tokens,
{
    if out.resolved is Some && !b.jobs[res.id].is_twin {
        let want = seq![ResolutionV { id: res.id, result: Ok(sent_answer(res)) }];
        assert(seq![out.resolved->0@][0] == want[0]);
    }
    if out.resolved is Some {
        assert(seq![out.resolved->0@].len() == 1);
    }
    if out.resolved is None && !b.jobs[res.id].is_twin {
        assert(Seq::<ResolutionV>::empty().len() == 0);
    }
}

/// A result that nobody waits for changes nothing: the job is gone, or another
/// node holds it by now.
pub proof fn law_late_results_change_nothing(
    b: BrokerV,
    r: RegistryV,
    node: u32,
    res: JobResult,
    after: BrokerV,
    registry: RegistryV,
    out: Completion,
)
    requires
        is_completion(b, r, node, res, after, registry, out),
        !is_heard(b, node, res.id),
    ensures
        after == b,
        registry == r,
        out.resolved is None,
        out.counted is None,
        out.mismatch is None,
        !out.requeued,
{
    if out.resolved is Some {
        assert(seq![out.resolved->0@].len() == 1);
    }
}

/// A failed job goes back to its queue, as it was but for one attempt more,
/// five times; the sixth failure is the last, and the fetch is told why.
pub proof fn law_failed_jobs_are_tried_six_times(
    b: BrokerV,
    r: RegistryV,
    node: u32,
    res: JobResult,
    after: BrokerV,
    registry: RegistryV,
    out: Completion,
)
    requires
        is_completion(b, r, node, res, after, registry, out),
        is_heard(b, node, res.id),
        res.outcome == JobOutcome::Failed,
    ensures
        registry == r,
        out.counted is None,
        out.mismatch is None,
        ({
            let job = b.jobs[res.id];
            let why = if res.error is Some {
                res.error->0@
            } else {
                "failed"@
            };
            if job.attempts < 5 {
                &&& out.requeued
                &&& out.resolved is None
                &&& after.jobs.contains_key(res.id)
                &&& after.jobs[res.id] == (JobV {
                    lease: None,
                    attempts: (job.attempts + 1) as u32,
                    ..job
                })
                &&& after.audits == b.audits
            } else {
                &&& !out.requeued
                &&& !after.jobs.contains_key(res.id)
                &&& job.is_twin ==> out.resolved is None
                &&& !job.is_twin ==> tells(
                    out.resolved,
                    res.id,
                    Err("job abandoned: "@ + why + " ("@ + job.path + ")"@),
                )
            }
        }),
{
    if out.resolved is Some {
        assert(seq![out.resolved->0@].len() == 1);
        assert(seq![out.resolved->0@][0] == out.resolved->0@);
    }
    if out.resolved is None {
        assert(Seq::<ResolutionV>::empty().len() == 0);
    }
}

/// A refused key is the node's fault: its job goes back without an attempt
/// counted, and the node is marked.
pub proof fn law_refused_keys_cost_no_attempt(
    b: BrokerV,
    r: RegistryV,
    node: u32,
    res: JobResult,
    after: BrokerV,
    registry: RegistryV,
    out: Completion,
)
    requires
        is_completion(b, r, node, res, after, registry, out),
        is_heard(b, node, res.id),
        res.outcome == JobOutcome::KeyRejected,
    ensures
        out.resolved is None,
        out.requeued,
        out.counted is None,
        out.mismatch is None,
        after.jobs.contains_key(res.id),
        after.jobs[res.id] == (JobV { lease: None, ..b.jobs[res.id] }),
        after.audits == b.audits,
        r.nodes.contains_key(node) ==> registry.nodes.contains_key(node)
            && registry.nodes[node].key_bad && registry.nodes[node].completed
            == r.nodes[node].completed,
        forall|n: u32| n != node && #[trigger] r.nodes.contains_key(n) ==> registry.nodes[n]
            == r.nodes[n],
{
    if out.resolved is Some {
        assert(seq![out.resolved->0@].len() == 1);
    }
}

// ---- jobs ----

/// A fetch becomes a job of its own, which anybody may run: it is the last in
/// the queue of its host, and asks for what was asked for.
pub proof fn law_fetches_are_queued_last(
    b: BrokerV,
    host: Seq<char>,
    method: Seq<char>,
    path: Seq<char>,
    now_ms: u64,
)
    requires
        b.next_id < u64::MAX,
    ensures
        ({
            let c = fetching(b, host, method, path, now_ms);
            let id = b.next_id;
            &&& c.next_id == id + 1
            &&& c.jobs == b.jobs.insert(id, c.jobs[id])
            &&& c.jobs[id].host == host && c.jobs[id].method == method && c.jobs[id].path == path
            &&& c.jobs[id].lease is None && c.jobs[id].attempts == 0
            &&& c.jobs[id].exclude is None && c.jobs[id].twin is None && !c.jobs[id].is_twin
            &&& c.jobs[id].created_ms == now_ms
            &&& c.queues[host] == (if b.queues.contains_key(host) {
                b.queues[host]
            } else {
                Seq::empty()
            }).push((id, None))
            &&& forall|h: Seq<char>| h != host ==> (#[trigger] c.queues.contains_key(h)
                <==> b.queues.contains_key(h)) && (b.queues.contains_key(h) ==> c.queues[h]
                == b.queues[h])
            &&& c.audits == b.audits
            &&& c.closed == b.closed
        }),
{
}

/// A node may hold eight jobs of a host, and takes no more than what it still
/// has room for by its own count.
pub proof fn law_eight_jobs_of_a_host(pending: Seq<(String, u32)>, host: Seq<char>, i: int)
    requires
        0 <= i < pending.len(),
        pending[i].0@ == host,
        forall|j: int| 0 <= j < i ==> (#[trigger] pending[j]).0@ != host,
    ensures
        room_for(pending, host) == (if pending[i].1 <= 8 {
            8 - pending[i].1
        } else {
            0
        }),
    decreases i,
{
    if i > 0 {
        assert(pending[0].0@ != host);
        assert forall|j: int| 0 <= j < i - 1 implies (#[trigger] pending.skip(1)[j]).0@ != host by {
            assert(pending.skip(1)[j] == pending[j + 1]);
        }
        law_eight_jobs_of_a_host(pending.skip(1), host, i - 1);
    }
}

/// A host that a node does not name is one of which it holds nothing.
pub proof fn law_unnamed_hosts_have_room(pending: Seq<(String, u32)>, host: Seq<char>)
    requires
        forall|j: int| 0 <= j < pending.len() ==> (#[trigger] pending[j]).0@ != host,
    ensures
        room_for(pending, host) == 8,
    decreases pending.len(),
{
    if pending.len() > 0 {
        assert(pending[0].0@ != host);
        assert forall|j: int| 0 <= j < pending.skip(1).len() implies (
        #[trigger] pending.skip(1)[j]).0@ != host by {
            assert(pending.skip(1)[j] == pending[j + 1]);
        }
        law_unnamed_hosts_have_room(pending.skip(1), host);
    }
}

/// Jobs go out first come, first served: if a node is passed over by nothing,
/// it gets the first jobs of the queue, as many as it has room for.
pub proof fn law_oldest_jobs_go_first(q: Seq<(u64, Option<u32>)>, node: u32, cap: int)
    requires
        0 <= cap,
        forall|i: int| 0 <= i < q.len() ==> (#[trigger] q[i]).1 != Some(node),
    ensures
        picks(q, node, cap).len() == (if cap <= q.len() {
            cap
        } else {
            q.len() as int
        }),
        forall|i: int| 0 <= i < picks(q, node, cap).len() ==> #[trigger] picks(q, node, cap)[i]
            == q[i].0,
    decreases q.len(),
{
    if q.len() > 0 && cap > 0 {
        assert(q[0].1 != Some(node));
        let rest = q.skip(1);
        assert forall|i: int| 0 <= i < rest.len() implies (#[trigger] rest[i]).1 != Some(node) by {
            assert(rest[i] == q[i + 1]);
        }
        law_oldest_jobs_go_first(rest, node, cap - 1);
        let p = picks(q, node, cap);
        let p0 = picks(rest, node, cap - 1);
        assert forall|i: int| 0 <= i < p.len() implies #[trigger] p[i] == q[i].0 by {
            if i > 0 {
                assert(p[i] == p0[i - 1]);
                assert(rest[i - 1] == q[i]);
            }
        }
    }
}

/// What a node is handed is the job that was asked for, with two and a half
/// minutes to answer.
pub proof fn law_handed_jobs_are_what_was_asked_for(job: Job, id: u64, v: JobV)
    requires
        is_job(job, id, v),
    ensures
        job.id == id,
        job.host@ == v.host,
        job.method@ == v.method,
        job.path@ == v.path,
        job.lease_ms == 150_000,
{
}

/// A lease is over when its end is reached, not before; a job that nobody holds
/// has none that could be over.
pub proof fn law_leases_end_on_time(job: JobV, now_ms: u64)
    ensures
        is_expired(job, now_ms) <==> job.lease is Some && (job.lease->0).1 <= now_ms,
{
}

/// Only a twin that nobody holds goes stale, and only after ten minutes.
pub proof fn law_only_untaken_twins_go_stale(job: JobV, now_ms: u64)
    ensures
        is_stale(job, now_ms) <==> job.is_twin && job.lease is None && now_ms > job.created_ms
            + 600_000,
{
}

/// A twin asks for what its job asks for, is for any other node, and starts an
/// audit with no answer yet. The job itself stays as it is.
pub proof fn law_twins_repeat_their_job(b: BrokerV, id: u64, node: u32, now_ms: u64)
    requires
        b.next_id < u64::MAX,
        b.jobs.contains_key(id),
        id != b.next_id,
        !b.jobs[id].is_twin,
        b.jobs[id].twin is None,
    ensures
        ({
            let c = audited(b, id, node, now_ms);
            let t = b.next_id;
            let job = b.jobs[id];
            &&& c.next_id == t + 1
            &&& c.jobs.contains_key(t) && c.jobs[t].is_twin
            &&& c.jobs[t].host == job.host && c.jobs[t].method == job.method && c.jobs[t].path
                == job.path
            &&& c.jobs[t].lease is None && c.jobs[t].exclude == Some(node)
            &&& c.jobs[t].twin == Some(id) && c.jobs[t].created_ms == now_ms
            &&& c.jobs[t].attempts == 0
            &&& c.jobs[id] == (JobV { twin: Some(t), ..job })
            &&& c.audits.contains_key(t)
            &&& c.audits[t].method == job.method && c.audits[t].path == job.path
            &&& c.audits[t].primary_node == node && c.audits[t].twin_node is None
            &&& c.audits[t].primary is None && c.audits[t].twin is None
        }),
{
}

// ---- nodes ----

/// A node is active for ten minutes after it was heard of.
pub proof fn law_nodes_are_active_for_ten_minutes(node: NodeV, now_ms: u64)
    ensures
        is_active(node, now_ms) <==> node.last_seen_ms is Some && now_ms < node.last_seen_ms->0
            + 600_000,
{
}

/// A report gives what is known of a node, field by field, and for how many
/// whole seconds it was not heard of.
pub proof fn law_reports_say_what_is_known(rep: NodeReport, id: u32, node: NodeV, now_ms: u64)
    requires
        reports(rep, id, node, now_ms),
    ensures
        rep.id == id,
        rep.name@ == node.name,
        rep.completed == node.completed,
        rep.audits_pass == node.audits_pass,
        rep.audits_hard_fail == node.audits_hard_fail,
        rep.audits_soft_fail == node.audits_soft_fail,
        rep.key_bad == node.key_bad,
        rep.idle_secs is Some <==> node.last_seen_ms is Some,
        node.last_seen_ms matches Some(t) ==> {
            &&& now_ms >= t ==> rep.idle_secs->0 * 1000 <= now_ms - t < rep.idle_secs->0 * 1000
                + 1000
            &&& now_ms < t ==> rep.idle_secs->0 == 0
        },
{
}

// ---- handing out ----

proof fn lemma_leased_all(b: BrokerV, ids: Seq<u64>, node: u32, until_ms: u64, id: u64)
    ensures
        ({
            let after = leased_all(b, ids, node, until_ms);
            &&& after.jobs.contains_key(id) == b.jobs.contains_key(id)
            &&& after.queues == b.queues && after.audits == b.audits && after.next_id == b.next_id
            &&& b.jobs.contains_key(id) ==> after.jobs[id] == (if ids.contains(id) {
                JobV { lease: Some((node, until_ms)), ..b.jobs[id] }
            } else {
                b.jobs[id]
            })
        }),
    decreases ids.len(),
{
    if ids.len() > 0 {
        let rest = ids.drop_last();
        lemma_leased_all(b, rest, node, until_ms, id);
        lemma_leased_all(b, rest, node, until_ms, ids.last());
        if rest.contains(id) {
            let i = choose|i: int| 0 <= i < rest.len() && rest[i] == id;
            assert(ids[i] == id);
        }
        if ids.contains(id) && ids.last() != id {
            let i = choose|i: int| 0 <= i < ids.len() && ids[i] == id;
            assert(rest[i] == id);
        }
        assert(ids[ids.len() - 1] == ids.last());
    }
}

/// A job that a node takes is leased to it, and all else about the job and all
/// other jobs stay as they are. What the node leaves stays queued, and so do the
/// jobs of the other hosts.
pub proof fn law_taken_jobs_are_leased(
    b: BrokerV,
    hosts: Seq<Seq<char>>,
    host: Seq<char>,
    node: u32,
    pending: Seq<(String, u32)>,
    until_ms: u64,
    id: u64,
    other: Seq<char>,
)
    requires
        other != host,
    ensures
        ({
            let before = taken(b, hosts, node, pending, until_ms);
            let after = taken(b, hosts.push(host), node, pending, until_ms);
            let took = picks(queue_of(before, host), node, room_for(pending, host));
            &&& after.jobs.contains_key(id) == before.jobs.contains_key(id)
            &&& before.jobs.contains_key(id) && took.contains(id) ==> after.jobs[id] == (JobV {
                lease: Some((node, until_ms)),
                ..before.jobs[id]
            })
            &&& before.jobs.contains_key(id) && !took.contains(id) ==> after.jobs[id]
                == before.jobs[id]
            &&& queue_of(after, other) == queue_of(before, other)
            &&& queue_of(after, host).len() + took.len() == queue_of(before, host).len()
            &&& after.audits == before.audits
            &&& after.next_id == before.next_id
        }),
        taken(b, Seq::empty(), node, pending, until_ms) == b,
{
    let before = taken(b, hosts, node, pending, until_ms);
    assert(hosts.push(host).drop_last() =~= hosts);
    let cap = room_for(pending, host);
    let c = BrokerV {
        queues: before.queues.insert(host, leaves(queue_of(before, host), node, cap)),
        ..before
    };
    lemma_leased_all(c, picks(queue_of(before, host), node, cap), node, until_ms, id);
    law_no_more_than_target(queue_of(before, host), node, cap);
}

/// What a node is handed: of each host what it takes of the queue, but for jobs
/// that are no longer there.
pub proof fn law_jobs_are_handed_host_by_host(
    b: BrokerV,
    hosts: Seq<Seq<char>>,
    host: Seq<char>,
    node: u32,
    pending: Seq<(String, u32)>,
    id: u64,
)
    ensures
        handed(b, Seq::empty(), node, pending) == Seq::<u64>::empty(),
        handed(b, hosts.push(host), node, pending).contains(id) <==> (handed(
            b,
            hosts,
            node,
            pending,
        ).contains(id) || (b.jobs.contains_key(id) && picks(
            queue_of(b, host),
            node,
            room_for(pending, host),
        ).contains(id))),
{
    assert(hosts.push(host).drop_last() =~= hosts);
    let old_ids = handed(b, hosts, node, pending);
    let took = picks(queue_of(b, host), node, room_for(pending, host));
    let more = still_there(b, took);
    let all = handed(b, hosts.push(host), node, pending);
    assert(all =~= old_ids + more);
    lemma_still_there(b, took, id);
    if old_ids.contains(id) {
        let i = choose|i: int| 0 <= i < old_ids.len() && old_ids[i] == id;
        assert(all[i] == id);
    }
    if more.contains(id) {
        let i = choose|i: int| 0 <= i < more.len() && more[i] == id;
        assert(all[old_ids.len() + i] == id);
    }
    if all.contains(id) {
        let i = choose|i: int| 0 <= i < all.len() && all[i] == id;
        if i < old_ids.len() {
            assert(old_ids[i] == id);
        } else {
            assert(more[i - old_ids.len()] == id);
        }
    }
}

proof fn lemma_still_there(b: BrokerV, ids: Seq<u64>, id: u64)
    ensures
        still_there(b, ids).contains(id) <==> ids.contains(id) && b.jobs.contains_key(id),
    decreases ids.len(),
{
    if ids.len() > 0 {
        let rest = ids.drop_last();
        lemma_still_there(b, rest, id);
        lemma_last(ids, id);
        if b.jobs.contains_key(ids.last()) {
            lemma_pushed(still_there(b, rest), ids.last(), id);
        }
    }
}

proof fn lemma_last(ids: Seq<u64>, id: u64)
    requires
        ids.len() > 0,
    ensures
        ids.contains(id) <==> ids.drop_last().contains(id) || ids.last() == id,
{
    assert(ids =~= ids.drop_last().push(ids.last()));
    lemma_pushed(ids.drop_last(), ids.last(), id);
}

proof fn lemma_pushed(ids: Seq<u64>, last: u64, id: u64)
    ensures
        ids.push(last).contains(id) <==> ids.contains(id) || last == id,
{
    let all = ids.push(last);
    if ids.contains(id) {
        let i = choose|i: int| 0 <= i < ids.len() && ids[i] == id;
        assert(all[i] == id);
    }
    if last == id {
        assert(all[ids.len() as int] == id);
    }
    if all.contains(id) && last != id {
        let i = choose|i: int| 0 <= i < all.len() && all[i] == id;
        assert(ids[i] == id);
    }
}

proof fn lemma_auditable(b: BrokerV, ids: Seq<u64>, id: u64)
    ensures
        auditable(b, ids).contains(id) <==> ids.contains(id) && !b.jobs[id].is_twin
            && b.jobs[id].twin is None,
    decreases ids.len(),
{
    if ids.len() > 0 {
        let rest = ids.drop_last();
        lemma_auditable(b, rest, id);
        lemma_last(ids, id);
        let job = b.jobs[ids.last()];
        if !job.is_twin && job.twin is None {
            lemma_pushed(auditable(b, rest), ids.last(), id);
        }
    }
}

/// A lease lasts for two and a half minutes. A job that was handed out may be
/// audited if it is no twin and has none, and only while some other node was
/// heard of within ten minutes.
pub proof fn law_handouts(
    b: BrokerV,
    hosts: Seq<Seq<char>>,
    r: RegistryV,
    node: u32,
    pending: Seq<(String, u32)>,
    now_ms: u64,
    after: BrokerV,
    res: Handed,
    id: u64,
    n: u32,
    seen_ms: u64,
)
    requires
        is_handout(b, hosts, r, node, pending, now_ms, after, res),
        now_ms + 150_000 <= u64::MAX,
    ensures
        after == taken(b, hosts, node, pending, (now_ms + 150_000) as u64),
        res.jobs@.len() == handed(b, hosts, node, pending).len(),
        res.auditable@.contains(id) ==> handed(b, hosts, node, pending).contains(id)
            && !b.jobs[id].is_twin && b.jobs[id].twin is None,
        n != node && r.nodes.contains_key(n) && r.nodes[n].last_seen_ms == Some(seen_ms) && now_ms
            < seen_ms + 600_000 ==> (res.auditable@.contains(id) <==> handed(
            b,
            hosts,
            node,
            pending,
        ).contains(id) && !b.jobs[id].is_twin && b.jobs[id].twin is None),
        (forall|m: u32|
            #[trigger] r.nodes.contains_key(m) && m != node ==> r.nodes[m].last_seen_ms is None || (
            r.nodes[m].last_seen_ms->0 + 600_000 <= now_ms)) ==> res.auditable@.len() == 0,
{
    let ids = handed(b, hosts, node, pending);
    lemma_auditable(b, ids, id);
    if n != node && r.nodes.contains_key(n) && r.nodes[n].last_seen_ms == Some(seen_ms) && now_ms
        < seen_ms + 600_000 {
        assert(r.nodes.contains_key(n) && n != node && is_active(r.nodes[n], now_ms));
    }
    if forall|m: u32|
        #[trigger] r.nodes.contains_key(m) && m != node ==> r.nodes[m].last_seen_ms is None || (
        r.nodes[m].last_seen_ms->0 + 600_000 <= now_ms) {
        assert(forall|m: u32| #[trigger]
            r.nodes.contains_key(m) && m != node ==> !is_active(r.nodes[m], now_ms));
    }
}

// ---- sweeping ----

/// What a sweep did: each lease that was over ended as a failed attempt, and the
/// twins that nobody took for ten minutes are gone with their audits.
pub proof fn law_sweeps_end_leases(b: BrokerV, ids: Seq<u64>, id: u64, now_ms: u64)
    ensures
        expired_all(b, ids.push(id)) == failed_once(expired_all(b, ids), id),
        expired_all(b, Seq::empty()) == b,
        expiry_notes(b, Seq::empty()) == Seq::<ResolutionV>::empty(),
        expiry_notes(b, ids.push(id)) == expiry_notes(b, ids) + failure_note(
            expired_all(b, ids),
            id,
            "lease expired too many times"@,
        ),
        without_stale(b, now_ms).jobs.contains_key(id) <==> b.jobs.contains_key(id) && !(
        b.jobs[id].is_twin && b.jobs[id].lease is None && b.jobs[id].created_ms + 600_000 < now_ms),
        without_stale(b, now_ms).jobs.contains_key(id) ==> without_stale(b, now_ms).jobs[id]
            == b.jobs[id],
        b.jobs.contains_key(id) && b.jobs[id].is_twin && b.jobs[id].lease is None
            && b.jobs[id].created_ms + 600_000 < now_ms ==> !without_stale(
            b,
            now_ms,
        ).audits.contains_key(id),
        without_stale(b, now_ms).queues == b.queues,
{
    assert(ids.push(id).drop_last() =~= ids);
}

/// A sweep looks at every job: it wakes the nodes exactly if a lease was over.
pub proof fn law_sweeps_look_at_every_job(b: BrokerV, now_ms: u64, after: BrokerV, res: Swept)
    requires
        is_sweep(b, now_ms, after, res),
    ensures
        res.woke <==> exists|id: u64|
            #[trigger] b.jobs.contains_key(id) && b.jobs[id].lease is Some && (b.jobs[id].lease->0).1
                <= now_ms,
        !res.woke ==> after == without_stale(b, now_ms) && res.resolved@.len() == 0,
{
    let ids = choose|ids: Seq<u64>| #[trigger]
        lists_expired(b, now_ms, ids) && {
            &&& after == without_stale(expired_all(b, ids), now_ms)
            &&& notes(res.resolved@) == expiry_notes(b, ids)
            &&& res.woke == (ids.len() > 0)
        };
    if ids.len() > 0 {
        assert(ids.contains(ids[0]));
        assert(b.jobs.contains_key(ids[0]));
    } else {
        assert forall|id: u64| #[trigger] b.jobs.contains_key(id) implies !(b.jobs[id].lease is Some
            && (b.jobs[id].lease->0).1 <= now_ms) by {
            assert(!ids.contains(id));
        }
        assert(notes(res.resolved@).len() == 0);
    }
}

/// A broker that was shut down has nothing left and takes nothing more, but its
/// ids are not given again. Depths are counts of the jobs that wait and of those
/// that are held.
pub proof fn law_shutdown_and_depths(b: BrokerV, held: Set<u64>)
    requires
        b.jobs.dom().finite(),
        forall|id: u64| #[trigger]
            held.contains(id) <==> b.jobs.contains_key(id) && b.jobs[id].lease is Some,
    ensures
        shut(b).closed,
        shut(b).next_id == b.next_id,
        shut(b).jobs == Map::<u64, JobV>::empty(),
        shut(b).audits.dom() == Set::<u64>::empty(),
        depths(b).1 == held.len(),
        depths(b).0 + depths(b).1 == b.jobs.dom().len(),
{
    assert(b.jobs.dom().filter(|id: u64| b.jobs[id].lease is Some) =~= held) by {
        assert forall|id: u64|
            b.jobs.dom().filter(|id: u64| b.jobs[id].lease is Some).contains(id) == held.contains(
                id,
            ) by {
            assert(held.contains(id) <==> b.jobs.contains_key(id) && b.jobs[id].lease is Some);
        }
    }
    assert(shut(b).audits.dom() =~= Set::<u64>::empty());
}

/// Audits are started one after the other, and a shutdown gives up every fetch
/// that waits, but no twin.
pub proof fn law_audits_start_in_order(
    b: BrokerV,
    ids: Seq<u64>,
    id: u64,
    node: u32,
    now_ms: u64,
    waiting: Seq<u64>,
)
    ensures
        audited_all(b, Seq::empty(), node, now_ms) == b,
        audited_all(b, ids.push(id), node, now_ms) == audited(
            audited_all(b, ids, node, now_ms),
            id,
            node,
            now_ms,
        ),
        lists_waiting(b, waiting) ==> (waiting.contains(id) <==> b.jobs.contains_key(id)
            && !b.jobs[id].is_twin),
{
    assert(ids.push(id).drop_last() =~= ids);
}

} // verus!
