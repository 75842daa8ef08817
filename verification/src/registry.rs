//! Enrolled nodes while the server runs: who a token belongs to, when a node
//! was last heard of, and what it has done.

use crate::sorted::sorts_with;
use crate::text::{decimal, decimal_text, hex, hex_text, same_text, text_before};
use std::collections::BTreeMap;
use vstd::hash_map::StringHashMap;
use vstd::prelude::*;
use vstd::std_specs::iter::IteratorSpec;
use vstd::string::StringExecFns;
use vstd::utf8::encode_utf8;

verus! {

/// A node that polled within this window can take part in an audit.
pub const ACTIVE_WINDOW_MS: u64 = 600_000;

/// What `sha2::Sha256::digest` returns.
pub uninterp spec fn sha256_of(data: Seq<u8>) -> Seq<u8>;

/// Calls `sha2::Sha256::digest`: the 32 bytes of the SHA-256 hash.
#[verifier::external_body]
fn sha256(data: &[u8]) -> (res: Vec<u8>)
    ensures
        res@ == sha256_of(data@),
        res@.len() == 32,
{
    <sha2::Sha256 as sha2::Digest>::digest(data).to_vec()
}

/// The hash of a token, as it is kept.
pub open spec fn token_hash(token: Seq<char>) -> Seq<char> {
    hex(sha256_of(encode_utf8(token)))
}

/// The hash of a token, in hexadecimal.
pub fn token_hash_hex(token: &str) -> (res: String)
    ensures
        res@ == token_hash(token@),
{
    hex_text(sha256(token.as_bytes()).as_slice())
}

/// How an audit ended.
#[derive(Clone, Copy, Debug, PartialEq, Eq, Structural)]
pub enum AuditVerdict {
    Pass,
    /// The endpoint never changes, but the bodies differ: somebody returned
    /// wrong data.
    HardFail,
    /// The endpoint changes over time, and the bodies differ.
    SoftFail,
}

struct NodeRt {
    name: String,
    last_seen_ms: Option<u64>,
    completed: u64,
    audits_pass: u64,
    audits_hard_fail: u64,
    audits_soft_fail: u64,
    key_bad: bool,
}

/// What is known of a node.
#[verifier::ext_equal]
pub struct NodeV {
    pub name: Seq<char>,
    pub last_seen_ms: Option<u64>,
    pub completed: u64,
    pub audits_pass: u64,
    pub audits_hard_fail: u64,
    pub audits_soft_fail: u64,
    pub key_bad: bool,
}

impl View for NodeRt {
    type V = NodeV;

    closed spec fn view(&self) -> NodeV {
        NodeV {
            name: self.name@,
            last_seen_ms: self.last_seen_ms,
            completed: self.completed,
            audits_pass: self.audits_pass,
            audits_hard_fail: self.audits_hard_fail,
            audits_soft_fail: self.audits_soft_fail,
            key_bad: self.key_bad,
        }
    }
}

#[derive(Clone, Debug, PartialEq, Eq)]
pub struct NodeReport {
    pub id: u32,
    pub name: String,
    pub completed: u64,
    pub audits_pass: u64,
    pub audits_hard_fail: u64,
    pub audits_soft_fail: u64,
    pub key_bad: bool,
    /// Seconds since the last poll, if there was one.
    pub idle_secs: Option<u64>,
}

/// The nodes by id, and their ids by the hash of their token.
#[verifier::ext_equal]
pub struct RegistryV {
    pub tokens: Map<Seq<char>, u32>,
    pub nodes: Map<u32, NodeV>,
}

pub struct Registry {
    tokens: StringHashMap<u32>,
    nodes: BTreeMap<u32, NodeRt>,
}

impl View for Registry {
    type V = RegistryV;

    closed spec fn view(&self) -> RegistryV {
        RegistryV {
            tokens: self.tokens@,
            nodes: self.nodes@.map_values(|n: NodeRt| n@),
        }
    }
}

/// One more, up to the largest number.
pub open spec fn one_more(n: u64) -> u64 {
    if n < u64::MAX {
        (n + 1) as u64
    } else {
        n
    }
}

/// A node of which nothing was heard yet.
pub open spec fn fresh_node(name: Seq<char>) -> NodeV {
    NodeV {
        name,
        last_seen_ms: None,
        completed: 0,
        audits_pass: 0,
        audits_hard_fail: 0,
        audits_soft_fail: 0,
        key_bad: false,
    }
}

/// The registry with another state of a node, if it is enrolled.
pub open spec fn with_node(r: RegistryV, id: u32, node: NodeV) -> RegistryV {
    if r.nodes.contains_key(id) {
        RegistryV { nodes: r.nodes.insert(id, node), ..r }
    } else {
        r
    }
}

/// A node with a verdict counted.
pub open spec fn judged(node: NodeV, verdict: AuditVerdict) -> NodeV {
    match verdict {
        AuditVerdict::Pass => NodeV { audits_pass: one_more(node.audits_pass), ..node },
        AuditVerdict::HardFail => NodeV {
            audits_hard_fail: one_more(node.audits_hard_fail),
            ..node
        },
        AuditVerdict::SoftFail => NodeV {
            audits_soft_fail: one_more(node.audits_soft_fail),
            ..node
        },
    }
}

/// The registry after a job of a node: its key works.
pub open spec fn job_done(r: RegistryV, id: u32) -> RegistryV {
    with_node(
        r,
        id,
        NodeV { completed: one_more(r.nodes[id].completed), key_bad: false, ..r.nodes[id] },
    )
}

/// The registry after a verdict on one node.
pub open spec fn judged_one(r: RegistryV, id: u32, verdict: AuditVerdict) -> RegistryV {
    with_node(r, id, judged(r.nodes[id], verdict))
}

/// The registry after a verdict on two nodes.
pub open spec fn judged_both(r: RegistryV, a: u32, b: u32, verdict: AuditVerdict) -> RegistryV {
    judged_one(judged_one(r, a, verdict), b, verdict)
}

/// The name of a node, or a stand-in.
pub open spec fn node_name(r: RegistryV, id: u32) -> Seq<char> {
    if r.nodes.contains_key(id) {
        r.nodes[id].name
    } else {
        "node#"@ + decimal(id as int)
    }
}

/// A node was heard of within the active window.
pub open spec fn is_active(node: NodeV, now_ms: u64) -> bool {
    match node.last_seen_ms {
        Some(t) => now_ms < t || now_ms - t < ACTIVE_WINDOW_MS,
        None => false,
    }
}

/// What a report says of a node.
pub open spec fn reports(rep: NodeReport, id: u32, node: NodeV, now_ms: u64) -> bool {
    &&& rep.id == id
    &&& rep.name@ == node.name
    &&& rep.completed == node.completed
    &&& rep.audits_pass == node.audits_pass
    &&& rep.audits_hard_fail == node.audits_hard_fail
    &&& rep.audits_soft_fail == node.audits_soft_fail
    &&& rep.key_bad == node.key_bad
    &&& rep.idle_secs == match node.last_seen_ms {
        Some(t) => Some(
            if now_ms > t {
                ((now_ms - t) as u64 / 1000) as u64
            } else {
                0
            },
        ),
        None => None::<u64>,
    }
}

/// A report on every node, in the order of their names.
pub open spec fn reports_all(r: RegistryV, list: Seq<NodeReport>, now_ms: u64) -> bool {
    &&& forall|i: int|
        0 <= i < list.len() ==> r.nodes.contains_key((#[trigger] list[i]).id) && reports(
            list[i],
            list[i].id,
            r.nodes[list[i].id],
            now_ms,
        )
    &&& forall|id: u32| #[trigger]
        r.nodes.contains_key(id) ==> exists|i: int|
            0 <= i < list.len() && (#[trigger] list[i]).id == id
    &&& forall|i: int, j: int|
        0 <= i < j < list.len() ==> (#[trigger] list[i]).id != (#[trigger] list[j]).id
            && sorts_with(list[i].name@, list[j].name@)
}

impl Registry {
    pub fn new() -> (res: Self)
        ensures
            res@ == (RegistryV { tokens: Map::empty(), nodes: Map::empty() }),
    {
        let res = Registry { tokens: StringHashMap::new(), nodes: BTreeMap::new() };
        assert(res@ =~= RegistryV { tokens: Map::empty(), nodes: Map::empty() });
        res
    }

    /// Enrols a node while the server runs.
    pub fn enroll_runtime(&mut self, id: u32, name: String, token_hash_hex: String)
        ensures
            final(self)@ == (RegistryV {
                tokens: old(self)@.tokens.insert(token_hash_hex@, id),
                nodes: old(self)@.nodes.insert(id, fresh_node(name@)),
            }),
    {
        let ghost was = self@;
        let ghost n = name@;
        let ghost h = token_hash_hex@;
        self.tokens.insert(token_hash_hex, id);
        let _ = self.nodes.insert(
            id,
            NodeRt {
                name,
                last_seen_ms: None,
                completed: 0,
                audits_pass: 0,
                audits_hard_fail: 0,
                audits_soft_fail: 0,
                key_bad: false,
            },
        );
        assert(self@ =~= RegistryV {
            tokens: was.tokens.insert(h, id),
            nodes: was.nodes.insert(id, fresh_node(n)),
        });
    }

    fn ids(&self) -> (res: Vec<u32>)
        ensures
            res@.to_set() == self@.nodes.dom(),
            res@.no_duplicates(),
    {
        let mut out: Vec<u32> = Vec::new();
        let it = self.nodes.keys();
        let ghost all = it.remaining();
        for k in iter: it
            invariant
                iter.seq() == all,
                out@ == all.unref().take(iter.index()),
        {
            assert(all.unref().take(iter.index() + 1) =~= all.unref().take(iter.index()).push(*k));
            out.push(*k);
        }
        assert(all.unref().take(all.len() as int) =~= all.unref());
        assert(self@.nodes.dom() =~= self.nodes@.dom());
        out
    }

    /// Whether a node has that name.
    pub fn name_taken(&self, name: &str) -> (res: bool)
        ensures
            res == exists|id: u32| #[trigger]
                self@.nodes.contains_key(id) && self@.nodes[id].name == name@,
    {
        let ids = self.ids();
        let mut i: usize = 0;
        while i < ids.len()
            invariant
                i <= ids@.len(),
                ids@.to_set() == self@.nodes.dom(),
                forall|j: int| 0 <= j < i ==> self@.nodes[#[trigger] ids@[j]].name != name@,
            decreases ids@.len() - i,
        {
            let id: u32 = ids[i];
            assert(ids@.to_set().contains(id));
            if let Some(n) = self.nodes.get(&id) {
                if same_text(n.name.as_str(), name) {
                    assert(self@.nodes.contains_key(id));
                    return true;
                }
            }
            i = i + 1;
        }
        proof {
            assert forall|id: u32| #[trigger] self@.nodes.contains_key(id) implies
                self@.nodes[id].name != name@ by {
                assert(ids@.to_set().contains(id));
                let j = choose|j: int| 0 <= j < ids@.len() && ids@[j] == id;
                assert(ids@[j] == id);
            }
        }
        false
    }

    /// The node that a token belongs to.
    pub fn auth(&self, token: &str) -> (res: Option<u32>)
        ensures
            res == (if self@.tokens.contains_key(token_hash(token@)) {
                Some(self@.tokens[token_hash(token@)])
            } else {
                None::<u32>
            }),
    {
        let hash = token_hash_hex(token);
        match self.tokens.get(hash.as_str()) {
            Some(id) => Some(*id),
            None => None,
        }
    }

    /// Notes that a node was heard of.
    pub fn touch(&mut self, id: u32, now_ms: u64)
        ensures
            final(self)@ == with_node(
                old(self)@,
                id,
                NodeV { last_seen_ms: Some(now_ms), ..old(self)@.nodes[id] },
            ),
    {
        let ghost was = self@;
        if let Some(mut n) = self.nodes.remove(&id) {
            n.last_seen_ms = Some(now_ms);
            let _ = self.nodes.insert(id, n);
            assert(self@.nodes =~= was.nodes.insert(
                id,
                NodeV { last_seen_ms: Some(now_ms), ..was.nodes[id] },
            ));
        } else {
            assert(self@.nodes =~= was.nodes);
        }
    }

    /// Counts a job that a node completed. A completed request shows that its
    /// key works.
    pub fn job_completed(&mut self, id: u32)
        ensures
            final(self)@ == job_done(old(self)@, id),
    {
        let ghost was = self@;
        if let Some(mut n) = self.nodes.remove(&id) {
            n.completed = n.completed.saturating_add(1);
            n.key_bad = false;
            let ghost v = n@;
            let _ = self.nodes.insert(id, n);
            assert(self@.nodes =~= was.nodes.insert(id, v));
        } else {
            assert(self@.nodes =~= was.nodes);
        }
    }

    pub fn set_key_bad(&mut self, id: u32, bad: bool)
        ensures
            final(self)@ == with_node(
                old(self)@,
                id,
                NodeV { key_bad: bad, ..old(self)@.nodes[id] },
            ),
    {
        let ghost was = self@;
        if let Some(mut n) = self.nodes.remove(&id) {
            n.key_bad = bad;
            let ghost v = n@;
            let _ = self.nodes.insert(id, n);
            assert(self@.nodes =~= was.nodes.insert(id, v));
        } else {
            assert(self@.nodes =~= was.nodes);
        }
    }

    fn judge(&mut self, id: u32, verdict: AuditVerdict)
        ensures
            final(self)@ == judged_one(old(self)@, id, verdict),
    {
        let ghost was = self@;
        if let Some(mut n) = self.nodes.remove(&id) {
            match verdict {
                AuditVerdict::Pass => {
                    n.audits_pass = n.audits_pass.saturating_add(1);
                },
                AuditVerdict::HardFail => {
                    n.audits_hard_fail = n.audits_hard_fail.saturating_add(1);
                },
                AuditVerdict::SoftFail => {
                    n.audits_soft_fail = n.audits_soft_fail.saturating_add(1);
                },
            }
            let ghost v = n@;
            let _ = self.nodes.insert(id, n);
            assert(self@.nodes =~= was.nodes.insert(id, v));
        } else {
            assert(self@.nodes =~= was.nodes);
        }
    }

    /// Counts a verdict for both nodes of an audit: on a mismatch nobody knows
    /// which of them was wrong.
    pub fn audit_result(&mut self, a: u32, b: u32, verdict: AuditVerdict)
        ensures
            final(self)@ == judged_both(old(self)@, a, b, verdict),
    {
        self.judge(a, verdict);
        self.judge(b, verdict);
    }

    /// Whether a node other than this one is active.
    pub fn active_node_other_than(&self, id: u32, now_ms: u64) -> (res: bool)
        ensures
            res == exists|n: u32| #[trigger]
                self@.nodes.contains_key(n) && n != id && is_active(self@.nodes[n], now_ms),
    {
        let ids = self.ids();
        let mut i: usize = 0;
        while i < ids.len()
            invariant
                i <= ids@.len(),
                ids@.to_set() == self@.nodes.dom(),
                forall|j: int|
                    0 <= j < i && #[trigger] ids@[j] != id ==> !is_active(
                        self@.nodes[ids@[j]],
                        now_ms,
                    ),
            decreases ids@.len() - i,
        {
            let n: u32 = ids[i];
            assert(ids@.to_set().contains(n));
            if let Some(rt) = self.nodes.get(&n) {
                let active = match rt.last_seen_ms {
                    Some(t) => now_ms < t || now_ms - t < ACTIVE_WINDOW_MS,
                    None => false,
                };
                if n != id && active {
                    assert(self@.nodes.contains_key(n) && is_active(self@.nodes[n], now_ms));
                    return true;
                }
            }
            i = i + 1;
        }
        proof {
            assert forall|n: u32| #[trigger] self@.nodes.contains_key(n) && n != id implies
                !is_active(self@.nodes[n], now_ms) by {
                assert(ids@.to_set().contains(n));
                let j = choose|j: int| 0 <= j < ids@.len() && ids@[j] == n;
                assert(ids@[j] == n);
            }
        }
        false
    }

    /// The name of a node.
    pub fn name_of(&self, id: u32) -> (res: String)
        ensures
            res@ == node_name(self@, id),
    {
        match self.nodes.get(&id) {
            Some(n) => n.name.clone(),
            None => {
                let mut out = "node#".to_string();
                out.append(decimal_text(id as u64).as_str());
                out
            },
        }
    }

    /// What is known of every node, in the order of their names.
    pub fn report(&self, now_ms: u64) -> (res: Vec<NodeReport>)
        ensures
            reports_all(self@, res@, now_ms),
    {
        let ids = self.ids();
        let mut out: Vec<NodeReport> = Vec::new();
        let mut i: usize = 0;
        while i < ids.len()
            invariant
                i <= ids@.len(),
                ids@.to_set() == self@.nodes.dom(),
                ids@.no_duplicates(),
                forall|j: int|
                    0 <= j < out@.len() ==> self@.nodes.contains_key((#[trigger] out@[j]).id)
                        && reports(out@[j], out@[j].id, self@.nodes[out@[j].id], now_ms)
                        && ids@.take(i as int).contains(out@[j].id),
                forall|k: int|
                    0 <= k < i ==> has_report(out@, #[trigger] ids@[k]),
                forall|j: int, k: int|
                    0 <= j < k < out@.len() ==> (#[trigger] out@[j]).id != (#[trigger] out@[k]).id
                        && sorts_with(out@[j].name@, out@[k].name@),
            decreases ids@.len() - i,
        {
            let id: u32 = ids[i];
            assert(ids@.to_set().contains(id));
            if let Some(n) = self.nodes.get(&id) {
                let idle_secs: Option<u64> = match n.last_seen_ms {
                    Some(t) => Some(now_ms.saturating_sub(t) / 1000),
                    None => None,
                };
                let rep = NodeReport {
                    id,
                    name: n.name.clone(),
                    completed: n.completed,
                    audits_pass: n.audits_pass,
                    audits_hard_fail: n.audits_hard_fail,
                    audits_soft_fail: n.audits_soft_fail,
                    key_bad: n.key_bad,
                    idle_secs,
                };
                assert(reports(rep, id, self@.nodes[id], now_ms));
                let ghost was = out@;
                proof {
                    assert forall|j: int| 0 <= j < out@.len() implies (#[trigger] out@[j]).id
                        != id by {
                        let sub = ids@.take(i as int);
                        let k = choose|k: int| 0 <= k < sub.len() && sub[k] == out@[j].id;
                        assert(ids@[k] == out@[j].id);
                    }
                }
                let at: usize = insert_report(&mut out, rep);
                proof {
                    assert forall|j: int| 0 <= j < out@.len() implies self@.nodes.contains_key(
                        (#[trigger] out@[j]).id,
                    ) && reports(out@[j], out@[j].id, self@.nodes[out@[j].id], now_ms) && ids@.take(
                        i + 1,
                    ).contains(out@[j].id) by {
                        assert(ids@.take(i + 1)[i as int] == id);
                        if j != at {
                            let oj = if j < at { j } else { j - 1 };
                            assert(out@[j] == was[oj]);
                            let sub = ids@.take(i as int);
                            let k = choose|k: int| 0 <= k < sub.len() && sub[k] == was[oj].id;
                            assert(ids@.take(i + 1)[k] == was[oj].id);
                        }
                    }
                    assert forall|k: int| 0 <= k < i + 1 implies has_report(
                        out@,
                        #[trigger] ids@[k],
                    ) by {
                        if k == i {
                            assert(out@[at as int].id == id);
                        } else {
                            assert(has_report(was, ids@[k]));
                            let j = choose|j: int|
                                0 <= j < was.len() && (#[trigger] was[j]).id == ids@[k];
                            let nj = if j < at { j } else { j + 1 };
                            assert(out@[nj] == was[j]);
                        }
                    }
                }
            }
            i = i + 1;
        }
        proof {
            assert forall|id: u32| #[trigger] self@.nodes.contains_key(id) implies exists|i: int|
                0 <= i < out@.len() && (#[trigger] out@[i]).id == id by {
                assert(ids@.to_set().contains(id));
                let k = choose|k: int| 0 <= k < ids@.len() && ids@[k] == id;
                assert(has_report(out@, ids@[k]));
            }
        }
        out
    }
}

spec fn has_report(list: Seq<NodeReport>, id: u32) -> bool {
    exists|i: int| 0 <= i < list.len() && (#[trigger] list[i]).id == id
}

/// Puts a report into its place, after those of the same name.
fn insert_report(list: &mut Vec<NodeReport>, rep: NodeReport) -> (res: usize)
    requires
        forall|j: int| 0 <= j < old(list)@.len() ==> (#[trigger] old(list)@[j]).id != rep.id,
        forall|j: int, k: int|
            0 <= j < k < old(list)@.len() ==> (#[trigger] old(list)@[j]).id != (
            #[trigger] old(list)@[k]).id && sorts_with(old(list)@[j].name@, old(list)@[k].name@),
    ensures
        res <= old(list)@.len(),
        final(list)@ == old(list)@.insert(res as int, rep),
        forall|j: int, k: int|
            0 <= j < k < final(list)@.len() ==> (#[trigger] final(list)@[j]).id != (
            #[trigger] final(list)@[k]).id && sorts_with(
                final(list)@[j].name@,
                final(list)@[k].name@,
            ),
{
    let ghost was = list@;
    let mut k: usize = list.len();
    while k > 0 && text_before(rep.name.as_str(), list[k - 1].name.as_str())
        invariant
            list@ == was,
            k <= was.len(),
            forall|j: int| k <= j < was.len() ==> sorts_with(rep.name@, (#[trigger] was[j]).name@),
        ensures
            k == 0 || !crate::text::sorts_before(rep.name@, was[k - 1].name@, 0),
        decreases k,
    {
        proof {
            crate::sorted::lemma_sorts_with(rep.name@, was[k - 1].name@);
        }
        k = k - 1;
    }
    proof {
        assert forall|j: int| 0 <= j < k implies sorts_with(
            (#[trigger] was[j]).name@,
            rep.name@,
        ) by {
            crate::sorted::lemma_sorts_with(was[k - 1].name@, rep.name@);
            if j < k - 1 {
                crate::sorted::lemma_sorts_with_on(
                    was[j].name@,
                    was[k - 1].name@,
                    rep.name@,
                );
            }
        }
    }
    list.insert(k, rep);
    proof {
        let out = list@;
        assert forall|i: int, j: int| 0 <= i < j < out.len() implies (#[trigger] out[i]).id != (
        #[trigger] out[j]).id && sorts_with(out[i].name@, out[j].name@) by {
            let oi = if i < k { i } else { i - 1 };
            let oj = if j < k { j } else { j - 1 };
            if i != k && j != k {
                assert(out[i] == was[oi] && out[j] == was[oj]);
            } else if i == k {
                assert(out[j] == was[oj]);
            } else {
                assert(out[i] == was[oi]);
            }
        }
    }
    k
}

/// A token opens only the node whose hash it has: once a node is enrolled with
/// a token's hash, the token is that node's.
pub proof fn law_enrolled_token_is_known(r: RegistryV, id: u32, name: Seq<char>, token: Seq<char>)
    ensures
        ({
            let after = RegistryV {
                tokens: r.tokens.insert(token_hash(token), id),
                nodes: r.nodes.insert(id, fresh_node(name)),
            };
            after.tokens.contains_key(token_hash(token)) && after.tokens[token_hash(token)] == id
                && after.nodes.contains_key(id)
        }),
{
}

/// A completed job takes back that a node's key was refused, and a verdict
/// leaves that alone.
pub proof fn law_completed_job_clears_key(r: RegistryV, id: u32, verdict: AuditVerdict)
    requires
        r.nodes.contains_key(id),
    ensures
        !job_done(r, id).nodes[id].key_bad,
        judged_one(r, id, verdict).nodes[id].key_bad == r.nodes[id].key_bad,
        judged_one(r, id, verdict).nodes[id].completed == r.nodes[id].completed,
{
}

} // verus!
