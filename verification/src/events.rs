//! What a running node shows to whoever watches it.

use crate::named::Named;
use crate::registry::one_more;
use crate::sorted::{lists, name_sorted};
use vstd::prelude::*;

verus! {

/// What a node does, in the order in which it happens.
#[derive(Clone, Debug, PartialEq, Eq)]
pub enum NodeEvent {
    /// The first poll that went through, or the first after an outage.
    Connected,
    /// A poll failed; the node goes on trying.
    Disconnected,
    /// A job came from the server and waits for the rate limiters.
    JobStarted { id: u64, host: String, method: String },
    /// The request of a job goes out.
    JobActive { id: u64 },
    /// The request of a job was answered.
    JobDone { id: u64, host: String, method: String, outcome: String, ms: u64 },
    /// The result of a job reached the server, or was given up.
    JobUploaded { id: u64 },
    /// The key was refused; the node paused.
    KeyBad,
    /// There is a new key; the node went on.
    KeyOk,
    /// The server speaks another protocol.
    ProtocolMismatch { message: String },
    Stopped,
}

/// The counters of a node at one moment.
#[derive(Clone, Debug, PartialEq, Eq)]
pub struct Snapshot {
    pub completed: u64,
    pub matches: u64,
    /// Jobs finished for each routing host, in the order of the hosts.
    pub per_host: Vec<(String, u64)>,
    pub key_bad: bool,
    pub connected: bool,
}

/// The counters of a node.
#[verifier::ext_equal]
pub struct HandleV {
    pub completed: u64,
    pub matches: u64,
    pub per_host: Map<Seq<char>, u64>,
    pub key_bad: bool,
    pub connected: bool,
}

pub struct NodeHandle {
    completed: u64,
    matches: u64,
    per_host: Named<u64>,
    key_bad: bool,
    connected: bool,
}

/// How often a host was counted.
pub open spec fn count_of(m: Map<Seq<char>, u64>, host: Seq<char>) -> u64 {
    if m.contains_key(host) {
        m[host]
    } else {
        0
    }
}

/// The counters after one more job.
pub open spec fn finished(v: HandleV, host: Seq<char>, is_match: bool) -> HandleV {
    HandleV {
        completed: one_more(v.completed),
        matches: if is_match {
            one_more(v.matches)
        } else {
            v.matches
        },
        per_host: v.per_host.insert(host, one_more(count_of(v.per_host, host))),
        ..v
    }
}

impl View for NodeHandle {
    type V = HandleV;

    closed spec fn view(&self) -> HandleV {
        HandleV {
            completed: self.completed,
            matches: self.matches,
            per_host: self.per_host@,
            key_bad: self.key_bad,
            connected: self.connected,
        }
    }
}

impl NodeHandle {
    pub closed spec fn wf(&self) -> bool {
        self.per_host.wf()
    }

    pub fn new() -> (res: Self)
        ensures
            res.wf(),
            res@ == (HandleV {
                completed: 0,
                matches: 0,
                per_host: Map::empty(),
                key_bad: false,
                connected: false,
            }),
    {
        NodeHandle {
            completed: 0,
            matches: 0,
            per_host: Named::new(),
            key_bad: false,
            connected: false,
        }
    }

    /// Counts a finished job.
    pub fn job_finished(&mut self, host: &str, is_match: bool)
        requires
            old(self).wf(),
        ensures
            final(self).wf(),
            final(self)@ == finished(old(self)@, host@, is_match),
    {
        self.completed = self.completed.saturating_add(1);
        if is_match {
            self.matches = self.matches.saturating_add(1);
        }
        let n: u64 = match self.per_host.get(host) {
            Some(n) => *n,
            None => 0,
        };
        self.per_host.put(host.to_string(), n.saturating_add(1));
    }

    /// Notes whether the key is refused.
    pub fn set_key_bad(&mut self, bad: bool)
        requires
            old(self).wf(),
        ensures
            final(self).wf(),
            final(self)@ == (HandleV { key_bad: bad, ..old(self)@ }),
    {
        self.key_bad = bad;
    }

    /// Notes whether the server can be reached; says whether it could before.
    pub fn set_connected(&mut self, connected: bool) -> (res: bool)
        requires
            old(self).wf(),
        ensures
            final(self).wf(),
            res == old(self)@.connected,
            final(self)@ == (HandleV { connected, ..old(self)@ }),
    {
        let was = self.connected;
        self.connected = connected;
        was
    }

    /// The counters at this moment.
    pub fn snapshot(&self) -> (res: Snapshot)
        requires
            self.wf(),
        ensures
            res.completed == self@.completed,
            res.matches == self@.matches,
            res.key_bad == self@.key_bad,
            res.connected == self@.connected,
            name_sorted(res.per_host@),
            forall|host: Seq<char>, n: u64| #[trigger]
                lists(res.per_host@, host, n) <==> self@.per_host.contains_key(host)
                    && self@.per_host[host] == n,
    {
        Snapshot {
            completed: self.completed,
            matches: self.matches,
            per_host: self.per_host.by_name(),
            key_bad: self.key_bad,
            connected: self.connected,
        }
    }
}

} // verus!
