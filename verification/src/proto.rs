//! What nodes and server say to each other.

use vstd::prelude::*;

verus! {

/// The header that carries the protocol version.
pub const PROTO_HEADER: &'static str = "x-crawler-proto";

pub const PROTOCOL_VERSION: u32 = 1;

/// A request that a node is to make.
#[derive(Clone, Debug, PartialEq, Eq)]
pub struct Job {
    pub id: u64,
    pub host: String,
    pub method: String,
    pub path: String,
    pub lease_ms: u64,
}

/// How a job went.
#[derive(Clone, Copy, Debug, PartialEq, Eq, Structural)]
pub enum JobOutcome {
    Done,
    /// The server of the game says that there is no such thing.
    NotFound,
    /// The node's key was refused.
    KeyRejected,
    Failed,
}

#[derive(Clone, Debug, PartialEq, Eq)]
pub struct JobResult {
    pub id: u64,
    pub outcome: JobOutcome,
    pub body: Option<String>,
    pub error: Option<String>,
}

#[derive(Clone, Debug, PartialEq, Eq)]
pub struct EnrollRequest {
    pub invite_code: String,
    pub name: String,
    pub client_version: String,
}

#[derive(Clone, Debug, PartialEq, Eq)]
pub struct EnrollResponse {
    pub token: String,
    pub name: String,
}

/// Counts over the last hour, day and week, and over all time.
#[derive(Clone, Copy, Debug, PartialEq, Eq, Structural)]
pub struct WindowCounts {
    pub m60: u64,
    pub h24: u64,
    pub d7: u64,
    pub all: u64,
}

#[derive(Clone, Debug, PartialEq, Eq)]
pub struct NodeStatsEntry {
    pub name: String,
    pub online: bool,
    pub requests: WindowCounts,
    pub matches: WindowCounts,
}

#[derive(Clone, Debug, PartialEq, Eq)]
pub struct StatsResponse {
    pub you: String,
    pub nodes: Vec<NodeStatsEntry>,
    pub generated_ms: u64,
}

} // verus!
