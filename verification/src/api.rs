//! What the server answers to nodes: who is let in, and the leaderboard.

use crate::proto::{NodeStatsEntry, StatsResponse, WindowCounts, PROTOCOL_VERSION};
use crate::registry::{node_name, reports_all, token_hash, NodeReport, Registry, RegistryV};
use crate::sorted::{lemma_sorts_with, lemma_sorts_with_on, sorts_with};
use crate::stats::NodeWindows;
use crate::text::{chars_of, decimal, parse_unsigned, parsed_unsigned, push_decimal, same_text, text_before};
use vstd::prelude::*;
use vstd::string::{StrSliceExecFns, StringExecFns};

verus! {

/// A poll is kept no longer than this.
pub const MAX_WAIT_MS: u64 = 30_000;

/// Bodies are no longer than this.
pub const MAX_BODY_BYTES: usize = 16_777_216;

/// A node that was heard of in the last two minutes is online.
pub const ONLINE_SECS: u64 = 120;

pub const NAME_MAX: usize = 32;

/// An answer that is not a success.
#[derive(Clone, Debug, PartialEq, Eq)]
pub struct Refusal {
    pub status: u16,
    pub message: String,
}

#[verifier::ext_equal]
pub struct RefusalV {
    pub status: u16,
    pub message: Seq<char>,
}

impl View for Refusal {
    type V = RefusalV;

    open spec fn view(&self) -> RefusalV {
        RefusalV { status: self.status, message: self.message@ }
    }
}

/// The refusals of a check, as far as it can be refused.
pub open spec fn refused<T>(res: Result<T, Refusal>, status: u16, message: Seq<char>) -> bool {
    res matches Err(r) && r@ == (RefusalV { status, message })
}

fn refuse(status: u16, message: &str) -> (res: Refusal)
    ensures
        res@ == (RefusalV { status, message: message@ }),
{
    Refusal { status, message: message.to_string() }
}

// ---- who is let in ----

/// A header that names the protocol that is spoken here.
pub open spec fn speaks(header: Option<Seq<char>>) -> bool {
    match header {
        Some(h) => parsed_unsigned(h, u32::MAX as int) == Some(PROTOCOL_VERSION as int),
        None => false,
    }
}

/// What a node is told that speaks another protocol.
pub open spec fn mismatch_text() -> Seq<char> {
    "protocol version mismatch (server speaks v"@ + decimal(PROTOCOL_VERSION as int)
        + "); please update crawler-node"@
}

/// What who speaks another protocol is told.
pub open spec fn proto_refusal() -> RefusalV {
    RefusalV { status: 426, message: mismatch_text() }
}

/// What who has no token is told.
pub open spec fn token_refusal() -> RefusalV {
    RefusalV { status: 401, message: "invalid or unknown token"@ }
}

/// An optional header.
pub open spec fn header_text(header: Option<&str>) -> Option<Seq<char>> {
    match header {
        Some(h) => Some(h@),
        None => None,
    }
}

/// Lets in who speaks the protocol. A break of the protocol makes old nodes
/// say so and stop.
pub fn check_proto(header: Option<&str>) -> (res: Result<(), Refusal>)
    ensures
        res is Ok <==> speaks(header_text(header)),
        res is Err ==> refused(res, proto_refusal().status, proto_refusal().message),
{
    if let Some(h) = header {
        if let Some(v) = parse_unsigned(&chars_of(h), u32::MAX as u64) {
            if v == PROTOCOL_VERSION as u64 {
                return Ok(());
            }
        }
    }
    let mut message = "protocol version mismatch (server speaks v".to_string();
    push_decimal(&mut message, PROTOCOL_VERSION as u64);
    message.append("); please update crawler-node");
    Err(Refusal { status: 426, message })
}

/// The token in an authorization header.
pub open spec fn token_in(header: Option<Seq<char>>) -> Option<Seq<char>> {
    match header {
        Some(h) => if h.len() >= "Bearer "@.len() && h.take("Bearer "@.len() as int) == "Bearer "@ {
            Some(h.skip("Bearer "@.len() as int))
        } else {
            None
        },
        None => None,
    }
}

/// The token in an authorization header.
pub fn bearer_token<'a>(header: Option<&'a str>) -> (res: Option<&'a str>)
    ensures
        header_text(res) == token_in(header_text(header)),
{
    let h = match header {
        Some(h) => h,
        None => {
            return None;
        },
    };
    proof {
        reveal_strlit("Bearer ");
    }
    let n: usize = h.unicode_len();
    if n < 7 {
        return None;
    }
    let head = h.substring_char(0, 7);
    assert(head@ =~= h@.take(7));
    if !same_text(head, "Bearer ") {
        return None;
    }
    let token = h.substring_char(7, n);
    assert(token@ =~= h@.skip(7));
    Some(token)
}

/// The node that a token belongs to.
pub open spec fn known_node(r: RegistryV, header: Option<Seq<char>>) -> Option<u32> {
    match token_in(header) {
        Some(t) => if r.tokens.contains_key(token_hash(t)) {
            Some(r.tokens[token_hash(t)])
        } else {
            None
        },
        None => None,
    }
}

/// Lets in the nodes that have a token.
pub fn auth(registry: &Registry, header: Option<&str>) -> (res: Result<u32, Refusal>)
    ensures
        match known_node(registry@, header_text(header)) {
            Some(id) => res == Ok::<u32, Refusal>(id),
            None => refused(res, token_refusal().status, token_refusal().message),
        },
{
    if let Some(token) = bearer_token(header) {
        if let Some(id) = registry.auth(token) {
            return Ok(id);
        }
    }
    Err(refuse(401, "invalid or unknown token"))
}

/// A character of a node's name.
pub open spec fn is_name_char(c: char) -> bool {
    ('a' <= c && c <= 'z') || ('0' <= c && c <= '9') || c == '-' || c == '_'
}

/// A text that can be the name of a node.
pub open spec fn is_valid_name(s: Seq<char>) -> bool {
    1 <= s.len() <= NAME_MAX && forall|i: int| 0 <= i < s.len() ==> is_name_char(#[trigger] s[i])
}

pub fn valid_name(name: &str) -> (res: bool)
    ensures
        res == is_valid_name(name@),
{
    let text = chars_of(name);
    if text.len() < 1 || text.len() > NAME_MAX {
        return false;
    }
    let mut i: usize = 0;
    while i < text.len()
        invariant
            text@ == name@,
            i <= text@.len(),
            forall|k: int| 0 <= k < i ==> is_name_char(#[trigger] name@[k]),
        decreases text@.len() - i,
    {
        let c: char = text[i];
        if !(('a' <= c && c <= 'z') || ('0' <= c && c <= '9') || c == '-' || c == '_') {
            assert(!is_name_char(name@[i as int]));
            return false;
        }
        i = i + 1;
    }
    true
}

/// A name that a node has.
pub open spec fn is_taken(r: RegistryV, name: Seq<char>) -> bool {
    exists|id: u32| #[trigger] r.nodes.contains_key(id) && r.nodes[id].name == name
}

/// Why a node may not enrol under a name, if so: the status and the message.
pub open spec fn enroll_refusal(r: RegistryV, proto: Option<Seq<char>>, name: Seq<char>) -> Option<
    RefusalV,
> {
    if !speaks(proto) {
        Some(RefusalV { status: 426, message: mismatch_text() })
    } else if !is_valid_name(name) {
        Some(RefusalV { status: 400, message: "name must be [a-z0-9_-]{1,32}"@ })
    } else if is_taken(r, name) {
        Some(RefusalV { status: 409, message: "node name already taken on this server"@ })
    } else {
        None
    }
}

/// Whether a node may enrol under a name, before its invite code is looked at:
/// no code is used up for a request that is refused anyway.
pub fn check_enroll(registry: &Registry, proto: Option<&str>, name: &str) -> (res: Result<
    (),
    Refusal,
>)
    ensures
        match enroll_refusal(registry@, header_text(proto), name@) {
            Some(r) => refused(res, r.status, r.message),
            None => res is Ok,
        },
{
    if let Err(r) = check_proto(proto) {
        return Err(r);
    }
    if !valid_name(name) {
        return Err(refuse(400, "name must be [a-z0-9_-]{1,32}"));
    }
    if registry.name_taken(name) {
        return Err(refuse(409, "node name already taken on this server"));
    }
    Ok(())
}

/// Why an invite code does not let a node in, if so.
pub open spec fn invite_refusal(consumed: Option<bool>) -> Option<RefusalV> {
    match consumed {
        Some(true) => None,
        Some(false) => Some(
            RefusalV { status: 403, message: "invalid or already-used invite code"@ },
        ),
        None => Some(RefusalV { status: 500, message: "invite check failed"@ }),
    }
}

/// What follows the look at an invite code: whether it was there, or could not
/// be looked at.
pub fn check_invite(consumed: Option<bool>) -> (res: Result<(), Refusal>)
    ensures
        match invite_refusal(consumed) {
            Some(r) => refused(res, r.status, r.message),
            None => res is Ok,
        },
{
    match consumed {
        Some(true) => Ok(()),
        Some(false) => Err(refuse(403, "invalid or already-used invite code")),
        None => Err(refuse(500, "invite check failed")),
    }
}

/// How long a poll is kept.
pub open spec fn kept_for(wait_ms: u64) -> u64 {
    if wait_ms <= MAX_WAIT_MS {
        wait_ms
    } else {
        MAX_WAIT_MS
    }
}

/// How long a poll is kept.
pub fn poll_wait_ms(wait_ms: u64) -> (res: u64)
    ensures
        res == kept_for(wait_ms),
{
    if wait_ms <= MAX_WAIT_MS {
        wait_ms
    } else {
        MAX_WAIT_MS
    }
}

// ---- the leaderboard ----

/// The windows of a node, if there are any.
pub open spec fn windows_for(windows: Seq<NodeWindows>, id: u32) -> Option<NodeWindows>
    decreases windows.len(),
{
    if windows.len() == 0 {
        None
    } else if windows.last().node_id == id {
        Some(windows.last())
    } else {
        windows_for(windows.drop_last(), id)
    }
}

pub open spec fn no_counts() -> WindowCounts {
    WindowCounts { m60: 0, h24: 0, d7: 0, all: 0 }
}

pub open spec fn request_counts(w: Option<NodeWindows>) -> WindowCounts {
    match w {
        Some(w) => WindowCounts {
            m60: w.m60.requests,
            h24: w.h24.requests,
            d7: w.d7.requests,
            all: w.all.requests,
        },
        None => no_counts(),
    }
}

pub open spec fn match_counts(w: Option<NodeWindows>) -> WindowCounts {
    match w {
        Some(w) => WindowCounts {
            m60: w.m60.matches,
            h24: w.h24.matches,
            d7: w.d7.matches,
            all: w.all.matches,
        },
        None => no_counts(),
    }
}

/// What the leaderboard says of a node.
pub open spec fn entry_of(rep: NodeReport, windows: Seq<NodeWindows>) -> NodeStatsEntry {
    let w = windows_for(windows, rep.id);
    NodeStatsEntry {
        name: rep.name,
        online: rep.idle_secs matches Some(s) && s < ONLINE_SECS,
        requests: request_counts(w),
        matches: match_counts(w),
    }
}

/// What the leaderboard says of all nodes.
pub open spec fn entries_of(reports: Seq<NodeReport>, windows: Seq<NodeWindows>) -> Seq<
    NodeStatsEntry,
> {
    reports.map_values(|r: NodeReport| entry_of(r, windows))
}

/// More requests come first; with as many, the name that sorts first.
pub open spec fn ranks_with(a: NodeStatsEntry, b: NodeStatsEntry) -> bool {
    a.requests.all > b.requests.all || (a.requests.all == b.requests.all && sorts_with(
        a.name@,
        b.name@,
    ))
}

/// In the order of the leaderboard.
pub open spec fn ranked(list: Seq<NodeStatsEntry>) -> bool {
    forall|i: int, j: int|
        0 <= i < j < list.len() ==> ranks_with(#[trigger] list[i], #[trigger] list[j])
}

proof fn lemma_ranks_on(a: NodeStatsEntry, b: NodeStatsEntry, c: NodeStatsEntry)
    requires
        ranks_with(a, b),
        ranks_with(b, c),
    ensures
        ranks_with(a, c),
{
    if a.requests.all == b.requests.all && b.requests.all == c.requests.all {
        lemma_sorts_with_on(a.name@, b.name@, c.name@);
    }
}

/// Whether an entry is to come before one that is in its place already.
fn comes_first(a: &NodeStatsEntry, b: &NodeStatsEntry) -> (res: bool)
    ensures
        res ==> ranks_with(*a, *b),
        !res ==> ranks_with(*b, *a),
{
    proof {
        lemma_sorts_with(a.name@, b.name@);
        lemma_sorts_with(b.name@, a.name@);
    }
    if a.requests.all != b.requests.all {
        return a.requests.all > b.requests.all;
    }
    text_before(a.name.as_str(), b.name.as_str())
}

fn insert_ranked(list: &mut Vec<NodeStatsEntry>, entry: NodeStatsEntry)
    requires
        ranked(old(list)@),
    ensures
        ranked(final(list)@),
        final(list)@.to_multiset() == old(list)@.to_multiset().insert(entry),
{
    let ghost was = list@;
    let mut k: usize = list.len();
    while k > 0 && comes_first(&entry, &list[k - 1])
        invariant
            list@ == was,
            ranked(was),
            k <= was.len(),
            forall|i: int| k <= i < was.len() ==> ranks_with(entry, #[trigger] was[i]),
        ensures
            k == 0 || ranks_with(was[k - 1], entry),
        decreases k,
    {
        k = k - 1;
    }
    proof {
        assert forall|i: int| 0 <= i < k implies ranks_with(#[trigger] was[i], entry) by {
            if i < k - 1 {
                assert(ranks_with(was[i], was[k - 1]));
                lemma_ranks_on(was[i], was[k - 1], entry);
            }
        }
    }
    list.insert(k, entry);
    proof {
        let out = list@;
        was.to_multiset_ensures();
        vstd::seq_lib::to_multiset_insert(was, k as int, entry);
        assert forall|i: int, j: int| 0 <= i < j < out.len() implies ranks_with(
            #[trigger] out[i],
            #[trigger] out[j],
        ) by {
            if i != k && j != k {
                let a = if i < k { i } else { i - 1 };
                let b = if j < k { j } else { j - 1 };
                assert(ranks_with(was[a], was[b]));
            }
        }
    }
}

fn find_windows(windows: &Vec<NodeWindows>, id: u32) -> (res: Option<NodeWindows>)
    ensures
        res == windows_for(windows@, id),
{
    let mut found: Option<NodeWindows> = None;
    let mut i: usize = 0;
    assert(windows@.take(0) =~= Seq::empty());
    while i < windows.len()
        invariant
            i <= windows@.len(),
            found == windows_for(windows@.take(i as int), id),
        decreases windows@.len() - i,
    {
        assert(windows@.take(i + 1).drop_last() =~= windows@.take(i as int));
        if windows[i].node_id == id {
            found = Some(windows[i]);
        }
        i = i + 1;
    }
    assert(windows@.take(i as int) =~= windows@);
    found
}

fn counts(
    w: Option<NodeWindows>,
) -> (res: (WindowCounts, WindowCounts))
    ensures
        res == (request_counts(w), match_counts(w)),
{
    match w {
        Some(w) => (
            WindowCounts {
                m60: w.m60.requests,
                h24: w.h24.requests,
                d7: w.d7.requests,
                all: w.all.requests,
            },
            WindowCounts {
                m60: w.m60.matches,
                h24: w.h24.matches,
                d7: w.d7.matches,
                all: w.all.matches,
            },
        ),
        None => (
            WindowCounts { m60: 0, h24: 0, d7: 0, all: 0 },
            WindowCounts { m60: 0, h24: 0, d7: 0, all: 0 },
        ),
    }
}

/// The leaderboard: every node once, in its order.
pub fn leaderboard(reports: &Vec<NodeReport>, windows: &Vec<NodeWindows>) -> (res: Vec<
    NodeStatsEntry,
>)
    ensures
        ranked(res@),
        res@.to_multiset() == entries_of(reports@, windows@).to_multiset(),
{
    let mut out: Vec<NodeStatsEntry> = Vec::new();
    let ghost all = entries_of(reports@, windows@);
    let mut i: usize = 0;
    assert(all.take(0) =~= out@);
    while i < reports.len()
        invariant
            all == entries_of(reports@, windows@),
            i <= reports@.len(),
            ranked(out@),
            out@.to_multiset() == all.take(i as int).to_multiset(),
        decreases reports@.len() - i,
    {
        let rep = &reports[i];
        let (requests, matches): (WindowCounts, WindowCounts) = counts(
            find_windows(windows, rep.id),
        );
        let online = match rep.idle_secs {
            Some(s) => s < ONLINE_SECS,
            None => false,
        };
        let entry = NodeStatsEntry { name: rep.name.clone(), online, requests, matches };
        proof {
            assert(entry == all[i as int]);
            assert(all.take(i + 1) =~= all.take(i as int).push(entry));
            all.take(i as int).to_multiset_ensures();
        }
        insert_ranked(&mut out, entry);
        i = i + 1;
    }
    assert(all.take(i as int) =~= all);
    out
}

/// The answer to a node that asks for the leaderboard.
pub fn stats_response(
    registry: &Registry,
    node: u32,
    windows: &Vec<NodeWindows>,
    now_ms: u64,
) -> (res: StatsResponse)
    ensures
        res.you@ == node_name(registry@, node),
        res.generated_ms == now_ms,
        ranked(res.nodes@),
        exists|reports: Seq<NodeReport>| #[trigger]
            reports_all(registry@, reports, now_ms)
                && res.nodes@.to_multiset() == entries_of(reports, windows@).to_multiset(),
{
    let reports = registry.report(now_ms);
    let nodes = leaderboard(&reports, windows);
    assert(reports_all(registry@, reports@, now_ms));
    StatsResponse { you: registry.name_of(node), nodes, generated_ms: now_ms }
}

} // verus!
