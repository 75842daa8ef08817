//! Who is let in, and what the leaderboard says, told from outside.

use crate::api::{
    enroll_refusal, entries_of, entry_of, invite_refusal, kept_for, known_node, proto_refusal,
    ranked, token_in, token_refusal,
};
use crate::limit_laws::lemma_decimal_digits;
use crate::proto::NodeStatsEntry;
use crate::registry::{node_name, token_hash, NodeReport, RegistryV};
use crate::stats::{stats_of, windows_of, NodeWindows};
use crate::stats_laws::{
    after_events, in_time_order, law_windows_go_by_the_clock, tally, tally_all, StatsEvent,
};
use crate::text::{decimal, law_decimal_roundtrip, sorts_before};
use vstd::prelude::*;

verus! {

// ---- who is let in ----

/// A name of one to 32 characters, each a lowercase letter, a digit, a hyphen
/// or an underscore.
pub open spec fn good_name(name: Seq<char>) -> bool {
    &&& 1 <= name.len() <= 32
    &&& forall|i: int|
        0 <= i < name.len() ==> {
            let c = #[trigger] name[i];
            'a' <= c <= 'z' || '0' <= c <= '9' || c == '-' || c == '_'
        }
}

/// Some node has a name.
pub open spec fn name_in_use(r: RegistryV, name: Seq<char>) -> bool {
    exists|id: u32| #[trigger] r.nodes.contains_key(id) && r.nodes[id].name == name
}

/// Who speaks the first version of the protocol enrols under any good name that
/// nobody has. A bad name is refused as such, and a name in use as that.
pub proof fn law_enrolment(r: RegistryV, name: Seq<char>)
    ensures
        ({
            let refusal = enroll_refusal(r, Some(decimal(1)), name);
            &&& refusal is None <==> good_name(name) && !name_in_use(r, name)
            &&& !good_name(name) ==> refusal->0.status == 400 && refusal->0.message
                == "name must be [a-z0-9_-]{1,32}"@
            &&& good_name(name) && name_in_use(r, name) ==> refusal->0.status == 409
                && refusal->0.message == "node name already taken on this server"@
        }),
{
    law_decimal_roundtrip(1);
    lemma_decimal_digits(1);
}

/// Whoever speaks another version of the protocol, or names none, is told to
/// update, whatever the name.
pub proof fn law_other_protocols_are_refused(r: RegistryV, v: u32, name: Seq<char>)
    requires
        v != 1,
    ensures
        ({
            let text = "protocol version mismatch (server speaks v"@ + decimal(1)
                + "); please update crawler-node"@;
            &&& enroll_refusal(r, Some(decimal(v as int)), name) matches Some(x) && x.status == 426
                && x.message == text
            &&& enroll_refusal(r, None, name) matches Some(x) && x.status == 426 && x.message
                == text
        }),
{
    law_decimal_roundtrip(v as int);
    lemma_decimal_digits(v as int);
}

/// An invite lets in whoever used it up; one that is not there does not, and
/// neither does one that could not be looked at.
pub proof fn law_invites_are_needed(consumed: Option<bool>)
    ensures
        invite_refusal(consumed) is None <==> consumed == Some(true),
        consumed == Some(false) ==> invite_refusal(consumed)->0.status == 403,
        consumed is None ==> invite_refusal(consumed)->0.status == 500,
{
}

/// A token stands after the word `Bearer` and a blank, and nowhere else.
pub proof fn law_tokens_are_borne(token: Seq<char>, header: Seq<char>)
    ensures
        token_in(Some("Bearer "@ + token)) == Some(token),
        token_in(Some(header)) matches Some(t) ==> header == "Bearer "@ + t,
        token_in(None) is None,
{
    reveal_strlit("Bearer ");
    let h = "Bearer "@ + token;
    assert(h.take(7) =~= "Bearer "@);
    assert(h.skip(7) =~= token);
    if token_in(Some(header)) is Some {
        assert(header =~= header.take(7) + header.skip(7));
    }
}

/// A node is who its token says, and nobody is anybody without one that is
/// known.
pub proof fn law_nodes_are_known_by_their_token(r: RegistryV, token: Seq<char>)
    ensures
        known_node(r, Some("Bearer "@ + token)) is Some <==> r.tokens.contains_key(
            token_hash(token),
        ),
        r.tokens.contains_key(token_hash(token)) ==> known_node(r, Some("Bearer "@ + token))
            == Some(r.tokens[token_hash(token)]),
        known_node(r, None) is None,
{
    law_tokens_are_borne(token, token);
}

/// A poll waits as long as it asks to, but for no more than half a minute.
pub proof fn law_polls_wait_half_a_minute(wait_ms: u64)
    ensures
        kept_for(wait_ms) <= wait_ms,
        kept_for(wait_ms) <= 30_000,
        kept_for(wait_ms) == wait_ms || kept_for(wait_ms) == 30_000,
{
}

/// A node is called by its name, or by its number if it is not enrolled.
pub proof fn law_node_names(r: RegistryV, id: u32)
    ensures
        r.nodes.contains_key(id) ==> node_name(r, id) == r.nodes[id].name,
        !r.nodes.contains_key(id) ==> node_name(r, id) == "node#"@ + decimal(id as int),
{
}

// ---- the leaderboard ----

/// The windows of all nodes at a time, each node once.
pub open spec fn all_windows(
    windows: Seq<NodeWindows>,
    events: Seq<StatsEvent>,
    now_ms: u64,
) -> bool {
    let s = after_events(events);
    &&& forall|i: int|
        0 <= i < windows.len() ==> s.contains_key((#[trigger] windows[i]).node_id) && windows[i]
            == windows_of(windows[i].node_id, s[windows[i].node_id], now_ms)
    &&& forall|id: u32| #[trigger]
        s.contains_key(id) ==> exists|i: int|
            0 <= i < windows.len() && (#[trigger] windows[i]).node_id == id
    &&& forall|i: int, j: int|
        0 <= i < j < windows.len() ==> (#[trigger] windows[i]).node_id != (
        #[trigger] windows[j]).node_id
}

/// The leaderboard counts what was counted: of each node its requests under
/// requests and its matches under matches, in the last 60 minutes, 24 hours and
/// 168 hours, and in all. It is online if it was heard of in the last two
/// minutes.
pub proof fn law_leaderboard_counts_requests_and_matches(
    events: Seq<StatsEvent>,
    now_ms: u64,
    windows: Seq<NodeWindows>,
    rep: NodeReport,
)
    requires
        in_time_order(events, now_ms),
        events.len() <= u64::MAX,
        all_windows(windows, events, now_ms),
    ensures
        ({
            let e = entry_of(rep, windows);
            let id = rep.id;
            let minute = now_ms as int / 60_000;
            let hour = now_ms as int / 3_600_000;
            &&& e.name@ == rep.name@
            &&& e.online <==> rep.idle_secs is Some && rep.idle_secs->0 < 120
            &&& e.requests.m60 == tally(events, id, false, 60_000, minute - 59, minute)
            &&& e.matches.m60 == tally(events, id, true, 60_000, minute - 59, minute)
            &&& e.requests.h24 == tally(events, id, false, 3_600_000, hour - 23, hour)
            &&& e.matches.h24 == tally(events, id, true, 3_600_000, hour - 23, hour)
            &&& e.requests.d7 == tally(events, id, false, 3_600_000, hour - 167, hour)
            &&& e.matches.d7 == tally(events, id, true, 3_600_000, hour - 167, hour)
            &&& e.requests.all == tally_all(events, id, false)
            &&& e.matches.all == tally_all(events, id, true)
        }),
{
    let id = rep.id;
    let s = after_events(events);
    law_windows_go_by_the_clock(events, now_ms, id);
    crate::stats_laws::law_windows_nest(events, now_ms, id);
    if s.contains_key(id) {
        let i = choose|i: int| 0 <= i < windows.len() && (#[trigger] windows[i]).node_id == id;
        lemma_found(windows, id, i);
    } else {
        lemma_not_found(windows, id);
        lemma_idle_windows(id, now_ms);
    }
}

proof fn lemma_found(windows: Seq<NodeWindows>, id: u32, i: int)
    requires
        0 <= i < windows.len(),
        windows[i].node_id == id,
        forall|a: int, b: int|
            0 <= a < b < windows.len() ==> (#[trigger] windows[a]).node_id != (
            #[trigger] windows[b]).node_id,
    ensures
        crate::api::windows_for(windows, id) == Some(windows[i]),
    decreases windows.len(),
{
    if i < windows.len() - 1 {
        assert(windows[i].node_id != windows[windows.len() - 1].node_id);
        let rest = windows.drop_last();
        assert forall|a: int, b: int| 0 <= a < b < rest.len() implies (#[trigger] rest[a]).node_id
            != (#[trigger] rest[b]).node_id by {
            assert(rest[a] == windows[a] && rest[b] == windows[b]);
        }
        lemma_found(rest, id, i);
    }
}

proof fn lemma_not_found(windows: Seq<NodeWindows>, id: u32)
    requires
        forall|i: int| 0 <= i < windows.len() ==> (#[trigger] windows[i]).node_id != id,
    ensures
        crate::api::windows_for(windows, id) is None,
    decreases windows.len(),
{
    if windows.len() > 0 {
        assert(windows[windows.len() - 1].node_id != id);
        let rest = windows.drop_last();
        assert forall|i: int| 0 <= i < rest.len() implies (#[trigger] rest[i]).node_id != id by {
            assert(rest[i] == windows[i]);
        }
        lemma_not_found(rest, id);
    }
}

proof fn lemma_idle_windows(id: u32, now_ms: u64)
    ensures
        ({
            let w = windows_of(id, crate::stats::idle_node(), now_ms);
            &&& w.m60 == crate::stats::nothing()
            &&& w.h24 == crate::stats::nothing()
            &&& w.d7 == crate::stats::nothing()
            &&& w.all == crate::stats::nothing()
        }),
{
    let none = Seq::<StatsEvent>::empty();
    assert(stats_of(after_events(none), id) == crate::stats::idle_node());
    law_windows_go_by_the_clock(none, now_ms, id);
}

/// Every node has its entry, and there is no other.
pub proof fn law_leaderboard_has_every_node(
    reports: Seq<NodeReport>,
    windows: Seq<NodeWindows>,
    i: int,
)
    requires
        0 <= i < reports.len(),
    ensures
        entries_of(reports, windows).len() == reports.len(),
        entries_of(reports, windows)[i] == entry_of(reports[i], windows),
{
}

/// A text sorts before another if it is a beginning of it, or smaller in the
/// first character in which they differ.
pub proof fn law_text_order(a: Seq<char>, b: Seq<char>, k: int)
    requires
        0 <= k <= a.len(),
        k <= b.len(),
        forall|i: int| 0 <= i < k ==> #[trigger] a[i] == b[i],
        k < a.len() && k < b.len() ==> a[k] != b[k],
        k == a.len() || k == b.len() || a[k] != b[k],
    ensures
        sorts_before(a, b, 0) <==> (k < b.len() && (k == a.len() || a[k] < b[k])),
{
    lemma_text_order(a, b, k, 0);
}

proof fn lemma_text_order(a: Seq<char>, b: Seq<char>, k: int, i: int)
    requires
        0 <= i <= k <= a.len(),
        k <= b.len(),
        forall|j: int| 0 <= j < k ==> #[trigger] a[j] == b[j],
        k == a.len() || k == b.len() || a[k] != b[k],
    ensures
        sorts_before(a, b, i) <==> (k < b.len() && (k == a.len() || a[k] < b[k])),
    decreases k - i,
{
    if i < k {
        assert(a[i] == b[i]);
        lemma_text_order(a, b, k, i + 1);
    }
}

/// On the leaderboard nobody stands above a node with more requests of all
/// time, nor above one with as many whose name sorts first.
pub proof fn law_leaderboard_order(list: Seq<NodeStatsEntry>, i: int, j: int)
    requires
        ranked(list),
        0 <= i < j < list.len(),
    ensures
        list[i].requests.all >= list[j].requests.all,
        list[i].requests.all == list[j].requests.all ==> list[i].name@ == list[j].name@
            || !sorts_before(list[j].name@, list[i].name@, 0),
{
    let a = list[i].name@;
    let b = list[j].name@;
    crate::sorted::lemma_sorts_with(a, b);
    if a != b {
        assert(a.take(0) =~= b.take(0));
        crate::text::lemma_sorts(a, b, 0);
    }
}

/// Who speaks another protocol is told to update, and who has no token that there
/// is none.
pub proof fn law_refusals_say_why()
    ensures
        proto_refusal().status == 426,
        proto_refusal().message == "protocol version mismatch (server speaks v"@ + decimal(1)
            + "); please update crawler-node"@,
        token_refusal().status == 401,
        token_refusal().message == "invalid or unknown token"@,
{
}

} // verus!
