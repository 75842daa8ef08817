//! Counters of stored matches, and the line that is written every minute.

use crate::config::Region;
use crate::named::Named;
use crate::registry::{one_more, NodeReport};
use crate::sorted::{lists, name_sorted};
use crate::text::{decimal, push_decimal};
use vstd::prelude::*;
use vstd::string::StringExecFns;

verus! {

/// Matches stored since the start, for each platform.
pub struct Metrics {
    games: Named<u64>,
}

impl View for Metrics {
    type V = Map<Seq<char>, u64>;

    closed spec fn view(&self) -> Map<Seq<char>, u64> {
        self.games@
    }
}

/// A counter at zero for each of the regions.
pub open spec fn zeroed(regions: Seq<Region>) -> Map<Seq<char>, u64> {
    Map::new(
        |p: Seq<char>| exists|i: int| 0 <= i < regions.len() && (#[trigger] regions[i]).platform@ == p,
        |p: Seq<char>| 0u64,
    )
}

impl Metrics {
    pub closed spec fn wf(&self) -> bool {
        self.games.wf()
    }

    pub fn new(regions: &[Region]) -> (res: Self)
        ensures
            res.wf(),
            res@ == zeroed(regions@),
    {
        let mut games: Named<u64> = Named::new();
        let mut i: usize = 0;
        assert(games@ =~= zeroed(regions@.take(0)));
        while i < regions.len()
            invariant
                i <= regions@.len(),
                games.wf(),
                games@ == zeroed(regions@.take(i as int)),
            decreases regions@.len() - i,
        {
            let ghost was = games@;
            let ghost before = regions@.take(i as int);
            let ghost after = regions@.take(i + 1);
            games.put(regions[i].platform.to_string(), 0);
            proof {
                let key = regions@[i as int].platform@;
                assert(after =~= before.push(regions@[i as int]));
                assert forall|p: Seq<char>| #[trigger] games@.contains_key(p) == zeroed(
                    after,
                ).contains_key(p) by {
                    if zeroed(before).contains_key(p) {
                        let j = choose|j: int|
                            0 <= j < before.len() && (#[trigger] before[j]).platform@ == p;
                        assert(after[j].platform@ == p);
                    }
                    if p == key {
                        assert(after[i as int].platform@ == p);
                    }
                    if zeroed(after).contains_key(p) && p != key {
                        let j = choose|j: int|
                            0 <= j < after.len() && (#[trigger] after[j]).platform@ == p;
                        assert(before[j].platform@ == p);
                    }
                }
                assert(games@ =~= zeroed(after));
            }
            i = i + 1;
        }
        assert(regions@.take(i as int) =~= regions@);
        Metrics { games }
    }

    /// Counts a stored match. A platform that is not counted is ignored.
    pub fn inc_games(&mut self, platform: &str)
        requires
            old(self).wf(),
        ensures
            final(self).wf(),
            final(self)@ == (if old(self)@.contains_key(platform@) {
                old(self)@.insert(platform@, one_more(old(self)@[platform@]))
            } else {
                old(self)@
            }),
    {
        let found: Option<u64> = match self.games.get(platform) {
            Some(n) => Some(*n),
            None => None,
        };
        if let Some(n) = found {
            self.games.put(platform.to_string(), n.saturating_add(1));
        }
    }

    /// The counters, in the order of the platforms.
    pub fn totals(&self) -> (res: Vec<(String, u64)>)
        requires
            self.wf(),
        ensures
            name_sorted(res@),
            forall|p: Seq<char>, n: u64| #[trigger]
                lists(res@, p, n) <==> self@.contains_key(p) && self@[p] == n,
    {
        self.games.by_name()
    }
}

// ---- the line ----

/// What was there a minute ago.
pub open spec fn earlier_of(prev: Map<Seq<char>, u64>, name: Seq<char>) -> u64 {
    if prev.contains_key(name) {
        prev[name]
    } else {
        0
    }
}

/// By how much a counter grew; none ever shrinks.
pub open spec fn growth(prev: Map<Seq<char>, u64>, name: Seq<char>, total: u64) -> int {
    if total >= earlier_of(prev, name) {
        total - earlier_of(prev, name)
    } else {
        0
    }
}

/// The counters after some were looked at.
pub open spec fn noted(prev: Map<Seq<char>, u64>, totals: Seq<(String, u64)>) -> Map<Seq<char>, u64>
    decreases totals.len(),
{
    if totals.len() == 0 {
        prev
    } else {
        noted(prev, totals.drop_last()).insert(totals.last().0@, totals.last().1)
    }
}

/// Two spaces between two parts.
pub open spec fn and_then(line: Seq<char>, part: Seq<char>, first: bool) -> Seq<char> {
    if first {
        part
    } else {
        line + "  "@ + part
    }
}

/// A counter, by how much it grew, and its total.
pub open spec fn growth_text(prev: Map<Seq<char>, u64>, name: Seq<char>, total: u64) -> Seq<char> {
    name + "=+"@ + decimal(growth(prev, name, total)) + " (total "@ + decimal(total as int) + ")"@
}

/// The counters, each by how much it grew.
pub open spec fn growth_line(prev: Map<Seq<char>, u64>, totals: Seq<(String, u64)>) -> Seq<char>
    decreases totals.len(),
{
    if totals.len() == 0 {
        Seq::empty()
    } else {
        let rest = totals.drop_last();
        let (name, total) = totals.last();
        and_then(
            growth_line(prev, rest),
            growth_text(noted(prev, rest), name@, total),
            rest.len() == 0,
        )
    }
}

/// Writes by how much each counter grew, and notes its total.
pub fn write_growth(prev: &mut Named<u64>, totals: &Vec<(String, u64)>) -> (res: String)
    requires
        old(prev).wf(),
    ensures
        final(prev).wf(),
        final(prev)@ == noted(old(prev)@, totals@),
        res@ == growth_line(old(prev)@, totals@),
{
    let ghost start = prev@;
    let mut out = String::new();
    let mut i: usize = 0;
    assert(totals@.take(0) =~= Seq::empty());
    while i < totals.len()
        invariant
            i <= totals@.len(),
            prev.wf(),
            prev@ == noted(start, totals@.take(i as int)),
            out@ == growth_line(start, totals@.take(i as int)),
        decreases totals@.len() - i,
    {
        let ghost line = out@;
        assert(totals@.take(i + 1).drop_last() =~= totals@.take(i as int));
        let (name, total) = &totals[i];
        let before: u64 = match prev.get(name.as_str()) {
            Some(n) => *n,
            None => 0,
        };
        if i > 0 {
            out.append("  ");
        }
        let ghost head = out@;
        out.append(name.as_str());
        out.append("=+");
        push_decimal(&mut out, total.saturating_sub(before));
        out.append(" (total ");
        push_decimal(&mut out, *total);
        out.append(")");
        proof {
            let part = growth_text(prev@, name@, *total);
            assert(out@ =~= head + part);
            if i == 0 {
                assert(line =~= Seq::empty());
                assert(out@ =~= part);
            } else {
                assert(out@ =~= line + "  "@ + part);
            }
        }
        prev.put(name.clone(), *total);
        i = i + 1;
    }
    assert(totals@.take(i as int) =~= totals@);
    out
}

/// What the line says of the audits of a node, if there were any.
pub open spec fn audits_text(r: NodeReport) -> Seq<char> {
    if r.audits_pass > 0 || r.audits_soft_fail > 0 || r.audits_hard_fail > 0 {
        " audits:"@ + decimal(r.audits_pass as int) + "ok/"@ + decimal(r.audits_soft_fail as int)
            + "soft/"@ + decimal(r.audits_hard_fail as int) + "FAIL"@
    } else {
        Seq::empty()
    }
}

/// What the line says of a node's key.
pub open spec fn key_text(r: NodeReport) -> Seq<char> {
    if r.key_bad {
        " KEY-BAD"@
    } else {
        Seq::empty()
    }
}

/// What the line says of a node that was not heard of for a while.
pub open spec fn idle_text(r: NodeReport) -> Seq<char> {
    match r.idle_secs {
        Some(s) => if s > 120 {
            " idle:"@ + decimal(s as int / 60) + "m"@
        } else {
            Seq::empty()
        },
        None => " offline"@,
    }
}

/// What the line says of a node.
pub open spec fn node_text(prev: Map<Seq<char>, u64>, r: NodeReport) -> Seq<char> {
    r.name@ + "=+"@ + decimal(growth(prev, r.name@, r.completed)) + audits_text(r) + key_text(r)
        + idle_text(r)
}

fn write_node(before: u64, r: &NodeReport, Ghost(prev): Ghost<Map<Seq<char>, u64>>) -> (res: String)
    requires
        before == earlier_of(prev, r.name@),
    ensures
        res@ == node_text(prev, *r),
{
    let mut out = r.name.clone();
    out.append("=+");
    push_decimal(&mut out, r.completed.saturating_sub(before));
    let ghost head = out@;
    if r.audits_pass > 0 || r.audits_soft_fail > 0 || r.audits_hard_fail > 0 {
        out.append(" audits:");
        push_decimal(&mut out, r.audits_pass);
        out.append("ok/");
        push_decimal(&mut out, r.audits_soft_fail);
        out.append("soft/");
        push_decimal(&mut out, r.audits_hard_fail);
        out.append("FAIL");
    }
    assert(out@ =~= head + audits_text(*r));
    if r.key_bad {
        out.append(" KEY-BAD");
    }
    assert(out@ =~= head + audits_text(*r) + key_text(*r));
    match r.idle_secs {
        Some(s) => {
            if s > 120 {
                out.append(" idle:");
                push_decimal(&mut out, s / 60);
                out.append("m");
            }
        },
        None => {
            out.append(" offline");
        },
    }
    assert(out@ =~= head + audits_text(*r) + key_text(*r) + idle_text(*r));
    out
}

/// The counters of nodes after their reports were looked at.
pub open spec fn nodes_noted(prev: Map<Seq<char>, u64>, reports: Seq<NodeReport>) -> Map<
    Seq<char>,
    u64,
>
    decreases reports.len(),
{
    if reports.len() == 0 {
        prev
    } else {
        nodes_noted(prev, reports.drop_last()).insert(reports.last().name@, reports.last().completed)
    }
}

/// What the line says of the nodes.
pub open spec fn nodes_line(prev: Map<Seq<char>, u64>, reports: Seq<NodeReport>) -> Seq<char>
    decreases reports.len(),
{
    if reports.len() == 0 {
        Seq::empty()
    } else {
        let rest = reports.drop_last();
        and_then(
            nodes_line(prev, rest),
            node_text(nodes_noted(prev, rest), reports.last()),
            rest.len() == 0,
        )
    }
}

/// Writes what is to be said of the nodes, and notes what they completed.
pub fn write_nodes(prev: &mut Named<u64>, reports: &Vec<NodeReport>) -> (res: String)
    requires
        old(prev).wf(),
    ensures
        final(prev).wf(),
        final(prev)@ == nodes_noted(old(prev)@, reports@),
        res@ == (if reports@.len() == 0 {
            "none enrolled"@
        } else {
            nodes_line(old(prev)@, reports@)
        }),
{
    if reports.len() == 0 {
        return "none enrolled".to_string();
    }
    let ghost start = prev@;
    let mut out = String::new();
    let mut i: usize = 0;
    assert(reports@.take(0) =~= Seq::empty());
    while i < reports.len()
        invariant
            i <= reports@.len(),
            prev.wf(),
            prev@ == nodes_noted(start, reports@.take(i as int)),
            out@ == nodes_line(start, reports@.take(i as int)),
        decreases reports@.len() - i,
    {
        let ghost line = out@;
        assert(reports@.take(i + 1).drop_last() =~= reports@.take(i as int));
        let r = &reports[i];
        let before: u64 = match prev.get(r.name.as_str()) {
            Some(n) => *n,
            None => 0,
        };
        let part = write_node(before, r, Ghost(prev@));
        if i > 0 {
            out.append("  ");
        }
        out.append(part.as_str());
        proof {
            if i == 0 {
                assert(line =~= Seq::empty());
                assert(out@ =~= part@);
            }
        }
        prev.put(r.name.clone(), r.completed);
        i = i + 1;
    }
    assert(reports@.take(i as int) =~= reports@);
    out
}

/// A number in decimal, with at least two digits.
pub open spec fn two_digits(n: int) -> Seq<char> {
    if n < 10 {
        "0"@ + decimal(n)
    } else {
        decimal(n)
    }
}

/// What is written every minute.
pub struct Reporter {
    games: Named<u64>,
    valid: Named<u64>,
    requests: Named<u64>,
    window: u32,
}

/// The counters of the minute before, and how many minutes there were.
#[verifier::ext_equal]
pub struct ReporterV {
    pub games: Map<Seq<char>, u64>,
    pub valid: Map<Seq<char>, u64>,
    pub requests: Map<Seq<char>, u64>,
    pub window: u32,
}

impl View for Reporter {
    type V = ReporterV;

    closed spec fn view(&self) -> ReporterV {
        ReporterV {
            games: self.games@,
            valid: self.valid@,
            requests: self.requests@,
            window: self.window,
        }
    }
}

/// The number of the next minute.
pub open spec fn next_window(r: ReporterV) -> u32 {
    if r.window < u32::MAX {
        (r.window + 1) as u32
    } else {
        r.window
    }
}

impl Reporter {
    pub closed spec fn wf(&self) -> bool {
        self.games.wf() && self.valid.wf() && self.requests.wf()
    }

    pub fn new() -> (res: Self)
        ensures
            res.wf(),
            res@ == (ReporterV {
                games: Map::empty(),
                valid: Map::empty(),
                requests: Map::empty(),
                window: 0,
            }),
    {
        Reporter { games: Named::new(), valid: Named::new(), requests: Named::new(), window: 0 }
    }

    /// The line for one more minute.
    pub fn line(
        &mut self,
        games: &Vec<(String, u64)>,
        valid: &Vec<(String, u64)>,
        nodes: &Vec<NodeReport>,
        queued: u64,
        leased: u64,
    ) -> (res: String)
        requires
            old(self).wf(),
        ensures
            final(self).wf(),
            final(self)@ == (ReporterV {
                games: noted(old(self)@.games, games@),
                valid: noted(old(self)@.valid, valid@),
                requests: nodes_noted(old(self)@.requests, nodes@),
                window: next_window(old(self)@),
            }),
            res@ == "[window "@ + two_digits(next_window(old(self)@) as int) + "] games/60s: "@
                + growth_line(old(self)@.games, games@) + " | valid samples: "@ + growth_line(
                old(self)@.valid,
                valid@,
            ) + " | nodes: "@ + (if nodes@.len() == 0 {
                "none enrolled"@
            } else {
                nodes_line(old(self)@.requests, nodes@)
            }) + " | jobs: "@ + decimal(queued as int) + " queued, "@ + decimal(leased as int)
                + " leased"@,
    {
        self.window = self.window.saturating_add(1);
        let games_line = write_growth(&mut self.games, games);
        let valid_line = write_growth(&mut self.valid, valid);
        let nodes_text = write_nodes(&mut self.requests, nodes);
        let mut out = "[window ".to_string();
        let ghost head = out@;
        if self.window < 10 {
            out.append("0");
        }
        push_decimal(&mut out, self.window as u64);
        assert(out@ =~= head + two_digits(self.window as int));
        out.append("] games/60s: ");
        out.append(games_line.as_str());
        out.append(" | valid samples: ");
        out.append(valid_line.as_str());
        out.append(" | nodes: ");
        out.append(nodes_text.as_str());
        out.append(" | jobs: ");
        push_decimal(&mut out, queued);
        out.append(" queued, ");
        push_decimal(&mut out, leased);
        out.append(" leased");
        out
    }
}

} // verus!
