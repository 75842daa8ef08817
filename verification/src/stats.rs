//! What each node has contributed: a ring of minutes for the last hour, hours
//! for a week, and totals over all time.

use std::collections::BTreeMap;
use vstd::prelude::*;
use vstd::std_specs::iter::IteratorSpec;

verus! {

pub const MINUTE_MS: u64 = 60_000;

pub const HOUR_MS: u64 = 3_600_000;

/// Hours kept in memory: a week, and the hour that is not over.
pub const RETAIN_HOURS: u64 = 169;

/// The minutes of the ring.
pub const RING: usize = 60;

#[derive(Clone, Copy, Debug, PartialEq, Eq, Structural)]
pub struct Bucket {
    pub requests: u64,
    pub matches: u64,
}

impl Default for Bucket {
    fn default() -> (res: Self)
        ensures
            res == nothing(),
    {
        Bucket { requests: 0, matches: 0 }
    }
}

pub open spec fn nothing() -> Bucket {
    Bucket { requests: 0, matches: 0 }
}

/// A sum of counts that stops at the largest number.
pub open spec fn sum_up_to_max(a: u64, b: u64) -> u64 {
    if a + b <= u64::MAX {
        (a + b) as u64
    } else {
        u64::MAX
    }
}

/// Two buckets together.
pub open spec fn together(a: Bucket, b: Bucket) -> Bucket {
    Bucket {
        requests: sum_up_to_max(a.requests, b.requests),
        matches: sum_up_to_max(a.matches, b.matches),
    }
}

/// All the buckets together.
pub open spec fn all_of(s: Seq<Bucket>) -> Bucket
    decreases s.len(),
{
    if s.len() == 0 {
        nothing()
    } else {
        together(all_of(s.drop_last()), s.last())
    }
}

/// The buckets of the hours from `from` to `to` together.
pub open spec fn hours_between(hours: Seq<(u64, Bucket)>, from: int, to: int) -> Bucket
    decreases hours.len(),
{
    if hours.len() == 0 {
        nothing()
    } else {
        let rest = hours_between(hours.drop_last(), from, to);
        if from <= hours.last().0 <= to {
            together(rest, hours.last().1)
        } else {
            rest
        }
    }
}

/// Each hour once, the earliest first.
pub open spec fn hours_ok(hours: Seq<(u64, Bucket)>) -> bool {
    forall|i: int, j: int|
        0 <= i < j < hours.len() ==> (#[trigger] hours[i]).0 < (#[trigger] hours[j]).0
}

/// How many hours come before one.
pub open spec fn hours_before(hours: Seq<(u64, Bucket)>, hour: u64) -> nat
    decreases hours.len(),
{
    if hours.len() == 0 {
        0
    } else {
        hours_before(hours.drop_last(), hour) + (if hours.last().0 < hour {
            1nat
        } else {
            0nat
        })
    }
}

/// The bucket of an hour; nothing where there is none.
pub open spec fn bucket_at(hours: Seq<(u64, Bucket)>, hour: u64) -> Bucket {
    let k = hours_before(hours, hour) as int;
    if k < hours.len() && hours[k].0 == hour {
        hours[k].1
    } else {
        nothing()
    }
}

pub open spec fn has_hour(hours: Seq<(u64, Bucket)>, hour: u64) -> bool {
    let k = hours_before(hours, hour) as int;
    k < hours.len() && hours[k].0 == hour
}

/// The hours with the bucket of one set.
pub open spec fn hour_set(hours: Seq<(u64, Bucket)>, hour: u64, b: Bucket) -> Seq<(u64, Bucket)> {
    let k = hours_before(hours, hour) as int;
    if k < hours.len() && hours[k].0 == hour {
        hours.update(k, (hour, b))
    } else {
        hours.insert(k, (hour, b))
    }
}

/// The counts of a node.
#[verifier::ext_equal]
pub struct NodeStatsV {
    pub total: Bucket,
    /// By the minute, modulo the length of the ring.
    pub minutes: Seq<Bucket>,
    pub head_minute: u64,
    /// By the start of the hour.
    pub hours: Seq<(u64, Bucket)>,
    pub dirty: Seq<u64>,
}

struct NodeStats {
    total: Bucket,
    minutes: Vec<Bucket>,
    head_minute: u64,
    hours: Vec<(u64, Bucket)>,
    dirty: Vec<u64>,
}

impl View for NodeStats {
    type V = NodeStatsV;

    closed spec fn view(&self) -> NodeStatsV {
        NodeStatsV {
            total: self.total,
            minutes: self.minutes@,
            head_minute: self.head_minute,
            hours: self.hours@,
            dirty: self.dirty@,
        }
    }
}

pub open spec fn node_ok(n: NodeStatsV) -> bool {
    n.minutes.len() == RING && hours_ok(n.hours)
}

/// A node that did nothing yet.
pub open spec fn idle_node() -> NodeStatsV {
    NodeStatsV {
        total: nothing(),
        minutes: Seq::new(RING as nat, |i: int| nothing()),
        head_minute: 0,
        hours: Seq::empty(),
        dirty: Seq::empty(),
    }
}

/// The latest minute, up to `minute`, that has a slot of the ring.
pub open spec fn latest_in_slot(minute: int, slot: int) -> int {
    minute - (minute - slot) % (RING as int)
}

/// The ring with its head moved on to a minute: the slots of the minutes that
/// were passed are empty.
pub open spec fn advanced(n: NodeStatsV, minute: u64) -> NodeStatsV {
    if minute <= n.head_minute {
        n
    } else {
        NodeStatsV {
            minutes: Seq::new(
                RING as nat,
                |i: int|
                    if latest_in_slot(minute as int, i) > n.head_minute {
                        nothing()
                    } else {
                        n.minutes[i]
                    },
            ),
            head_minute: minute,
            ..n
        }
    }
}

/// The start of the hour of a time.
pub open spec fn hour_of(now_ms: u64) -> u64 {
    (now_ms / HOUR_MS * HOUR_MS) as u64
}

/// The hours from `cutoff` on.
pub open spec fn kept_hours(hours: Seq<(u64, Bucket)>, cutoff: u64) -> Seq<(u64, Bucket)> {
    hours.skip(hours_before(hours, cutoff) as int)
}

/// The counts of a node after one more request.
pub open spec fn recorded(n: NodeStatsV, is_match: bool, now_ms: u64) -> NodeStatsV {
    let one = Bucket {
        requests: 1,
        matches: if is_match {
            1
        } else {
            0
        },
    };
    let m = advanced(n, now_ms / MINUTE_MS);
    let slot = (m.head_minute % (RING as u64)) as int;
    let hour = hour_of(now_ms);
    let hours = hour_set(m.hours, hour, together(bucket_at(m.hours, hour), one));
    NodeStatsV {
        total: together(m.total, one),
        minutes: m.minutes.update(slot, together(m.minutes[slot], one)),
        head_minute: m.head_minute,
        hours: if hours.len() > RETAIN_HOURS {
            kept_hours(
                hours,
                if hour >= RETAIN_HOURS * HOUR_MS {
                    (hour - RETAIN_HOURS * HOUR_MS) as u64
                } else {
                    0
                },
            )
        } else {
            hours
        },
        dirty: if m.dirty.contains(hour) {
            m.dirty
        } else {
            m.dirty.push(hour)
        },
    }
}

/// The hour with which a window of `n` hours begins.
pub open spec fn window_start(now_ms: u64, n: int) -> int {
    let h = (now_ms / HOUR_MS) as int;
    if h >= n - 1 {
        (h - (n - 1)) * HOUR_MS
    } else {
        0
    }
}

/// What a node did in the last hour, day and week, and in all.
#[derive(Clone, Copy, Debug, PartialEq, Eq, Structural)]
pub struct NodeWindows {
    pub node_id: u32,
    pub m60: Bucket,
    pub h24: Bucket,
    pub d7: Bucket,
    pub all: Bucket,
}

/// The windows of a node at a time: the last 60 minutes, and the hour that is
/// not over with the 23 or 167 before it. An hour that is yet to come is in none.
pub open spec fn windows_of(id: u32, n: NodeStatsV, now_ms: u64) -> NodeWindows {
    let m = advanced(n, now_ms / MINUTE_MS);
    NodeWindows {
        node_id: id,
        m60: all_of(m.minutes),
        h24: hours_between(m.hours, window_start(now_ms, 24), hour_of(now_ms) as int),
        d7: hours_between(m.hours, window_start(now_ms, 168), hour_of(now_ms) as int),
        all: m.total,
    }
}

pub proof fn lemma_hours_before(hours: Seq<(u64, Bucket)>, hour: u64)
    requires
        hours_ok(hours),
    ensures
        hours_before(hours, hour) <= hours.len(),
        forall|i: int| 0 <= i < hours_before(hours, hour) ==> (#[trigger] hours[i]).0 < hour,
        forall|i: int|
            hours_before(hours, hour) <= i < hours.len() ==> (#[trigger] hours[i]).0 >= hour,
    decreases hours.len(),
{
    if hours.len() > 0 {
        let rest = hours.drop_last();
        assert forall|i: int, j: int| 0 <= i < j < rest.len() implies (#[trigger] rest[i]).0 < (
        #[trigger] rest[j]).0 by {
            assert(rest[i] == hours[i] && rest[j] == hours[j]);
        }
        lemma_hours_before(rest, hour);
        assert forall|i: int| 0 <= i < hours_before(hours, hour) implies (#[trigger] hours[i]).0
            < hour by {
            if i < rest.len() {
                assert(rest[i] == hours[i]);
                if hours_before(rest, hour) <= i {
                    assert(hours[i].0 < hours[hours.len() - 1].0);
                }
            }
        }
        assert forall|i: int| hours_before(hours, hour) <= i < hours.len() implies (
        #[trigger] hours[i]).0 >= hour by {
            if i < rest.len() {
                assert(rest[i] == hours[i]);
            } else if hours.last().0 < hour && hours_before(rest, hour) < rest.len() {
                let k = hours_before(rest, hour) as int;
                assert(rest[k] == hours[k]);
                assert(hours[k].0 < hours[hours.len() - 1].0);
            }
        }
    }
}

pub proof fn lemma_hour_set(hours: Seq<(u64, Bucket)>, hour: u64, b: Bucket)
    requires
        hours_ok(hours),
    ensures
        hours_ok(hour_set(hours, hour, b)),
        has_hour(hour_set(hours, hour, b), hour),
        bucket_at(hour_set(hours, hour, b), hour) == b,
{
    lemma_hours_before(hours, hour);
    let k = hours_before(hours, hour) as int;
    let same = k < hours.len() && hours[k].0 == hour;
    let out = hour_set(hours, hour, b);
    assert(out[k] == (hour, b));
    assert forall|i: int, j: int| 0 <= i < j < out.len() implies (#[trigger] out[i]).0 < (
    #[trigger] out[j]).0 by {
        let oi = if i <= k || same {
            i
        } else {
            i - 1
        };
        let oj = if j <= k || same {
            j
        } else {
            j - 1
        };
        if i != k {
            assert(out[i] == hours[oi]);
        }
        if j != k {
            assert(out[j] == hours[oj]);
        }
        if i == k && !same {
            assert(hours[k].0 >= hour);
        }
    }
    lemma_hours_before(out, hour);
    let e = hours_before(out, hour) as int;
    if e < k {
        assert(out[e].0 < hour) by {
            assert(out[e] == hours[e]);
        }
    } else if e > k {
        assert(out[k].0 < hour);
    }
}

pub proof fn lemma_kept_hours(hours: Seq<(u64, Bucket)>, cutoff: u64)
    requires
        hours_ok(hours),
    ensures
        hours_ok(kept_hours(hours, cutoff)),
{
    lemma_hours_before(hours, cutoff);
    let k = hours_before(hours, cutoff) as int;
    let out = kept_hours(hours, cutoff);
    assert forall|i: int, j: int| 0 <= i < j < out.len() implies (#[trigger] out[i]).0 < (
    #[trigger] out[j]).0 by {
        assert(out[i] == hours[k + i] && out[j] == hours[k + j]);
    }
}

fn add_buckets(a: Bucket, b: Bucket) -> (res: Bucket)
    ensures
        res == together(a, b),
{
    Bucket {
        requests: a.requests.saturating_add(b.requests),
        matches: a.matches.saturating_add(b.matches),
    }
}

fn find_hour(hours: &Vec<(u64, Bucket)>, hour: u64) -> (res: usize)
    requires
        hours_ok(hours@),
    ensures
        res == hours_before(hours@, hour),
        res <= hours@.len(),
{
    let mut k: usize = hours.len();
    while k > 0 && hours[k - 1].0 >= hour
        invariant
            k <= hours@.len(),
            forall|i: int| k <= i < hours@.len() ==> (#[trigger] hours@[i]).0 >= hour,
        ensures
            k == 0 || hours@[k - 1].0 < hour,
        decreases k,
    {
        k = k - 1;
    }
    proof {
        lemma_hours_before(hours@, hour);
        let e = hours_before(hours@, hour) as int;
        if e < k {
            assert(hours@[k - 1].0 >= hour);
        } else if e > k {
            assert(hours@[k as int].0 < hour);
        }
    }
    k
}

fn set_hour(hours: &mut Vec<(u64, Bucket)>, hour: u64, b: Bucket)
    requires
        hours_ok(old(hours)@),
    ensures
        final(hours)@ == hour_set(old(hours)@, hour, b),
        hours_ok(final(hours)@),
{
    proof {
        lemma_hour_set(hours@, hour, b);
    }
    let k: usize = find_hour(hours, hour);
    if k < hours.len() && hours[k].0 == hour {
        hours.set(k, (hour, b));
    } else {
        hours.insert(k, (hour, b));
    }
}

fn sum_between(hours: &Vec<(u64, Bucket)>, from: u64, to: u64) -> (res: Bucket)
    ensures
        res == hours_between(hours@, from as int, to as int),
{
    let mut b = Bucket { requests: 0, matches: 0 };
    let mut i: usize = 0;
    assert(hours@.take(0) =~= Seq::empty());
    while i < hours.len()
        invariant
            i <= hours@.len(),
            b == hours_between(hours@.take(i as int), from as int, to as int),
        decreases hours@.len() - i,
    {
        assert(hours@.take(i + 1).drop_last() =~= hours@.take(i as int));
        if from <= hours[i].0 && hours[i].0 <= to {
            b = add_buckets(b, hours[i].1);
        }
        i = i + 1;
    }
    assert(hours@.take(i as int) =~= hours@);
    b
}

fn sum_all(s: &Vec<Bucket>) -> (res: Bucket)
    ensures
        res == all_of(s@),
{
    let mut b = Bucket { requests: 0, matches: 0 };
    let mut i: usize = 0;
    assert(s@.take(0) =~= Seq::empty());
    while i < s.len()
        invariant
            i <= s@.len(),
            b == all_of(s@.take(i as int)),
        decreases s@.len() - i,
    {
        assert(s@.take(i + 1).drop_last() =~= s@.take(i as int));
        b = add_buckets(b, s[i]);
        i = i + 1;
    }
    assert(s@.take(i as int) =~= s@);
    b
}

fn start_of_window(now_ms: u64, n: u64) -> (res: u64)
    requires
        1 <= n,
    ensures
        res == window_start(now_ms, n as int),
{
    let h: u64 = now_ms / HOUR_MS;
    assert(h * HOUR_MS <= now_ms) by (nonlinear_arith)
        requires
            h == now_ms / HOUR_MS,
            HOUR_MS == 3_600_000u64,
    ;
    let from: u64 = h.saturating_sub(n - 1);
    assert(from * HOUR_MS <= h * HOUR_MS) by (nonlinear_arith)
        requires
            from <= h,
            HOUR_MS == 3_600_000u64,
    ;
    from * HOUR_MS
}

fn start_of_hour(now_ms: u64) -> (res: u64)
    ensures
        res == hour_of(now_ms),
{
    let h: u64 = now_ms / HOUR_MS;
    assert(h * HOUR_MS <= now_ms) by (nonlinear_arith)
        requires
            h == now_ms / HOUR_MS,
            HOUR_MS == 3_600_000u64,
    ;
    h * HOUR_MS
}

proof fn lemma_slots_passed(head: int, minute: int, steps: int, i: int)
    requires
        0 <= head < minute,
        steps == (if minute - head < RING {
            minute - head
        } else {
            RING as int
        }),
        0 <= i < RING,
    ensures
        latest_in_slot(minute, i) > head <==> exists|k: int|
            1 <= k <= steps && #[trigger] slot_after(head, k) == i,
{
    let m = latest_in_slot(minute, i);
    assert(m % 60 == i) by (nonlinear_arith)
        requires
            m == minute - (minute - i) % 60,
            0 <= i < 60,
    ;
    assert(minute - 60 < m <= minute) by (nonlinear_arith)
        requires
            m == minute - (minute - i) % 60,
    ;
    if m > head {
        let gap = m - head;
        if gap <= steps {
            assert(slot_after(head, gap) == i);
        } else {
            let r = (i - head) % 60;
            let k = if r == 0 {
                60
            } else {
                r
            };
            assert((head + k) % 60 == i) by (nonlinear_arith)
                requires
                    r == (i - head) % 60,
                    k == r || (r == 0 && k == 60),
                    0 <= i < 60,
            ;
            assert(slot_after(head, k) == i);
        }
    }
    if exists|k: int| 1 <= k <= steps && #[trigger] slot_after(head, k) == i {
        let k = choose|k: int| 1 <= k <= steps && #[trigger] slot_after(head, k) == i;
        let a = head + k;
        assert(a % 60 == i);
        if m < a {
            assert(a - m >= 60) by (nonlinear_arith)
                requires
                    a % 60 == m % 60,
                    a > m,
            ;
        }
    }
}

/// The slot of the `k`-th minute after a head.
pub open spec fn slot_after(head: int, k: int) -> int {
    (head + k) % (RING as int)
}

impl NodeStats {
    fn new() -> (res: Self)
        ensures
            res@ == idle_node(),
    {
        let mut minutes: Vec<Bucket> = Vec::new();
        let mut i: usize = 0;
        while i < RING
            invariant
                i <= RING,
                minutes@ == Seq::new(i as nat, |k: int| nothing()),
            decreases RING - i,
        {
            minutes.push(Bucket { requests: 0, matches: 0 });
            assert(minutes@ =~= Seq::new((i + 1) as nat, |k: int| nothing()));
            i = i + 1;
        }
        let res = NodeStats {
            total: Bucket { requests: 0, matches: 0 },
            minutes,
            head_minute: 0,
            hours: Vec::new(),
            dirty: Vec::new(),
        };
        assert(res@ =~= idle_node());
        res
    }

    /// Moves the head of the ring to a minute, and empties the slots passed.
    fn advance(&mut self, minute: u64)
        requires
            node_ok(old(self)@),
        ensures
            final(self)@ == advanced(old(self)@, minute),
            node_ok(final(self)@),
    {
        if minute <= self.head_minute {
            return;
        }
        let ghost was = self@;
        let head: u64 = self.head_minute;
        let gap: u64 = minute - head;
        let steps: u64 = if gap < RING as u64 {
            gap
        } else {
            RING as u64
        };
        let mut i: u64 = 0;
        while i < steps
            invariant
                i <= steps <= RING,
                head + steps <= minute,
                head == was.head_minute,
                self.minutes@.len() == RING,
                was.minutes.len() == RING,
                self@ == (NodeStatsV { minutes: self@.minutes, ..was }),
                forall|s: int|
                    0 <= s < RING ==> #[trigger] self.minutes@[s] == (if exists|k: int|
                        1 <= k <= i && #[trigger] slot_after(head as int, k) == s {
                        nothing()
                    } else {
                        was.minutes[s]
                    }),
            decreases steps - i,
        {
            i = i + 1;
            let slot: usize = ((head + i) % (RING as u64)) as usize;
            let ghost before = self.minutes@;
            self.minutes.set(slot, Bucket { requests: 0, matches: 0 });
            assert forall|s: int| 0 <= s < RING implies #[trigger] self.minutes@[s] == (if exists|
                k: int,
            |
                1 <= k <= i && #[trigger] slot_after(head as int, k) == s {
                nothing()
            } else {
                was.minutes[s]
            }) by {
                assert(slot_after(head as int, i as int) == slot);
                if s != slot {
                    assert(self.minutes@[s] == before[s]);
                    if exists|k: int| 1 <= k <= i && #[trigger] slot_after(head as int, k) == s {
                        let k = choose|k: int|
                            1 <= k <= i && #[trigger] slot_after(head as int, k) == s;
                        assert(k != i);
                        assert(1 <= k <= i - 1 && slot_after(head as int, k) == s);
                    }
                }
            }
        }
        self.head_minute = minute;
        proof {
            assert forall|s: int| 0 <= s < RING implies #[trigger] self.minutes@[s] == advanced(
                was,
                minute,
            ).minutes[s] by {
                lemma_slots_passed(head as int, minute as int, steps as int, s);
            }
            assert(self@ =~= advanced(was, minute));
        }
    }

    fn record(&mut self, is_match: bool, now_ms: u64)
        requires
            node_ok(old(self)@),
        ensures
            final(self)@ == recorded(old(self)@, is_match, now_ms),
            node_ok(final(self)@),
    {
        let one = Bucket {
            requests: 1,
            matches: if is_match {
                1
            } else {
                0
            },
        };
        self.advance(now_ms / MINUTE_MS);
        let ghost m = self@;
        let slot: usize = (self.head_minute % (RING as u64)) as usize;
        let counted = add_buckets(self.minutes[slot], one);
        self.minutes.set(slot, counted);
        let hour: u64 = start_of_hour(now_ms);
        let k: usize = find_hour(&self.hours, hour);
        let was = if k < self.hours.len() && self.hours[k].0 == hour {
            self.hours[k].1
        } else {
            Bucket { requests: 0, matches: 0 }
        };
        set_hour(&mut self.hours, hour, add_buckets(was, one));
        if !holds_hour(&self.dirty, hour) {
            self.dirty.push(hour);
        }
        self.total = add_buckets(self.total, one);
        if self.hours.len() as u64 > RETAIN_HOURS {
            let cutoff: u64 = hour.saturating_sub(RETAIN_HOURS * HOUR_MS);
            let from: usize = find_hour(&self.hours, cutoff);
            proof {
                lemma_kept_hours(self.hours@, cutoff);
            }
            let ghost all = self.hours@;
            self.hours = keep_from(&self.hours, from);
            assert(self.hours@ == kept_hours(all, cutoff));
        }
        assert(self@ =~= recorded(old(self)@, is_match, now_ms)) by {
            assert(self@.minutes =~= m.minutes.update(
                slot as int,
                together(m.minutes[slot as int], one),
            ));
        }
    }
}

fn keep_from(hours: &Vec<(u64, Bucket)>, from: usize) -> (res: Vec<(u64, Bucket)>)
    requires
        from <= hours@.len(),
    ensures
        res@ == hours@.skip(from as int),
{
    let mut out: Vec<(u64, Bucket)> = Vec::new();
    let mut i: usize = from;
    while i < hours.len()
        invariant
            from <= i <= hours@.len(),
            out@ == hours@.subrange(from as int, i as int),
        decreases hours@.len() - i,
    {
        out.push(hours[i]);
        assert(out@ =~= hours@.subrange(from as int, i + 1));
        i = i + 1;
    }
    assert(out@ =~= hours@.skip(from as int));
    out
}

/// The counts of all nodes.
pub struct Stats {
    nodes: BTreeMap<u32, NodeStats>,
}

impl View for Stats {
    type V = Map<u32, NodeStatsV>;

    closed spec fn view(&self) -> Map<u32, NodeStatsV> {
        self.nodes@.map_values(|n: NodeStats| n@)
    }
}

/// The counts of a node; one that is not known did nothing yet.
pub open spec fn stats_of(s: Map<u32, NodeStatsV>, id: u32) -> NodeStatsV {
    if s.contains_key(id) {
        s[id]
    } else {
        idle_node()
    }
}

pub open spec fn stats_ok(s: Map<u32, NodeStatsV>) -> bool {
    forall|id: u32| #[trigger] s.contains_key(id) ==> node_ok(s[id])
}

/// The hour from which stored buckets are kept in memory.
pub open spec fn load_cutoff(now_ms: u64) -> u64 {
    let h = now_ms / HOUR_MS;
    if h >= RETAIN_HOURS {
        ((h - RETAIN_HOURS) * HOUR_MS) as u64
    } else {
        0
    }
}

/// The counts after stored buckets were read: totals of all of them, hours of
/// the recent ones.
pub open spec fn loaded(rows: Seq<(u32, u64, Bucket)>, now_ms: u64) -> Map<u32, NodeStatsV>
    decreases rows.len(),
{
    if rows.len() == 0 {
        Map::empty()
    } else {
        let rest = loaded(rows.drop_last(), now_ms);
        let (id, hour, bucket) = rows.last();
        let n = stats_of(rest, id);
        rest.insert(
            id,
            NodeStatsV {
                total: together(n.total, bucket),
                hours: if hour >= load_cutoff(now_ms) {
                    hour_set(n.hours, hour, bucket)
                } else {
                    n.hours
                },
                head_minute: now_ms / MINUTE_MS,
                ..n
            },
        )
    }
}

/// A bucket that is to be written out.
pub open spec fn is_dirty(s: Map<u32, NodeStatsV>, id: u32, hour: u64, bucket: Bucket) -> bool {
    s.contains_key(id) && s[id].dirty.contains(hour) && has_hour(s[id].hours, hour) && bucket_at(
        s[id].hours,
        hour,
    ) == bucket
}

impl Default for Stats {
    fn default() -> (res: Self)
        ensures
            res.wf(),
            res@ == Map::<u32, NodeStatsV>::empty(),
    {
        let res = Stats { nodes: BTreeMap::new() };
        assert(res@ =~= Map::empty());
        res
    }
}

impl Stats {
    pub open spec fn wf(&self) -> bool {
        stats_ok(self@)
    }

    fn take(&mut self, id: u32) -> (res: NodeStats)
        requires
            old(self).wf(),
        ensures
            final(self).wf(),
            final(self)@ == old(self)@.remove(id),
            res@ == stats_of(old(self)@, id),
            node_ok(res@),
    {
        let ghost was = self@;
        let res = match self.nodes.remove(&id) {
            Some(n) => n,
            None => NodeStats::new(),
        };
        proof {
            assert(self@ =~= was.remove(id));
            assert forall|k: u32| #[trigger] self@.contains_key(k) implies node_ok(self@[k]) by {
                assert(was.contains_key(k));
            }
        }
        res
    }

    fn put(&mut self, id: u32, n: NodeStats)
        requires
            old(self).wf(),
            node_ok(n@),
        ensures
            final(self).wf(),
            final(self)@ == old(self)@.insert(id, n@),
    {
        let ghost was = self@;
        let ghost v = n@;
        let _ = self.nodes.insert(id, n);
        proof {
            assert(self@ =~= was.insert(id, v));
            assert forall|k: u32| #[trigger] self@.contains_key(k) implies node_ok(self@[k]) by {
                if k != id {
                    assert(was.contains_key(k));
                }
            }
        }
    }

    fn ids(&self) -> (res: Vec<u32>)
        ensures
            res@.to_set() == self@.dom(),
            res@.no_duplicates(),
    {
        let mut out: Vec<u32> = Vec::new();
        let it = self.nodes.keys();
        let ghost all = it.remaining();
        for k in iter: it
            invariant
                iter.seq() == all,
                out@ == all.unref().take(iter.index()),
        {
            assert(all.unref().take(iter.index() + 1) =~= all.unref().take(iter.index()).push(*k));
            out.push(*k);
        }
        assert(all.unref().take(all.len() as int) =~= all.unref());
        assert(self@.dom() =~= self.nodes@.dom());
        out
    }

    /// The counts that stored buckets give.
    pub fn load(rows: Vec<(u32, u64, Bucket)>, now_ms: u64) -> (res: Self)
        ensures
            res.wf(),
            res@ == loaded(rows@, now_ms),
    {
        let h: u64 = now_ms / HOUR_MS;
        assert(h * HOUR_MS <= now_ms) by (nonlinear_arith)
            requires
                h == now_ms / HOUR_MS,
                HOUR_MS == 3_600_000u64,
        ;
        let from: u64 = h.saturating_sub(RETAIN_HOURS);
        assert(from * HOUR_MS <= h * HOUR_MS) by (nonlinear_arith)
            requires
                from <= h,
                HOUR_MS == 3_600_000u64,
        ;
        let cutoff: u64 = from * HOUR_MS;
        assert(cutoff == load_cutoff(now_ms));
        let mut res = Stats::default();
        let mut i: usize = 0;
        assert(rows@.take(0) =~= Seq::empty());
        while i < rows.len()
            invariant
                res.wf(),
                cutoff == load_cutoff(now_ms),
                i <= rows@.len(),
                res@ == loaded(rows@.take(i as int), now_ms),
            decreases rows@.len() - i,
        {
            let (id, hour, bucket): (u32, u64, Bucket) = rows[i];
            let ghost was = res@;
            assert(rows@.take(i + 1).drop_last() =~= rows@.take(i as int));
            let mut n = res.take(id);
            let ghost v = n@;
            n.total = add_buckets(n.total, bucket);
            if hour >= cutoff {
                set_hour(&mut n.hours, hour, bucket);
            }
            n.head_minute = now_ms / MINUTE_MS;
            let ghost w = n@;
            res.put(id, n);
            assert(was.remove(id).insert(id, w) =~= was.insert(id, w));
            i = i + 1;
        }
        assert(rows@.take(i as int) =~= rows@);
        res
    }

    /// Counts a request that a node completed.
    pub fn record(&mut self, node_id: u32, is_match: bool, now_ms: u64)
        requires
            old(self).wf(),
        ensures
            final(self).wf(),
            final(self)@ == old(self)@.insert(
                node_id,
                recorded(stats_of(old(self)@, node_id), is_match, now_ms),
            ),
    {
        let ghost was = self@;
        let mut n = self.take(node_id);
        n.record(is_match, now_ms);
        let ghost v = n@;
        self.put(node_id, n);
        assert(was.remove(node_id).insert(node_id, v) =~= was.insert(node_id, v));
    }

    /// The windows of every node.
    pub fn snapshot(&mut self, now_ms: u64) -> (res: Vec<NodeWindows>)
        requires
            old(self).wf(),
        ensures
            final(self).wf(),
            final(self)@ == old(self)@.map_values(
                |n: NodeStatsV| advanced(n, now_ms / MINUTE_MS),
            ),
            forall|i: int|
                0 <= i < res@.len() ==> old(self)@.contains_key((#[trigger] res@[i]).node_id)
                    && res@[i] == windows_of(res@[i].node_id, old(self)@[res@[i].node_id], now_ms),
            forall|id: u32| #[trigger]
                old(self)@.contains_key(id) ==> exists|i: int|
                    0 <= i < res@.len() && (#[trigger] res@[i]).node_id == id,
            forall|i: int, j: int|
                0 <= i < j < res@.len() ==> (#[trigger] res@[i]).node_id != (
                #[trigger] res@[j]).node_id,
    {
        let ghost was = self@;
        let ids = self.ids();
        let mut out: Vec<NodeWindows> = Vec::new();
        let mut i: usize = 0;
        while i < ids.len()
            invariant
                self.wf(),
                stats_ok(was),
                was == old(self)@,
                i <= ids@.len(),
                ids@.to_set() == was.dom(),
                ids@.no_duplicates(),
                self@.dom() == was.dom(),
                forall|j: int|
                    0 <= j < i ==> self@[#[trigger] ids@[j]] == advanced(
                        was[ids@[j]],
                        now_ms / MINUTE_MS,
                    ),
                forall|j: int|
                    i <= j < ids@.len() ==> self@[#[trigger] ids@[j]] == was[ids@[j]],
                out@.len() == i,
                forall|j: int|
                    0 <= j < i ==> #[trigger] out@[j] == windows_of(
                        ids@[j],
                        was[ids@[j]],
                        now_ms,
                    ),
            decreases ids@.len() - i,
        {
            let id: u32 = ids[i];
            let ghost before = self@;
            assert(ids@.to_set().contains(id));
            let mut n = self.take(id);
            n.advance(now_ms / MINUTE_MS);
            let day: u64 = start_of_window(now_ms, 24);
            let week: u64 = start_of_window(now_ms, 168);
            let current: u64 = start_of_hour(now_ms);
            out.push(
                NodeWindows {
                    node_id: id,
                    m60: sum_all(&n.minutes),
                    h24: sum_between(&n.hours, day, current),
                    d7: sum_between(&n.hours, week, current),
                    all: n.total,
                },
            );
            let ghost v = n@;
            self.put(id, n);
            proof {
                assert(self@.dom() =~= was.dom());
                assert forall|j: int| 0 <= j < ids@.len() && j != i implies self@[
                    #[trigger] ids@[j]
                ] == before[ids@[j]] by {
                    assert(ids@[j] != ids@[i as int]);
                }
            }
            i = i + 1;
        }
        proof {
            assert forall|id: u32| #[trigger] was.contains_key(id) implies exists|i: int|
                0 <= i < out@.len() && (#[trigger] out@[i]).node_id == id by {
                assert(ids@.to_set().contains(id));
                let j = choose|j: int| 0 <= j < ids@.len() && ids@[j] == id;
                assert(out@[j].node_id == id);
            }
            assert forall|j: int| 0 <= j < out@.len() implies was.contains_key(
                (#[trigger] out@[j]).node_id,
            ) by {
                assert(ids@.to_set().contains(ids@[j]));
            }
            let f = |n: NodeStatsV| advanced(n, now_ms / MINUTE_MS);
            assert forall|id: u32| #[trigger] was.contains_key(id) implies self@[id]
                == was.map_values(f)[id] by {
                assert(ids@.to_set().contains(id));
                let j = choose|j: int| 0 <= j < ids@.len() && ids@[j] == id;
                assert(ids@[j] == id);
            }
            assert(self@ =~= was.map_values(f));
        }
        out
    }

    /// The buckets that are to be written out, with their values: each once,
    /// and those of a node from the earliest hour on. They count as written
    /// after this call.
    pub fn take_dirty(&mut self) -> (res: Vec<(u32, u64, Bucket)>)
        requires
            old(self).wf(),
        ensures
            final(self).wf(),
            final(self)@ == old(self)@.map_values(
                |n: NodeStatsV| (NodeStatsV { dirty: Seq::empty(), ..n }),
            ),
            forall|id: u32, hour: u64, b: Bucket|
                res@.contains((id, hour, b)) <==> #[trigger] is_dirty(old(self)@, id, hour, b),
            rows_in_order(res@),
            res@.no_duplicates(),
    {
        let ghost was = self@;
        let ids = self.ids();
        let mut out: Vec<(u32, u64, Bucket)> = Vec::new();
        let mut i: usize = 0;
        while i < ids.len()
            invariant
                self.wf(),
                stats_ok(was),
                was == old(self)@,
                i <= ids@.len(),
                ids@.to_set() == was.dom(),
                ids@.no_duplicates(),
                self@.dom() == was.dom(),
                forall|j: int|
                    0 <= j < i ==> self@[#[trigger] ids@[j]] == (NodeStatsV {
                        dirty: Seq::empty(),
                        ..was[ids@[j]]
                    }),
                forall|j: int|
                    i <= j < ids@.len() ==> self@[#[trigger] ids@[j]] == was[ids@[j]],
                forall|id: u32, hour: u64, b: Bucket|
                    #![trigger out@.contains((id, hour, b))]
                    out@.contains((id, hour, b)) <==> is_dirty(was, id, hour, b) && ids@.take(
                        i as int,
                    ).contains(id),
                rows_in_order(out@),
            decreases ids@.len() - i,
        {
            let id: u32 = ids[i];
            let ghost before = self@;
            let ghost out0 = out@;
            let ghost done = ids@.take(i as int);
            assert(ids@.to_set().contains(id));
            let mut n = self.take(id);
            let ghost nv = n@;
            let mut dirty: Vec<u64> = Vec::new();
            std::mem::swap(&mut dirty, &mut n.dirty);
            let mut k: usize = 0;
            proof {
                assert forall|j: int| 0 <= j < out0.len() implies (#[trigger] out0[j]).0 != id by {
                    let (x, h, b) = out0[j];
                    assert(out0.contains((x, h, b)));
                    if x == id {
                        let e = choose|e: int| 0 <= e < done.len() && done[e] == id;
                        assert(ids@[e] == id);
                    }
                }
            }
            while k < n.hours.len()
                invariant
                    k <= n.hours@.len(),
                    hours_ok(n.hours@),
                    nv.hours == n.hours@,
                    nv.dirty == dirty@,
                    forall|j: int| 0 <= j < out0.len() ==> (#[trigger] out0[j]).0 != id,
                    out0.len() <= out@.len(),
                    out@.take(out0.len() as int) == out0,
                    forall|j: int|
                        out0.len() <= j < out@.len() ==> (#[trigger] out@[j]).0 == id && (k
                            < n.hours@.len() ==> out@[j].1 < n.hours@[k as int].0),
                    rows_in_order(out@),
                    forall|x: u32, hour: u64, b: Bucket|
                        #![trigger out@.contains((x, hour, b))]
                        out@.contains((x, hour, b)) <==> out0.contains((x, hour, b)) || (x == id
                            && dirty@.contains(hour) && nv.hours.take(k as int).contains(
                            (hour, b),
                        )),
                decreases n.hours@.len() - k,
            {
                let (hour, b): (u64, Bucket) = n.hours[k];
                let ghost o1 = out@;
                if holds_hour(&dirty, hour) {
                    out.push((id, hour, b));
                    proof {
                        assert(out@.take(out0.len() as int) =~= out0);
                        assert forall|e: int, j: int|
                            0 <= e < j < out@.len() && (#[trigger] out@[e]).0 == (
                            #[trigger] out@[j]).0 implies out@[e].1 < out@[j].1 by {
                            if j < o1.len() {
                                assert(o1[e] == out@[e] && o1[j] == out@[j]);
                            } else {
                                assert(o1[e] == out@[e]);
                                if e < out0.len() {
                                    assert(out0[e] == o1.take(out0.len() as int)[e]);
                                    assert(out0[e].0 != id);
                                }
                            }
                        }
                    }
                }
                proof {
                    lemma_take_push(nv.hours, k as int);
                    lemma_push_contains(o1, (id, hour, b));
                    assert forall|j: int| out0.len() <= j < out@.len() implies (
                    #[trigger] out@[j]).0 == id && (k + 1 < n.hours@.len() ==> out@[j].1
                        < n.hours@[k + 1].0) by {
                        if j < o1.len() {
                            assert(out@[j] == o1[j]);
                        }
                        if k + 1 < n.hours@.len() {
                            assert(n.hours@[k as int].0 < n.hours@[k + 1].0);
                        }
                    }
                }
                k = k + 1;
            }
            proof {
                assert(nv.hours.take(k as int) =~= nv.hours);
            }
            let ghost v = n@;
            assert(v =~= NodeStatsV { dirty: Seq::empty(), ..nv });
            self.put(id, n);
            proof {
                assert(self@.dom() =~= was.dom());
                assert forall|j: int| 0 <= j < ids@.len() && j != i implies self@[
                    #[trigger] ids@[j]
                ] == before[ids@[j]] by {
                    assert(ids@[j] != ids@[i as int]);
                }
                assert forall|x: u32, hour: u64, b: Bucket|
                    #![trigger out@.contains((x, hour, b))]
                    out@.contains((x, hour, b)) <==> is_dirty(was, x, hour, b) && ids@.take(
                        i + 1,
                    ).contains(x) by {
                    lemma_take_push(ids@, i as int);
                    assert(ids@.take(i + 1).contains(x) <==> done.contains(x) || x == id);
                    assert(out0.contains((x, hour, b)) <==> is_dirty(was, x, hour, b)
                        && done.contains(x));
                    lemma_hour_listed(nv.hours, hour, b);
                    assert(out@.contains((x, hour, b)) <==> out0.contains((x, hour, b)) || (x
                        == id && dirty@.contains(hour) && nv.hours.contains((hour, b))));
                }
            }
            i = i + 1;
        }
        proof {
            assert(ids@.take(i as int) =~= ids@);
            let f = |n: NodeStatsV| (NodeStatsV { dirty: Seq::empty(), ..n });
            assert forall|id: u32| #[trigger] was.contains_key(id) implies self@[id]
                == was.map_values(f)[id] by {
                assert(ids@.to_set().contains(id));
                let j = choose|j: int| 0 <= j < ids@.len() && ids@[j] == id;
                assert(ids@[j] == id);
            }
            assert(self@ =~= was.map_values(f));
            assert forall|id: u32, hour: u64, b: Bucket|
                out@.contains((id, hour, b)) <==> #[trigger] is_dirty(was, id, hour, b) by {
                assert(out@.contains((id, hour, b)) <==> is_dirty(was, id, hour, b)
                    && ids@.contains(id));
                if is_dirty(was, id, hour, b) {
                    assert(ids@.to_set().contains(id));
                }
            }
        }
        out
    }
}

/// Of two rows of one node the earlier hour comes first.
pub open spec fn rows_in_order(rows: Seq<(u32, u64, Bucket)>) -> bool {
    forall|i: int, j: int|
        0 <= i < j < rows.len() && (#[trigger] rows[i]).0 == (#[trigger] rows[j]).0 ==> rows[i].1
            < rows[j].1
}

fn holds_hour(list: &Vec<u64>, hour: u64) -> (res: bool)
    ensures
        res == list@.contains(hour),
{
    let mut i: usize = 0;
    while i < list.len()
        invariant
            i <= list@.len(),
            forall|j: int| 0 <= j < i ==> #[trigger] list@[j] != hour,
        decreases list@.len() - i,
    {
        if list[i] == hour {
            assert(list@[i as int] == hour);
            return true;
        }
        i = i + 1;
    }
    false
}

/// The hours that are listed are those that have a bucket.
proof fn lemma_hour_listed(hours: Seq<(u64, Bucket)>, hour: u64, b: Bucket)
    requires
        hours_ok(hours),
    ensures
        hours.contains((hour, b)) <==> has_hour(hours, hour) && bucket_at(hours, hour) == b,
{
    lemma_hours_before(hours, hour);
    let k = hours_before(hours, hour) as int;
    if hours.contains((hour, b)) {
        let i = choose|i: int| 0 <= i < hours.len() && hours[i] == (hour, b);
        if i > k {
            assert(hours[k].0 < hours[i].0);
        }
    }
    if has_hour(hours, hour) && bucket_at(hours, hour) == b {
        assert(hours[k] == (hour, b));
    }
}

proof fn lemma_push_contains<A>(s: Seq<A>, x: A)
    ensures
        forall|y: A| #[trigger] s.push(x).contains(y) <==> s.contains(y) || y == x,
{
    let t = s.push(x);
    assert forall|y: A| #[trigger] t.contains(y) <==> s.contains(y) || y == x by {
        if t.contains(y) {
            let i = choose|i: int| 0 <= i < t.len() && t[i] == y;
            if i < s.len() {
                assert(s[i] == y);
            }
        }
        if s.contains(y) {
            let i = choose|i: int| 0 <= i < s.len() && s[i] == y;
            assert(t[i] == y);
        }
        if y == x {
            assert(t[s.len() as int] == y);
        }
    }
}

proof fn lemma_take_push<A>(s: Seq<A>, k: int)
    requires
        0 <= k < s.len(),
    ensures
        forall|y: A| #[trigger] s.take(k + 1).contains(y) <==> s.take(k).contains(y) || y == s[k],
{
    assert(s.take(k + 1) =~= s.take(k).push(s[k]));
    lemma_push_contains(s.take(k), s[k]);
}

// ---- laws ----

proof fn lemma_nothing(s: Seq<Bucket>)
    requires
        forall|i: int| 0 <= i < s.len() ==> #[trigger] s[i] == nothing(),
    ensures
        all_of(s) == nothing(),
    decreases s.len(),
{
    if s.len() > 0 {
        assert(s[s.len() - 1] == s.last());
        assert forall|i: int| 0 <= i < s.drop_last().len() implies #[trigger] s.drop_last()[i]
            == nothing() by {
            assert(s.drop_last()[i] == s[i]);
        }
        lemma_nothing(s.drop_last());
    }
}

/// An hour after a node's last request its last hour is empty, and its total
/// is as it was.
pub proof fn law_ring_empties(id: u32, n: NodeStatsV, now_ms: u64)
    requires
        node_ok(n),
        now_ms / MINUTE_MS >= n.head_minute + RING,
    ensures
        windows_of(id, n, now_ms).m60 == nothing(),
        windows_of(id, n, now_ms).all == n.total,
{
    let m = advanced(n, now_ms / MINUTE_MS);
    let minute = (now_ms / MINUTE_MS) as int;
    assert forall|i: int| 0 <= i < m.minutes.len() implies #[trigger] m.minutes[i] == nothing() by {
        assert(latest_in_slot(minute, i) > n.head_minute) by (nonlinear_arith)
            requires
                latest_in_slot(minute, i) == minute - (minute - i) % 60,
                minute >= n.head_minute + 60,
        ;
    }
    lemma_nothing(m.minutes);
}

/// Every request counts once in the total, whenever it comes.
pub proof fn law_totals_count_requests(n: NodeStatsV, is_match: bool, now_ms: u64)
    ensures
        recorded(n, is_match, now_ms).total == together(
            n.total,
            Bucket {
                requests: 1,
                matches: if is_match {
                    1
                } else {
                    0
                },
            },
        ),
        recorded(n, is_match, now_ms).dirty.contains(hour_of(now_ms)),
{
    let m = advanced(n, now_ms / MINUTE_MS);
    let hour = hour_of(now_ms);
    if !m.dirty.contains(hour) {
        assert(m.dirty.push(hour)[m.dirty.len() as int] == hour);
    }
}

/// The buckets of a node among stored rows together.
pub open spec fn rows_total(rows: Seq<(u32, u64, Bucket)>, id: u32) -> Bucket
    decreases rows.len(),
{
    if rows.len() == 0 {
        nothing()
    } else if rows.last().0 == id {
        together(rows_total(rows.drop_last(), id), rows.last().2)
    } else {
        rows_total(rows.drop_last(), id)
    }
}

/// The total that is read back is that of all stored buckets of the node,
/// however old.
pub proof fn law_totals_survive_loading(rows: Seq<(u32, u64, Bucket)>, now_ms: u64, id: u32)
    ensures
        stats_of(loaded(rows, now_ms), id).total == rows_total(rows, id),
    decreases rows.len(),
{
    if rows.len() > 0 {
        law_totals_survive_loading(rows.drop_last(), now_ms, id);
    }
}

/// The sum of all hours in memory.
pub open spec fn hours_total(hours: Seq<(u64, Bucket)>) -> Bucket {
    hours_between(hours, 0, u64::MAX as int)
}

proof fn lemma_together(a: Bucket, b: Bucket, c: Bucket)
    ensures
        together(together(a, b), c) == together(together(a, c), b),
        together(a, nothing()) == a,
{
}

proof fn lemma_total_insert(hours: Seq<(u64, Bucket)>, k: int, e: (u64, Bucket))
    requires
        0 <= k <= hours.len(),
    ensures
        hours_total(hours.insert(k, e)) == together(hours_total(hours), e.1),
    decreases hours.len() - k,
{
    let out = hours.insert(k, e);
    if k == hours.len() {
        assert(out.drop_last() =~= hours);
    } else {
        let rest = hours.drop_last();
        lemma_total_insert(rest, k, e);
        assert(out.drop_last() =~= rest.insert(k, e));
        assert(out.last() == hours.last());
        lemma_together(hours_total(rest), e.1, hours.last().1);
    }
}

proof fn lemma_total_update(hours: Seq<(u64, Bucket)>, k: int, hour: u64, one: Bucket)
    requires
        0 <= k < hours.len(),
        hours[k].0 == hour,
    ensures
        hours_total(hours.update(k, (hour, together(hours[k].1, one)))) == together(
            hours_total(hours),
            one,
        ),
    decreases hours.len() - k,
{
    let out = hours.update(k, (hour, together(hours[k].1, one)));
    let rest = hours.drop_last();
    if k == hours.len() - 1 {
        assert(out.drop_last() =~= rest);
    } else {
        lemma_total_update(rest, k, hour, one);
        assert(out.drop_last() =~= rest.update(k, (hour, together(rest[k].1, one))));
        assert(out.last() == hours.last());
        lemma_together(hours_total(rest), one, hours.last().1);
    }
}

/// As long as no hour was let go, the total of a node is the sum of its hours.
pub proof fn law_total_is_sum_of_hours(n: NodeStatsV, is_match: bool, now_ms: u64)
    requires
        node_ok(n),
        n.total == hours_total(n.hours),
        n.hours.len() < RETAIN_HOURS,
    ensures
        ({
            let after = recorded(n, is_match, now_ms);
            after.total == hours_total(after.hours)
        }),
{
    let one = Bucket {
        requests: 1,
        matches: if is_match {
            1
        } else {
            0
        },
    };
    let m = advanced(n, now_ms / MINUTE_MS);
    let hour = hour_of(now_ms);
    let k = hours_before(m.hours, hour) as int;
    lemma_hours_before(m.hours, hour);
    if k < m.hours.len() && m.hours[k].0 == hour {
        lemma_total_update(m.hours, k, hour, one);
    } else {
        lemma_total_insert(m.hours, k, (hour, together(nothing(), one)));
    }
}

} // verus!
