//! What the windows of the nodes say, whatever was counted before.

use crate::stats::{
    advanced, all_of, bucket_at, hour_of, hour_set, hours_before, hours_between, hours_ok,
    idle_node, is_dirty, kept_hours, latest_in_slot, lemma_hour_set, lemma_hours_before,
    lemma_kept_hours, load_cutoff, loaded, node_ok, nothing, recorded, rows_total, stats_of,
    together, window_start, windows_of, Bucket, NodeStatsV, HOUR_MS, MINUTE_MS, RETAIN_HOURS, RING,
};
use vstd::prelude::*;

verus! {

/// One request.
pub open spec fn one_request(is_match: bool) -> Bucket {
    Bucket {
        requests: 1,
        matches: if is_match {
            1
        } else {
            0
        },
    }
}

// ---- one more request ----

proof fn lemma_apart(a: Bucket, b: Bucket, c: Bucket)
    ensures
        together(together(a, b), c) == together(together(a, c), b),
        together(a, together(b, c)) == together(together(a, b), c),
        together(nothing(), a) == a,
        together(a, nothing()) == a,
{
}

proof fn lemma_ring_update(s: Seq<Bucket>, k: int, one: Bucket)
    requires
        0 <= k < s.len(),
    ensures
        all_of(s.update(k, together(s[k], one))) == together(all_of(s), one),
    decreases s.len(),
{
    let out = s.update(k, together(s[k], one));
    let rest = s.drop_last();
    if k == s.len() - 1 {
        assert(out.drop_last() =~= rest);
        lemma_apart(all_of(rest), s[k], one);
    } else {
        lemma_ring_update(rest, k, one);
        assert(out.drop_last() =~= rest.update(k, together(rest[k], one)));
        assert(out.last() == s.last());
        lemma_apart(all_of(rest), one, s.last());
    }
}

proof fn lemma_between_insert(
    hours: Seq<(u64, Bucket)>,
    k: int,
    e: (u64, Bucket),
    from: int,
    to: int,
)
    requires
        0 <= k <= hours.len(),
    ensures
        hours_between(hours.insert(k, e), from, to) == (if from <= e.0 <= to {
            together(hours_between(hours, from, to), e.1)
        } else {
            hours_between(hours, from, to)
        }),
    decreases hours.len() - k,
{
    let out = hours.insert(k, e);
    if k == hours.len() {
        assert(out.drop_last() =~= hours);
    } else {
        let rest = hours.drop_last();
        lemma_between_insert(rest, k, e, from, to);
        assert(out.drop_last() =~= rest.insert(k, e));
        assert(out.last() == hours.last());
        lemma_apart(hours_between(rest, from, to), e.1, hours.last().1);
    }
}

proof fn lemma_between_update(
    hours: Seq<(u64, Bucket)>,
    k: int,
    one: Bucket,
    from: int,
    to: int,
)
    requires
        0 <= k < hours.len(),
    ensures
        hours_between(hours.update(k, (hours[k].0, together(hours[k].1, one))), from, to) == (
        if from <= hours[k].0 <= to {
            together(hours_between(hours, from, to), one)
        } else {
            hours_between(hours, from, to)
        }),
    decreases hours.len() - k,
{
    let out = hours.update(k, (hours[k].0, together(hours[k].1, one)));
    let rest = hours.drop_last();
    if k == hours.len() - 1 {
        assert(out.drop_last() =~= rest);
        lemma_apart(hours_between(rest, from, to), hours[k].1, one);
    } else {
        lemma_between_update(rest, k, one, from, to);
        assert(out.drop_last() =~= rest.update(k, (rest[k].0, together(rest[k].1, one))));
        assert(out.last() == hours.last());
        lemma_apart(hours_between(rest, from, to), one, hours.last().1);
    }
}

proof fn lemma_between_skip(hours: Seq<(u64, Bucket)>, k: int, from: int, to: int)
    requires
        0 <= k <= hours.len(),
        forall|i: int| 0 <= i < k ==> (#[trigger] hours[i]).0 < from,
    ensures
        hours_between(hours.skip(k), from, to) == hours_between(hours, from, to),
    decreases hours.len(),
{
    if hours.len() > 0 {
        let rest = hours.drop_last();
        if k == hours.len() {
            assert(hours.skip(k) =~= Seq::empty());
            assert(rest.skip(k - 1) =~= Seq::empty());
            lemma_between_skip(rest, k - 1, from, to);
            assert(hours[k - 1].0 < from);
        } else {
            lemma_between_skip(rest, k, from, to);
            assert(hours.skip(k).drop_last() =~= rest.skip(k));
        }
    } else {
        assert(hours.skip(k) =~= hours);
    }
}

/// The hours of a node after one more request, before old ones are let go.
spec fn counted_hours(n: NodeStatsV, is_match: bool, now_ms: u64) -> Seq<(u64, Bucket)> {
    let hour = hour_of(now_ms);
    hour_set(n.hours, hour, together(bucket_at(n.hours, hour), one_request(is_match)))
}

/// The hour from which hours are kept when one is counted.
spec fn let_go_before(now_ms: u64) -> u64 {
    let hour = hour_of(now_ms);
    if hour >= RETAIN_HOURS * HOUR_MS {
        (hour - RETAIN_HOURS * HOUR_MS) as u64
    } else {
        0
    }
}

proof fn lemma_recorded_hours(n: NodeStatsV, is_match: bool, now_ms: u64)
    requires
        node_ok(n),
    ensures
        ({
            let all = counted_hours(n, is_match, now_ms);
            &&& hours_ok(all)
            &&& recorded(n, is_match, now_ms).hours == (if all.len() > RETAIN_HOURS {
                kept_hours(all, let_go_before(now_ms))
            } else {
                all
            })
        }),
{
    let hour = hour_of(now_ms);
    lemma_hour_set(n.hours, hour, together(bucket_at(n.hours, hour), one_request(is_match)));
}

proof fn lemma_counted_between(n: NodeStatsV, is_match: bool, now_ms: u64, from: int)
    requires
        node_ok(n),
        let_go_before(now_ms) <= from <= hour_of(now_ms),
    ensures
        hours_between(recorded(n, is_match, now_ms).hours, from, hour_of(now_ms) as int)
            == together(
            hours_between(n.hours, from, hour_of(now_ms) as int),
            one_request(is_match),
        ),
{
    let hour = hour_of(now_ms);
    let one = one_request(is_match);
    let k = hours_before(n.hours, hour) as int;
    lemma_hours_before(n.hours, hour);
    lemma_recorded_hours(n, is_match, now_ms);
    let all = counted_hours(n, is_match, now_ms);
    if k < n.hours.len() && n.hours[k].0 == hour {
        lemma_between_update(n.hours, k, one, from, hour as int);
    } else {
        lemma_apart(one, one, one);
        lemma_between_insert(n.hours, k, (hour, one), from, hour as int);
    }
    if all.len() > RETAIN_HOURS {
        let cutoff = let_go_before(now_ms);
        lemma_hours_before(all, cutoff);
        lemma_between_skip(all, hours_before(all, cutoff) as int, from, hour as int);
    }
}

proof fn lemma_window_start(now_ms: u64, n: int)
    requires
        1 <= n <= 168,
    ensures
        let_go_before(now_ms) <= window_start(now_ms, n) <= hour_of(now_ms),
        load_cutoff(now_ms) <= window_start(now_ms, n),
        hour_of(now_ms) == (now_ms / HOUR_MS) * HOUR_MS,
        hour_of(now_ms) <= now_ms,
{
    let h = (now_ms / HOUR_MS) as int;
    assert(h * 3_600_000 <= now_ms);
}

/// One request raises every window of its node by one, and its matches by one
/// if it was one.
pub proof fn law_record_raises_windows(id: u32, n: NodeStatsV, is_match: bool, now_ms: u64)
    requires
        node_ok(n),
    ensures
        ({
            let a = windows_of(id, n, now_ms);
            let b = windows_of(id, recorded(n, is_match, now_ms), now_ms);
            let one = one_request(is_match);
            &&& b.m60 == together(a.m60, one)
            &&& b.h24 == together(a.h24, one)
            &&& b.d7 == together(a.d7, one)
            &&& b.all == together(a.all, one)
        }),
{
    let m = advanced(n, now_ms / MINUTE_MS);
    let slot = (m.head_minute % (RING as u64)) as int;
    let after = recorded(n, is_match, now_ms);
    assert(after.head_minute >= now_ms / MINUTE_MS);
    assert(advanced(after, now_ms / MINUTE_MS) == after);
    lemma_ring_update(m.minutes, slot, one_request(is_match));
    lemma_window_start(now_ms, 24);
    lemma_window_start(now_ms, 168);
    lemma_counted_between(n, is_match, now_ms, window_start(now_ms, 24));
    lemma_counted_between(n, is_match, now_ms, window_start(now_ms, 168));
}

/// A request of a node leaves every other node alone.
pub proof fn law_record_is_one_nodes(
    s: Map<u32, NodeStatsV>,
    id: u32,
    other: u32,
    is_match: bool,
    now_ms: u64,
)
    requires
        other != id,
    ensures
        ({
            let after = s.insert(id, recorded(stats_of(s, id), is_match, now_ms));
            &&& stats_of(after, other) == stats_of(s, other)
            &&& windows_of(other, stats_of(after, other), now_ms) == windows_of(
                other,
                stats_of(s, other),
                now_ms,
            )
        }),
{
}

// ---- loading ----

/// The buckets of a node among stored rows, of the hours from `from` to `to`.
pub open spec fn rows_between(rows: Seq<(u32, u64, Bucket)>, id: u32, from: int, to: int) -> Bucket
    decreases rows.len(),
{
    if rows.len() == 0 {
        nothing()
    } else {
        let rest = rows_between(rows.drop_last(), id, from, to);
        if rows.last().0 == id && from <= rows.last().1 <= to {
            together(rest, rows.last().2)
        } else {
            rest
        }
    }
}

/// No hour of a node has two rows.
pub open spec fn rows_apart(rows: Seq<(u32, u64, Bucket)>) -> bool {
    forall|i: int, j: int|
        0 <= i < j < rows.len() ==> (#[trigger] rows[i]).0 != (#[trigger] rows[j]).0 || rows[i].1
            != rows[j].1
}

/// A node has a row.
pub open spec fn has_row(rows: Seq<(u32, u64, Bucket)>, id: u32) -> bool {
    exists|i: int| 0 <= i < rows.len() && (#[trigger] rows[i]).0 == id
}

proof fn lemma_loaded(
    rows: Seq<(u32, u64, Bucket)>,
    now_ms: u64,
    id: u32,
    from: int,
    to: int,
)
    requires
        rows_apart(rows),
        load_cutoff(now_ms) <= from,
    ensures
        ({
            let n = stats_of(loaded(rows, now_ms), id);
            &&& loaded(rows, now_ms).contains_key(id) <==> has_row(rows, id)
            &&& hours_ok(n.hours)
            &&& hours_between(n.hours, from, to) == rows_between(rows, id, from, to)
            &&& n.total == rows_total(rows, id)
            &&& n.minutes == idle_node().minutes
            &&& n.dirty == Seq::<u64>::empty()
            &&& n.head_minute == 0 || n.head_minute == now_ms / MINUTE_MS
            &&& forall|i: int|
                0 <= i < n.hours.len() ==> exists|j: int|
                    0 <= j < rows.len() && (#[trigger] rows[j]).0 == id && rows[j].1
                        == (#[trigger] n.hours[i]).0
        }),
    decreases rows.len(),
{
    let n = stats_of(loaded(rows, now_ms), id);
    if rows.len() > 0 {
        let rest = rows.drop_last();
        assert forall|i: int, j: int| 0 <= i < j < rest.len() implies (#[trigger] rest[i]).0 != (
        #[trigger] rest[j]).0 || rest[i].1 != rest[j].1 by {
            assert(rest[i] == rows[i] && rest[j] == rows[j]);
        }
        lemma_loaded(rest, now_ms, id, from, to);
        let was = stats_of(loaded(rest, now_ms), id);
        let (node, hour, bucket) = rows.last();
        assert(rows[rows.len() - 1] == rows.last());
        if has_row(rest, id) {
            let i = choose|i: int| 0 <= i < rest.len() && (#[trigger] rest[i]).0 == id;
            assert(rows[i].0 == id);
        }
        if has_row(rows, id) && node != id {
            let i = choose|i: int| 0 <= i < rows.len() && (#[trigger] rows[i]).0 == id;
            assert(rest[i].0 == id);
        }
        if node == id && hour >= load_cutoff(now_ms) {
            let k = hours_before(was.hours, hour) as int;
            lemma_hours_before(was.hours, hour);
            if k < was.hours.len() && was.hours[k].0 == hour {
                let j = choose|j: int|
                    0 <= j < rest.len() && (#[trigger] rest[j]).0 == id && rest[j].1
                        == was.hours[k].0;
                assert(rows[j].0 != rows[rows.len() - 1].0 || rows[j].1 != rows[rows.len()
                    - 1].1);
            }
            lemma_hour_set(was.hours, hour, bucket);
            lemma_between_insert(was.hours, k, (hour, bucket), from, to);
        }
        assert forall|i: int| 0 <= i < n.hours.len() implies exists|j: int|
            0 <= j < rows.len() && (#[trigger] rows[j]).0 == id && rows[j].1
                == (#[trigger] n.hours[i]).0 by {
            let e = n.hours[i];
            if was.hours.contains(e) {
                let w = choose|w: int| 0 <= w < was.hours.len() && was.hours[w] == e;
                let j = choose|j: int|
                    0 <= j < rest.len() && (#[trigger] rest[j]).0 == id && rest[j].1
                        == (#[trigger] was.hours[w]).0;
                assert(rows[j].0 == id && rows[j].1 == e.0);
            } else {
                let k = hours_before(was.hours, hour) as int;
                if n.hours == was.hours {
                    assert(was.hours[i] == e);
                } else {
                    lemma_hours_before(was.hours, hour);
                    if i < k {
                        assert(was.hours[i] == e);
                    } else if i > k {
                        assert(was.hours[i - 1] == e);
                    }
                }
                assert(rows[rows.len() - 1].0 == id && rows[rows.len() - 1].1 == e.0);
            }
        }
    }
}

proof fn lemma_idle_ring(s: Seq<Bucket>)
    requires
        forall|i: int| 0 <= i < s.len() ==> #[trigger] s[i] == nothing(),
    ensures
        all_of(s) == nothing(),
    decreases s.len(),
{
    if s.len() > 0 {
        assert(s[s.len() - 1] == nothing());
        assert forall|i: int| 0 <= i < s.drop_last().len() implies #[trigger] s.drop_last()[i]
            == nothing() by {
            assert(s.drop_last()[i] == s[i]);
        }
        lemma_idle_ring(s.drop_last());
    }
}

/// After loading, the windows of a node are the sums of its stored rows: all of
/// them, and those of the window's hours. The minutes are gone, and nothing is
/// left to be written. The nodes are those that have rows.
pub proof fn law_windows_survive_loading(rows: Seq<(u32, u64, Bucket)>, now_ms: u64, id: u32)
    requires
        rows_apart(rows),
    ensures
        ({
            let n = stats_of(loaded(rows, now_ms), id);
            let w = windows_of(id, n, now_ms);
            let now = hour_of(now_ms) as int;
            &&& loaded(rows, now_ms).contains_key(id) <==> has_row(rows, id)
            &&& w.all == rows_total(rows, id)
            &&& w.d7 == rows_between(rows, id, window_start(now_ms, 168), now)
            &&& w.h24 == rows_between(rows, id, window_start(now_ms, 24), now)
            &&& w.m60 == nothing()
            &&& n.dirty == Seq::<u64>::empty()
        }),
{
    let n = stats_of(loaded(rows, now_ms), id);
    let now = hour_of(now_ms) as int;
    lemma_window_start(now_ms, 24);
    lemma_window_start(now_ms, 168);
    lemma_loaded(rows, now_ms, id, window_start(now_ms, 24), now);
    lemma_loaded(rows, now_ms, id, window_start(now_ms, 168), now);
    lemma_idle_ring(advanced(n, now_ms / MINUTE_MS).minutes);
}

// ---- windows in each other ----

/// The matches or the requests of a bucket.
pub open spec fn part(b: Bucket, matches: bool) -> nat {
    if matches {
        b.matches as nat
    } else {
        b.requests as nat
    }
}

/// The sum of a ring's slots.
spec fn ring_sum(minutes: Seq<Bucket>, matches: bool) -> nat
    decreases minutes.len(),
{
    if minutes.len() == 0 {
        0
    } else {
        ring_sum(minutes.drop_last(), matches) + part(minutes.last(), matches)
    }
}

/// The sum of the slots whose minute is in an hour.
spec fn ring_hour(minutes: Seq<Bucket>, head: int, hour: int, matches: bool) -> nat
    decreases minutes.len(),
{
    if minutes.len() == 0 {
        0
    } else {
        ring_hour(minutes.drop_last(), head, hour, matches) + (if latest_in_slot(
            head,
            minutes.len() - 1,
        ) / 60 == hour {
            part(minutes.last(), matches)
        } else {
            0
        })
    }
}

/// The sum of the hours from `from` to `to`.
spec fn hours_sum(hours: Seq<(u64, Bucket)>, from: int, to: int, matches: bool) -> nat
    decreases hours.len(),
{
    if hours.len() == 0 {
        0
    } else {
        hours_sum(hours.drop_last(), from, to, matches) + (if from <= hours.last().0 <= to {
            part(hours.last().1, matches)
        } else {
            0
        })
    }
}

/// No more matches than requests.
pub open spec fn is_fair(b: Bucket) -> bool {
    b.matches <= b.requests
}

/// The counts of a node agree with each other: no hour has less than its
/// minutes in the ring, and the total is no less than all hours together.
spec fn agrees(n: NodeStatsV, last_ms: u64) -> bool {
    &&& node_ok(n)
    &&& n.head_minute <= last_ms / MINUTE_MS
    &&& is_fair(n.total)
    &&& forall|i: int| 0 <= i < n.minutes.len() ==> is_fair(#[trigger] n.minutes[i])
    &&& forall|i: int|
        0 <= i < n.hours.len() ==> is_fair((#[trigger] n.hours[i]).1) && n.hours[i].0 <= last_ms
    &&& forall|m: bool| #[trigger]
        hours_sum(n.hours, 0, u64::MAX as int, m) <= part(n.total, m)
    &&& forall|h: int, m: bool| #[trigger]
        ring_hour(n.minutes, n.head_minute as int, h, m) <= hours_sum(
            n.hours,
            h * HOUR_MS,
            h * HOUR_MS,
            m,
        )
}

proof fn lemma_ring_hours(minutes: Seq<Bucket>, head: int, matches: bool)
    requires
        minutes.len() <= RING,
    ensures
        ring_sum(minutes, matches) == ring_hour(minutes, head, head / 60, matches) + ring_hour(
            minutes,
            head,
            head / 60 - 1,
            matches,
        ),
    decreases minutes.len(),
{
    if minutes.len() > 0 {
        lemma_ring_hours(minutes.drop_last(), head, matches);
        let i = minutes.len() - 1;
        let at = latest_in_slot(head, i);
        assert(head - 60 < at <= head);
        assert(at / 60 == head / 60 || at / 60 == head / 60 - 1);
    }
}

proof fn lemma_two_hours(hours: Seq<(u64, Bucket)>, a: int, b: int, from: int, to: int, m: bool)
    requires
        from <= a < b <= to,
    ensures
        hours_sum(hours, a, a, m) + hours_sum(hours, b, b, m) <= hours_sum(hours, from, to, m),
    decreases hours.len(),
{
    if hours.len() > 0 {
        lemma_two_hours(hours.drop_last(), a, b, from, to, m);
    }
}

proof fn lemma_wider(hours: Seq<(u64, Bucket)>, a: int, b: int, from: int, to: int, m: bool)
    requires
        from <= a,
        b <= to,
    ensures
        hours_sum(hours, a, b, m) <= hours_sum(hours, from, to, m),
    decreases hours.len(),
{
    if hours.len() > 0 {
        lemma_wider(hours.drop_last(), a, b, from, to, m);
    }
}

proof fn lemma_fair_hours(hours: Seq<(u64, Bucket)>, from: int, to: int)
    requires
        forall|i: int| 0 <= i < hours.len() ==> is_fair((#[trigger] hours[i]).1),
    ensures
        hours_sum(hours, from, to, true) <= hours_sum(hours, from, to, false),
    decreases hours.len(),
{
    if hours.len() > 0 {
        assert(is_fair(hours[hours.len() - 1].1));
        let rest = hours.drop_last();
        assert forall|i: int| 0 <= i < rest.len() implies is_fair((#[trigger] rest[i]).1) by {
            assert(rest[i] == hours[i]);
        }
        lemma_fair_hours(rest, from, to);
    }
}

proof fn lemma_fair_ring(minutes: Seq<Bucket>)
    requires
        forall|i: int| 0 <= i < minutes.len() ==> is_fair(#[trigger] minutes[i]),
    ensures
        ring_sum(minutes, true) <= ring_sum(minutes, false),
    decreases minutes.len(),
{
    if minutes.len() > 0 {
        assert(is_fair(minutes[minutes.len() - 1]));
        let rest = minutes.drop_last();
        assert forall|i: int| 0 <= i < rest.len() implies is_fair(#[trigger] rest[i]) by {
            assert(rest[i] == minutes[i]);
        }
        lemma_fair_ring(rest);
    }
}

/// Sums that fit are the sums of the counters.
proof fn lemma_between_sum(hours: Seq<(u64, Bucket)>, from: int, to: int, m: bool)
    requires
        hours_sum(hours, from, to, m) <= u64::MAX,
    ensures
        part(hours_between(hours, from, to), m) == hours_sum(hours, from, to, m),
    decreases hours.len(),
{
    if hours.len() > 0 {
        lemma_between_sum(hours.drop_last(), from, to, m);
    }
}

proof fn lemma_all_sum(minutes: Seq<Bucket>, m: bool)
    requires
        ring_sum(minutes, m) <= u64::MAX,
    ensures
        part(all_of(minutes), m) == ring_sum(minutes, m),
    decreases minutes.len(),
{
    if minutes.len() > 0 {
        lemma_all_sum(minutes.drop_last(), m);
    }
}

/// A ring with a later head has no more in any hour.
proof fn lemma_later_ring(
    a: Seq<Bucket>,
    b: Seq<Bucket>,
    from: int,
    to: int,
    hour: int,
    m: bool,
)
    requires
        0 <= from <= to,
        a.len() == b.len() <= RING,
        forall|i: int|
            0 <= i < a.len() ==> #[trigger] b[i] == (if latest_in_slot(to, i) > from {
                nothing()
            } else {
                a[i]
            }),
    ensures
        ring_hour(b, to, hour, m) <= ring_hour(a, from, hour, m),
    decreases a.len(),
{
    if a.len() > 0 {
        let x = a.drop_last();
        let y = b.drop_last();
        assert forall|i: int| 0 <= i < x.len() implies #[trigger] y[i] == (if latest_in_slot(to, i)
            > from {
            nothing()
        } else {
            x[i]
        }) by {
            assert(y[i] == b[i] && x[i] == a[i]);
        }
        lemma_later_ring(x, y, from, to, hour, m);
        let i = a.len() - 1;
        assert(b[i] == b.last() && a[i] == a.last());
        let at = latest_in_slot(to, i);
        if at <= from {
            let was = latest_in_slot(from, i);
            assert(at == was) by (nonlinear_arith)
                requires
                    at == to - (to - i) % 60,
                    was == from - (from - i) % 60,
                    at <= from <= to,
            ;
        }
    }
}

proof fn lemma_advanced_agrees(n: NodeStatsV, last_ms: u64, now_ms: u64)
    requires
        agrees(n, last_ms),
        last_ms <= now_ms,
    ensures
        agrees(advanced(n, now_ms / MINUTE_MS), now_ms),
        advanced(n, now_ms / MINUTE_MS).head_minute == now_ms / MINUTE_MS,
{
    let minute = now_ms / MINUTE_MS;
    let m = advanced(n, minute);
    if minute > n.head_minute {
        assert forall|h: int, k: bool| #[trigger]
            ring_hour(m.minutes, m.head_minute as int, h, k) <= hours_sum(
                m.hours,
                h * HOUR_MS,
                h * HOUR_MS,
                k,
            ) by {
            lemma_later_ring(
                n.minutes,
                m.minutes,
                n.head_minute as int,
                minute as int,
                h,
                k,
            );
            assert(ring_hour(n.minutes, n.head_minute as int, h, k) <= hours_sum(
                n.hours,
                h * HOUR_MS,
                h * HOUR_MS,
                k,
            ));
        }
        assert forall|i: int| 0 <= i < m.minutes.len() implies is_fair(#[trigger] m.minutes[i]) by {
            assert(is_fair(n.minutes[i]));
        }
    }
}

/// One more in a slot is one more in the hour of its minute.
proof fn lemma_slot_counted(
    minutes: Seq<Bucket>,
    head: int,
    slot: int,
    b: Bucket,
    hour: int,
    m: bool,
)
    requires
        0 <= slot < minutes.len(),
    ensures
        ring_hour(minutes.update(slot, b), head, hour, m) + (if latest_in_slot(head, slot) / 60
            == hour {
            part(minutes[slot], m)
        } else {
            0
        }) == ring_hour(minutes, head, hour, m) + (if latest_in_slot(head, slot) / 60 == hour {
            part(b, m)
        } else {
            0
        }),
    decreases minutes.len(),
{
    let out = minutes.update(slot, b);
    if slot == minutes.len() - 1 {
        assert(out.drop_last() =~= minutes.drop_last());
    } else {
        lemma_slot_counted(minutes.drop_last(), head, slot, b, hour, m);
        assert(out.drop_last() =~= minutes.drop_last().update(slot, b));
    }
}

proof fn lemma_sum_insert(
    hours: Seq<(u64, Bucket)>,
    k: int,
    e: (u64, Bucket),
    from: int,
    to: int,
    m: bool,
)
    requires
        0 <= k <= hours.len(),
    ensures
        hours_sum(hours.insert(k, e), from, to, m) == hours_sum(hours, from, to, m) + (if from
            <= e.0 <= to {
            part(e.1, m)
        } else {
            0
        }),
    decreases hours.len() - k,
{
    let out = hours.insert(k, e);
    if k == hours.len() {
        assert(out.drop_last() =~= hours);
    } else {
        lemma_sum_insert(hours.drop_last(), k, e, from, to, m);
        assert(out.drop_last() =~= hours.drop_last().insert(k, e));
        assert(out.last() == hours.last());
    }
}

proof fn lemma_sum_update(
    hours: Seq<(u64, Bucket)>,
    k: int,
    b: Bucket,
    from: int,
    to: int,
    m: bool,
)
    requires
        0 <= k < hours.len(),
    ensures
        ({
            let inside = from <= hours[k].0 <= to;
            hours_sum(hours.update(k, (hours[k].0, b)), from, to, m) + (if inside {
                part(hours[k].1, m)
            } else {
                0
            }) == hours_sum(hours, from, to, m) + (if inside {
                part(b, m)
            } else {
                0
            })
        }),
    decreases hours.len() - k,
{
    let out = hours.update(k, (hours[k].0, b));
    let rest = hours.drop_last();
    if k == hours.len() - 1 {
        assert(out.drop_last() =~= rest);
    } else {
        lemma_sum_update(rest, k, b, from, to, m);
        assert(out.drop_last() =~= rest.update(k, (rest[k].0, b)));
        assert(out.last() == hours.last());
    }
}

proof fn lemma_sum_skip(hours: Seq<(u64, Bucket)>, k: int, from: int, to: int, m: bool)
    requires
        0 <= k <= hours.len(),
    ensures
        hours_sum(hours.skip(k), from, to, m) <= hours_sum(hours, from, to, m),
        (forall|i: int| 0 <= i < k ==> (#[trigger] hours[i]).0 < from) ==> hours_sum(
            hours.skip(k),
            from,
            to,
            m,
        ) == hours_sum(hours, from, to, m),
    decreases hours.len(),
{
    if hours.len() > 0 {
        let rest = hours.drop_last();
        if k == hours.len() {
            assert(hours.skip(k) =~= Seq::empty());
            assert(rest.skip(k - 1) =~= Seq::empty());
            lemma_sum_skip(rest, k - 1, from, to, m);
            if forall|i: int| 0 <= i < k ==> (#[trigger] hours[i]).0 < from {
                assert(hours[k - 1].0 < from);
            }
        } else {
            lemma_sum_skip(rest, k, from, to, m);
            assert(hours.skip(k).drop_last() =~= rest.skip(k));
        }
    } else {
        assert(hours.skip(k) =~= hours);
    }
}

/// What one more request adds to the sum of some hours, before old hours are
/// let go.
proof fn lemma_counted_sum(n: NodeStatsV, is_match: bool, now_ms: u64, from: int, to: int, m: bool)
    requires
        node_ok(n),
        bucket_at(n.hours, hour_of(now_ms)).requests < u64::MAX,
        is_fair(bucket_at(n.hours, hour_of(now_ms))),
    ensures
        hours_sum(counted_hours(n, is_match, now_ms), from, to, m) == hours_sum(
            n.hours,
            from,
            to,
            m,
        ) + (if from <= hour_of(now_ms) <= to {
            part(one_request(is_match), m)
        } else {
            0
        }),
{
    let hour = hour_of(now_ms);
    let one = one_request(is_match);
    let k = hours_before(n.hours, hour) as int;
    lemma_hours_before(n.hours, hour);
    if k < n.hours.len() && n.hours[k].0 == hour {
        lemma_sum_update(n.hours, k, together(n.hours[k].1, one), from, to, m);
    } else {
        lemma_sum_insert(n.hours, k, (hour, together(nothing(), one)), from, to, m);
    }
}

proof fn lemma_bucket_bound(n: NodeStatsV, hour: u64)
    requires
        node_ok(n),
        forall|m: bool| #[trigger]
            hours_sum(n.hours, 0, u64::MAX as int, m) <= part(n.total, m),
        forall|i: int| 0 <= i < n.hours.len() ==> is_fair((#[trigger] n.hours[i]).1),
    ensures
        bucket_at(n.hours, hour).requests <= n.total.requests,
        is_fair(bucket_at(n.hours, hour)),
{
    let k = hours_before(n.hours, hour) as int;
    lemma_hours_before(n.hours, hour);
    if k < n.hours.len() && n.hours[k].0 == hour {
        lemma_sum_update(n.hours, k, nothing(), 0, u64::MAX as int, false);
        assert(hours_sum(n.hours, 0, u64::MAX as int, false) <= part(n.total, false));
        assert(is_fair(n.hours[k].1));
    }
}

proof fn lemma_recorded_agrees(n: NodeStatsV, is_match: bool, last_ms: u64, now_ms: u64)
    requires
        agrees(n, last_ms),
        last_ms <= now_ms,
        n.total.requests < u64::MAX,
    ensures
        agrees(recorded(n, is_match, now_ms), now_ms),
{
    let v = advanced(n, now_ms / MINUTE_MS);
    let after = recorded(n, is_match, now_ms);
    let hour = hour_of(now_ms);
    let one = one_request(is_match);
    let all = counted_hours(v, is_match, now_ms);
    let head = v.head_minute as int;
    let slot = (v.head_minute % (RING as u64)) as int;
    lemma_advanced_agrees(n, last_ms, now_ms);
    lemma_window_start(now_ms, 1);
    lemma_bucket_bound(v, hour);
    lemma_recorded_hours(v, is_match, now_ms);
    assert(recorded(v, is_match, now_ms) == after);
    assert(latest_in_slot(head, slot) == head) by (nonlinear_arith)
        requires
            latest_in_slot(head, slot) == head - (head - slot) % 60,
            slot == head % 60,
    ;
    assert(head / 60 == now_ms / HOUR_MS);
    let h0 = (now_ms / HOUR_MS) as int;
    let cutoff = let_go_before(now_ms);
    let k = if all.len() > RETAIN_HOURS {
        lemma_hours_before(all, cutoff);
        lemma_kept_hours(all, cutoff);
        hours_before(all, cutoff) as int
    } else {
        0
    };
    assert(all.skip(0) =~= all);
    assert(after.hours == all.skip(k));
    // The ring.
    assert(is_fair(v.minutes[slot]));
    lemma_ring_bound(v, slot);
    assert forall|i: int| 0 <= i < after.minutes.len() implies is_fair(
        #[trigger] after.minutes[i],
    ) by {
        assert(is_fair(v.minutes[i]));
    }
    // The hours.
    let at = hours_before(v.hours, hour) as int;
    lemma_hours_before(v.hours, hour);
    assert forall|i: int| 0 <= i < after.hours.len() implies is_fair(
        (#[trigger] after.hours[i]).1,
    ) && after.hours[i].0 <= now_ms by {
        let j = i + k;
        assert(after.hours[i] == all[j]);
        let same = at < v.hours.len() && v.hours[at].0 == hour;
        if j < at || (same && j > at) {
            assert(all[j] == v.hours[j]);
        } else if j > at {
            assert(all[j] == v.hours[j - 1]);
        } else {
            assert(all[j].0 == hour);
        }
    }
    assert forall|m: bool| #[trigger]
        hours_sum(after.hours, 0, u64::MAX as int, m) <= part(after.total, m) by {
        lemma_counted_sum(v, is_match, now_ms, 0, u64::MAX as int, m);
        lemma_sum_skip(all, k, 0, u64::MAX as int, m);
        assert(hours_sum(v.hours, 0, u64::MAX as int, m) <= part(v.total, m));
    }
    assert forall|h: int, m: bool| #[trigger]
        ring_hour(after.minutes, after.head_minute as int, h, m) <= hours_sum(
            after.hours,
            h * HOUR_MS,
            h * HOUR_MS,
            m,
        ) by {
        let x = h * HOUR_MS;
        lemma_slot_counted(v.minutes, head, slot, together(v.minutes[slot], one), h, m);
        lemma_counted_sum(v, is_match, now_ms, x, x, m);
        lemma_sum_skip(all, k, x, x, m);
        assert(ring_hour(v.minutes, head, h, m) <= hours_sum(v.hours, x, x, m));
        assert(x == hour <==> h == h0);
        if h < h0 - 1 || h > h0 {
            lemma_ring_elsewhere(after.minutes, head, h, m);
        } else if h < 0 {
            lemma_before_time(v.hours, x, m);
        } else {
            assert(x >= cutoff);
        }
    }
}

/// Hours other than that of the head and the one before have no slots.
proof fn lemma_ring_elsewhere(minutes: Seq<Bucket>, head: int, hour: int, m: bool)
    requires
        minutes.len() <= RING,
        hour < head / 60 - 1 || hour > head / 60,
    ensures
        ring_hour(minutes, head, hour, m) == 0,
    decreases minutes.len(),
{
    if minutes.len() > 0 {
        lemma_ring_elsewhere(minutes.drop_last(), head, hour, m);
        let at = latest_in_slot(head, minutes.len() - 1);
        assert(head - 60 < at <= head);
    }
}

/// A slot of the ring holds no more than the total.
proof fn lemma_ring_bound(n: NodeStatsV, slot: int)
    requires
        node_ok(n),
        forall|m: bool| #[trigger]
            hours_sum(n.hours, 0, u64::MAX as int, m) <= part(n.total, m),
        forall|h: int, m: bool| #[trigger]
            ring_hour(n.minutes, n.head_minute as int, h, m) <= hours_sum(
                n.hours,
                h * HOUR_MS,
                h * HOUR_MS,
                m,
            ),
        0 <= slot < n.minutes.len(),
    ensures
        n.minutes[slot].requests <= n.total.requests,
{
    let head = n.head_minute as int;
    let h = latest_in_slot(head, slot) / 60;
    let x = h * HOUR_MS;
    lemma_slot_counted(n.minutes, head, slot, nothing(), h, false);
    assert(ring_hour(n.minutes, head, h, false) <= hours_sum(n.hours, x, x, false));
    lemma_at_most_all(n.hours, x, false);
    assert(hours_sum(n.hours, 0, u64::MAX as int, false) <= part(n.total, false));
}

proof fn lemma_at_most_all(hours: Seq<(u64, Bucket)>, x: int, m: bool)
    ensures
        hours_sum(hours, x, x, m) <= hours_sum(hours, 0, u64::MAX as int, m),
    decreases hours.len(),
{
    if hours.len() > 0 {
        lemma_at_most_all(hours.drop_last(), x, m);
    }
}

/// Buckets of which the first is in the second.
pub open spec fn within(a: Bucket, b: Bucket) -> bool {
    a.requests <= b.requests && a.matches <= b.matches
}

proof fn lemma_sums_nest(v: NodeStatsV, now_ms: u64)
    requires
        agrees(v, now_ms),
        v.head_minute == now_ms / MINUTE_MS,
    ensures
        forall|m: bool| #[trigger]
            sums_nest(
                v,
                window_start(now_ms, 24),
                window_start(now_ms, 168),
                hour_of(now_ms) as int,
                m,
            ),
{
    let now = hour_of(now_ms) as int;
    let day = window_start(now_ms, 24);
    let week = window_start(now_ms, 168);
    let h = (now_ms / HOUR_MS) as int;
    lemma_window_start(now_ms, 24);
    lemma_window_start(now_ms, 168);
    assert(v.head_minute as int / 60 == h);
    assert forall|m: bool| #[trigger] sums_nest(v, day, week, now, m) by {
        lemma_ring_hours(v.minutes, v.head_minute as int, m);
        let a = (h - 1) * HOUR_MS;
        let b = h * HOUR_MS;
        assert(ring_hour(v.minutes, v.head_minute as int, h, m) <= hours_sum(v.hours, b, b, m));
        assert(ring_hour(v.minutes, v.head_minute as int, h - 1, m) <= hours_sum(
            v.hours,
            a,
            a,
            m,
        ));
        if h >= 1 {
            assert(day <= a);
            lemma_two_hours(v.hours, a, b, day, now, m);
        } else {
            lemma_before_time(v.hours, a, m);
            lemma_wider(v.hours, b, b, day, now, m);
        }
        lemma_wider(v.hours, day, now, week, now, m);
        lemma_wider(v.hours, week, now, 0, u64::MAX as int, m);
        assert(hours_sum(v.hours, 0, u64::MAX as int, m) <= part(v.total, m));
        lemma_all_sum(v.minutes, m);
        lemma_between_sum(v.hours, day, now, m);
        lemma_between_sum(v.hours, week, now, m);
    }
}

proof fn lemma_nested(id: u32, n: NodeStatsV, last_ms: u64, now_ms: u64)
    requires
        agrees(n, last_ms),
        last_ms <= now_ms,
    ensures
        ({
            let w = windows_of(id, n, now_ms);
            &&& is_fair(w.m60) && is_fair(w.h24) && is_fair(w.d7) && is_fair(w.all)
            &&& within(w.m60, w.h24)
            &&& within(w.h24, w.d7)
            &&& within(w.d7, w.all)
        }),
{
    let v = advanced(n, now_ms / MINUTE_MS);
    lemma_advanced_agrees(n, last_ms, now_ms);
    let now = hour_of(now_ms) as int;
    let day = window_start(now_ms, 24);
    let week = window_start(now_ms, 168);
    lemma_fair_hours(v.hours, day, now);
    lemma_fair_hours(v.hours, week, now);
    lemma_fair_ring(v.minutes);
    lemma_sums_nest(v, now_ms);
    assert(sums_nest(v, day, week, now, true) && sums_nest(v, day, week, now, false));
}

spec fn sums_nest(v: NodeStatsV, day: int, week: int, now: int, m: bool) -> bool {
    &&& part(all_of(v.minutes), m) == ring_sum(v.minutes, m)
    &&& part(hours_between(v.hours, day, now), m) == hours_sum(v.hours, day, now, m)
    &&& part(hours_between(v.hours, week, now), m) == hours_sum(v.hours, week, now, m)
    &&& ring_sum(v.minutes, m) <= hours_sum(v.hours, day, now, m)
    &&& hours_sum(v.hours, day, now, m) <= hours_sum(v.hours, week, now, m)
    &&& hours_sum(v.hours, week, now, m) <= part(v.total, m)
}

proof fn lemma_before_time(hours: Seq<(u64, Bucket)>, x: int, m: bool)
    requires
        x < 0,
    ensures
        hours_sum(hours, x, x, m) == 0,
    decreases hours.len(),
{
    if hours.len() > 0 {
        lemma_before_time(hours.drop_last(), x, m);
    }
}

// ---- a whole history ----

/// What happens to the counts.
pub enum StatsEvent {
    Record { node_id: u32, is_match: bool, now_ms: u64 },
    Snapshot { now_ms: u64 },
}

pub open spec fn event_time(e: StatsEvent) -> u64 {
    match e {
        StatsEvent::Record { now_ms, .. } => now_ms,
        StatsEvent::Snapshot { now_ms } => now_ms,
    }
}

/// The counts after some events, from none.
pub open spec fn after_events(events: Seq<StatsEvent>) -> Map<u32, NodeStatsV>
    decreases events.len(),
{
    if events.len() == 0 {
        Map::empty()
    } else {
        let s = after_events(events.drop_last());
        match events.last() {
            StatsEvent::Record { node_id, is_match, now_ms } => s.insert(
                node_id,
                recorded(stats_of(s, node_id), is_match, now_ms),
            ),
            StatsEvent::Snapshot { now_ms } => s.map_values(
                |n: NodeStatsV| advanced(n, now_ms / MINUTE_MS),
            ),
        }
    }
}

pub open spec fn is_record_of(e: StatsEvent, id: u32) -> bool {
    e matches StatsEvent::Record { node_id, .. } && node_id == id
}

/// How many requests of a node were counted.
pub open spec fn records_of(events: Seq<StatsEvent>, id: u32) -> nat
    decreases events.len(),
{
    if events.len() == 0 {
        0
    } else {
        records_of(events.drop_last(), id) + (if is_record_of(events.last(), id) {
            1nat
        } else {
            0
        })
    }
}

/// Time does not run backwards.
pub open spec fn in_time_order(events: Seq<StatsEvent>, now_ms: u64) -> bool {
    &&& forall|i: int, j: int|
        0 <= i < j < events.len() ==> event_time(#[trigger] events[i]) <= event_time(
            #[trigger] events[j],
        )
    &&& forall|i: int| 0 <= i < events.len() ==> event_time(#[trigger] events[i]) <= now_ms
}

proof fn lemma_idle_agrees(now_ms: u64)
    ensures
        agrees(idle_node(), now_ms),
{
    let n = idle_node();
    assert forall|h: int, m: bool| #[trigger]
        ring_hour(n.minutes, n.head_minute as int, h, m) <= hours_sum(
            n.hours,
            h * HOUR_MS,
            h * HOUR_MS,
            m,
        ) by {
        lemma_idle_hour(n.minutes, 0, h, m);
    }
}

proof fn lemma_idle_hour(minutes: Seq<Bucket>, head: int, h: int, m: bool)
    requires
        forall|i: int| 0 <= i < minutes.len() ==> #[trigger] minutes[i] == nothing(),
    ensures
        ring_hour(minutes, head, h, m) == 0,
    decreases minutes.len(),
{
    if minutes.len() > 0 {
        assert(minutes[minutes.len() - 1] == nothing());
        assert forall|i: int| 0 <= i < minutes.drop_last().len() implies
            #[trigger] minutes.drop_last()[i] == nothing() by {
            assert(minutes.drop_last()[i] == minutes[i]);
        }
        lemma_idle_hour(minutes.drop_last(), head, h, m);
    }
}

proof fn lemma_history(events: Seq<StatsEvent>, now_ms: u64, id: u32)
    requires
        in_time_order(events, now_ms),
        events.len() <= u64::MAX,
    ensures
        agrees(stats_of(after_events(events), id), now_ms),
        stats_of(after_events(events), id).total.requests == records_of(events, id),
        records_of(events, id) <= events.len(),
        after_events(events).contains_key(id) <==> records_of(events, id) > 0,
    decreases events.len(),
{
    if events.len() == 0 {
        lemma_idle_agrees(now_ms);
    } else {
        let rest = events.drop_last();
        let s = after_events(rest);
        let at = event_time(events.last());
        assert(events.last() == events[events.len() - 1]);
        assert(in_time_order(rest, at)) by {
            assert forall|i: int| 0 <= i < rest.len() implies event_time(#[trigger] rest[i])
                <= at by {
                assert(rest[i] == events[i]);
                assert(event_time(events[i]) <= event_time(events[events.len() - 1]));
            }
            assert forall|i: int, j: int| 0 <= i < j < rest.len() implies event_time(
                #[trigger] rest[i],
            ) <= event_time(#[trigger] rest[j]) by {
                assert(rest[i] == events[i] && rest[j] == events[j]);
            }
        }
        lemma_history(rest, at, id);
        let was = stats_of(s, id);
        match events.last() {
            StatsEvent::Record { node_id, is_match, now_ms: t } => {
                if node_id == id {
                    lemma_recorded_agrees(was, is_match, at, at);
                }
            },
            StatsEvent::Snapshot { now_ms: t } => {
                lemma_advanced_agrees(was, at, at);
                if !s.contains_key(id) {
                    lemma_idle_agrees(now_ms);
                }
            },
        }
        let n = stats_of(after_events(events), id);
        if n != idle_node() {
            assert(agrees(n, at));
        }
        assert(at / MINUTE_MS <= now_ms / MINUTE_MS);
    }
}

/// Counted from the start, as long as time does not run backwards: the nodes
/// are those of which a request was counted; the total is how many there were;
/// no window has more matches than requests; and the last hour is within the
/// last day, that within the last week, and that within the total.
pub proof fn law_windows_nest(events: Seq<StatsEvent>, now_ms: u64, id: u32)
    requires
        in_time_order(events, now_ms),
        events.len() <= u64::MAX,
    ensures
        ({
            let s = after_events(events);
            let w = windows_of(id, stats_of(s, id), now_ms);
            &&& s.contains_key(id) <==> records_of(events, id) > 0
            &&& w.all.requests == records_of(events, id)
            &&& is_fair(w.m60) && is_fair(w.h24) && is_fair(w.d7) && is_fair(w.all)
            &&& within(w.m60, w.h24)
            &&& within(w.h24, w.d7)
            &&& within(w.d7, w.all)
        }),
{
    lemma_history(events, now_ms, id);
    lemma_nested(id, stats_of(after_events(events), id), now_ms, now_ms);
}

// ---- windows by the clock ----

/// How many requests of a node came in the units of time from `lo` to `hi`, of
/// so many milliseconds each; or how many of them were matches.
pub open spec fn tally(
    events: Seq<StatsEvent>,
    id: u32,
    matches: bool,
    unit_ms: int,
    lo: int,
    hi: int,
) -> nat
    decreases events.len(),
{
    if events.len() == 0 {
        0
    } else {
        let counts = match events.last() {
            StatsEvent::Record { node_id, is_match, now_ms } => node_id == id && (matches
                ==> is_match) && lo <= now_ms as int / unit_ms <= hi,
            StatsEvent::Snapshot { .. } => false,
        };
        tally(events.drop_last(), id, matches, unit_ms, lo, hi) + (if counts {
            1nat
        } else {
            0
        })
    }
}

/// How many requests of a node came at all; or how many were matches.
pub open spec fn tally_all(events: Seq<StatsEvent>, id: u32, matches: bool) -> nat
    decreases events.len(),
{
    if events.len() == 0 {
        0
    } else {
        let counts = match events.last() {
            StatsEvent::Record { node_id, is_match, .. } => node_id == id && (matches ==> is_match),
            StatsEvent::Snapshot { .. } => false,
        };
        tally_all(events.drop_last(), id, matches) + (if counts {
            1nat
        } else {
            0
        })
    }
}

/// The counts of a node are those of the events up to a time.
spec fn keeps_count(n: NodeStatsV, events: Seq<StatsEvent>, id: u32, last_ms: u64) -> bool {
    &&& n.head_minute <= last_ms / 60_000
    &&& forall|m: bool| #[trigger] part(n.total, m) == tally_all(events, id, m)
    &&& forall|m: bool, lo: int, hi: int|
        lo >= last_ms as int / 3_600_000 - 168 && hi >= last_ms as int / 3_600_000
            ==> #[trigger] tally(events, id, m, 3_600_000, lo, hi) == hours_sum(
            n.hours,
            lo * 3_600_000,
            hi * 3_600_000,
            m,
        )
    &&& forall|i: int, m: bool|
        0 <= i < 60 ==> #[trigger] part(n.minutes[i], m) == tally(
            events,
            id,
            m,
            60_000,
            latest_in_slot(n.head_minute as int, i),
            latest_in_slot(n.head_minute as int, i),
        )
    &&& forall|m: bool, l: int|
        l > n.head_minute ==> #[trigger] tally(events, id, m, 60_000, l, l) == 0
}

proof fn lemma_same_slot(from: int, to: int, i: int)
    requires
        0 <= from <= to,
        latest_in_slot(to, i) <= from,
    ensures
        latest_in_slot(to, i) == latest_in_slot(from, i),
{
    let at = latest_in_slot(to, i);
    let was = latest_in_slot(from, i);
    assert(at == was) by (nonlinear_arith)
        requires
            at == to - (to - i) % 60,
            was == from - (from - i) % 60,
            at <= from <= to,
    ;
}

proof fn lemma_advanced_keeps(
    n: NodeStatsV,
    events: Seq<StatsEvent>,
    id: u32,
    last_ms: u64,
    now_ms: u64,
)
    requires
        agrees(n, last_ms),
        keeps_count(n, events, id, last_ms),
        last_ms <= now_ms,
    ensures
        keeps_count(advanced(n, now_ms / MINUTE_MS), events, id, now_ms),
        advanced(n, now_ms / MINUTE_MS).head_minute == now_ms / MINUTE_MS,
{
    let minute = now_ms / MINUTE_MS;
    let v = advanced(n, minute);
    let head = v.head_minute as int;
    assert forall|i: int, m: bool| 0 <= i < 60 implies #[trigger] part(v.minutes[i], m) == tally(
        events,
        id,
        m,
        60_000,
        latest_in_slot(head, i),
        latest_in_slot(head, i),
    ) by {
        let at = latest_in_slot(head, i);
        assert(part(n.minutes[i], m) == tally(
            events,
            id,
            m,
            60_000,
            latest_in_slot(n.head_minute as int, i),
            latest_in_slot(n.head_minute as int, i),
        ));
        if minute > n.head_minute {
            if at > n.head_minute {
                assert(tally(events, id, m, 60_000, at, at) == 0);
            } else {
                lemma_same_slot(n.head_minute as int, head, i);
            }
        }
    }
}

proof fn lemma_recorded_keeps(
    n: NodeStatsV,
    events: Seq<StatsEvent>,
    id: u32,
    is_match: bool,
    last_ms: u64,
    now_ms: u64,
)
    requires
        agrees(n, last_ms),
        keeps_count(n, events, id, last_ms),
        last_ms <= now_ms,
        n.total.requests < u64::MAX,
    ensures
        keeps_count(
            recorded(n, is_match, now_ms),
            events.push(StatsEvent::Record { node_id: id, is_match, now_ms }),
            id,
            now_ms,
        ),
{
    let e = StatsEvent::Record { node_id: id, is_match, now_ms };
    let more = events.push(e);
    assert(more.drop_last() =~= events);
    let v = advanced(n, now_ms / MINUTE_MS);
    let after = recorded(n, is_match, now_ms);
    let hour = hour_of(now_ms);
    let one = one_request(is_match);
    let all = counted_hours(v, is_match, now_ms);
    let head = v.head_minute as int;
    let slot = (v.head_minute % (RING as u64)) as int;
    lemma_advanced_agrees(n, last_ms, now_ms);
    lemma_advanced_keeps(n, events, id, last_ms, now_ms);
    lemma_window_start(now_ms, 1);
    lemma_bucket_bound(v, hour);
    lemma_recorded_hours(v, is_match, now_ms);
    lemma_ring_bound(v, slot);
    assert(is_fair(v.minutes[slot]));
    assert(recorded(v, is_match, now_ms) == after);
    let cutoff = let_go_before(now_ms);
    let k = if all.len() > RETAIN_HOURS {
        lemma_hours_before(all, cutoff);
        hours_before(all, cutoff) as int
    } else {
        0
    };
    assert(all.skip(0) =~= all);
    assert(after.hours == all.skip(k));
    let h0 = now_ms as int / 3_600_000;
    assert(hour == h0 * 3_600_000);
    assert forall|m: bool| #[trigger] part(after.total, m) == tally_all(more, id, m) by {
        assert(part(v.total, m) == tally_all(events, id, m));
        assert(is_fair(v.total));
    }
    assert forall|m: bool, lo: int, hi: int| lo >= h0 - 168 && hi >= h0 implies #[trigger] tally(
        more,
        id,
        m,
        3_600_000,
        lo,
        hi,
    ) == hours_sum(after.hours, lo * 3_600_000, hi * 3_600_000, m) by {
        assert(tally(events, id, m, 3_600_000, lo, hi) == hours_sum(
            v.hours,
            lo * 3_600_000,
            hi * 3_600_000,
            m,
        ));
        lemma_counted_sum(v, is_match, now_ms, lo * 3_600_000, hi * 3_600_000, m);
        lemma_sum_skip(all, k, lo * 3_600_000, hi * 3_600_000, m);
        assert(lo * 3_600_000 <= hour <= hi * 3_600_000 <==> lo <= h0 <= hi);
    }
    assert(latest_in_slot(head, slot) == head) by (nonlinear_arith)
        requires
            latest_in_slot(head, slot) == head - (head - slot) % 60,
            slot == head % 60,
    ;
    assert(head == now_ms as int / 60_000);
    assert forall|i: int, m: bool| 0 <= i < 60 implies #[trigger] part(after.minutes[i], m) == tally(
        more,
        id,
        m,
        60_000,
        latest_in_slot(head, i),
        latest_in_slot(head, i),
    ) by {
        let at = latest_in_slot(head, i);
        assert(part(v.minutes[i], m) == tally(events, id, m, 60_000, at, at));
        if i != slot {
            assert(at != head) by (nonlinear_arith)
                requires
                    at == head - (head - i) % 60,
                    slot == head % 60,
                    0 <= i < 60,
                    i != slot,
            ;
        }
    }
    assert forall|m: bool, l: int| l > after.head_minute implies #[trigger] tally(
        more,
        id,
        m,
        60_000,
        l,
        l,
    ) == 0 by {
        assert(tally(events, id, m, 60_000, l, l) == 0);
    }
}

/// An event that is no request of a node changes none of its counts.
proof fn lemma_other_event(events: Seq<StatsEvent>, id: u32)
    requires
        events.len() > 0,
        !is_record_of(events.last(), id),
    ensures
        forall|m: bool| #[trigger] tally_all(events, id, m) == tally_all(
            events.drop_last(),
            id,
            m,
        ),
        forall|m: bool, unit: int, lo: int, hi: int| #[trigger]
            tally(events, id, m, unit, lo, hi) == tally(events.drop_last(), id, m, unit, lo, hi),
{
}

proof fn lemma_none_counted(id: u32, last_ms: u64)
    ensures
        keeps_count(idle_node(), Seq::empty(), id, last_ms),
{
}

proof fn lemma_later_keeps(n: NodeStatsV, a: Seq<StatsEvent>, b: Seq<StatsEvent>, id: u32, last_ms: u64, now_ms: u64)
    requires
        keeps_count(n, a, id, last_ms),
        last_ms <= now_ms,
        forall|m: bool| #[trigger] tally_all(b, id, m) == tally_all(a, id, m),
        forall|m: bool, unit: int, lo: int, hi: int| #[trigger]
            tally(b, id, m, unit, lo, hi) == tally(a, id, m, unit, lo, hi),
    ensures
        keeps_count(n, b, id, now_ms),
{
    assert forall|m: bool| #[trigger] part(n.total, m) == tally_all(b, id, m) by {}
    assert forall|m: bool, lo: int, hi: int|
        lo >= now_ms as int / 3_600_000 - 168 && hi >= now_ms as int / 3_600_000 implies
        #[trigger] tally(b, id, m, 3_600_000, lo, hi) == hours_sum(
        n.hours,
        lo * 3_600_000,
        hi * 3_600_000,
        m,
    ) by {
        assert(tally(a, id, m, 3_600_000, lo, hi) == hours_sum(
            n.hours,
            lo * 3_600_000,
            hi * 3_600_000,
            m,
        ));
    }
    assert forall|i: int, m: bool| 0 <= i < 60 implies #[trigger] part(n.minutes[i], m) == tally(
        b,
        id,
        m,
        60_000,
        latest_in_slot(n.head_minute as int, i),
        latest_in_slot(n.head_minute as int, i),
    ) by {}
    assert forall|m: bool, l: int| l > n.head_minute implies #[trigger] tally(
        b,
        id,
        m,
        60_000,
        l,
        l,
    ) == 0 by {
        assert(tally(a, id, m, 60_000, l, l) == 0);
    }
}

proof fn lemma_history_keeps(events: Seq<StatsEvent>, now_ms: u64, id: u32)
    requires
        in_time_order(events, now_ms),
        events.len() <= u64::MAX,
    ensures
        keeps_count(stats_of(after_events(events), id), events, id, now_ms),
    decreases events.len(),
{
    if events.len() == 0 {
        lemma_none_counted(id, now_ms);
        assert(events =~= Seq::empty());
    } else {
        let rest = events.drop_last();
        let s = after_events(rest);
        let at = event_time(events.last());
        assert(events.last() == events[events.len() - 1]);
        assert(in_time_order(rest, at)) by {
            assert forall|i: int| 0 <= i < rest.len() implies event_time(#[trigger] rest[i])
                <= at by {
                assert(rest[i] == events[i]);
                assert(event_time(events[i]) <= event_time(events[events.len() - 1]));
            }
            assert forall|i: int, j: int| 0 <= i < j < rest.len() implies event_time(
                #[trigger] rest[i],
            ) <= event_time(#[trigger] rest[j]) by {
                assert(rest[i] == events[i] && rest[j] == events[j]);
            }
        }
        lemma_history_keeps(rest, at, id);
        lemma_history(rest, at, id);
        let was = stats_of(s, id);
        let n = stats_of(after_events(events), id);
        match events.last() {
            StatsEvent::Record { node_id, is_match, now_ms: t } => {
                if node_id == id {
                    lemma_recorded_keeps(was, rest, id, is_match, at, at);
                    assert(rest.push(events.last()) =~= events);
                    lemma_later_keeps(n, events, events, id, at, now_ms);
                } else {
                    lemma_other_event(events, id);
                    lemma_later_keeps(n, rest, events, id, at, now_ms);
                }
            },
            StatsEvent::Snapshot { now_ms: t } => {
                lemma_other_event(events, id);
                lemma_advanced_keeps(was, rest, id, at, at);
                lemma_later_keeps(n, rest, events, id, at, now_ms);
            },
        }
    }
}

/// The requests in the last 60 minutes up to `head` whose minute has a slot of
/// the ring before `j`.
spec fn tally_slots(events: Seq<StatsEvent>, id: u32, m: bool, head: int, j: int) -> nat
    decreases events.len(),
{
    if events.len() == 0 {
        0
    } else {
        let counts = match events.last() {
            StatsEvent::Record { node_id, is_match, now_ms } => node_id == id && (m ==> is_match)
                && head - 59 <= now_ms as int / 60_000 <= head && (now_ms as int / 60_000) % 60
                < j,
            StatsEvent::Snapshot { .. } => false,
        };
        tally_slots(events.drop_last(), id, m, head, j) + (if counts {
            1nat
        } else {
            0
        })
    }
}

proof fn lemma_next_slot(events: Seq<StatsEvent>, id: u32, m: bool, head: int, j: int)
    requires
        0 <= j < 60,
        0 <= head,
    ensures
        tally_slots(events, id, m, head, j + 1) == tally_slots(events, id, m, head, j) + tally(
            events,
            id,
            m,
            60_000,
            latest_in_slot(head, j),
            latest_in_slot(head, j),
        ),
    decreases events.len(),
{
    if events.len() > 0 {
        lemma_next_slot(events.drop_last(), id, m, head, j);
        match events.last() {
            StatsEvent::Record { now_ms, .. } => {
                let x = now_ms as int / 60_000;
                let at = latest_in_slot(head, j);
                assert(x == at <==> head - 59 <= x <= head && x % 60 == j) by (nonlinear_arith)
                    requires
                        at == head - (head - j) % 60,
                        0 <= j < 60,
                ;
            },
            StatsEvent::Snapshot { .. } => {},
        }
    }
}

proof fn lemma_slots_sum(
    minutes: Seq<Bucket>,
    events: Seq<StatsEvent>,
    id: u32,
    m: bool,
    head: int,
)
    requires
        minutes.len() <= 60,
        0 <= head,
        forall|i: int|
            0 <= i < minutes.len() ==> part(#[trigger] minutes[i], m) == tally(
                events,
                id,
                m,
                60_000,
                latest_in_slot(head, i),
                latest_in_slot(head, i),
            ),
    ensures
        ring_sum(minutes, m) == tally_slots(events, id, m, head, minutes.len() as int),
    decreases minutes.len(),
{
    if minutes.len() == 0 {
        lemma_no_slots(events, id, m, head);
    } else {
        let rest = minutes.drop_last();
        assert forall|i: int| 0 <= i < rest.len() implies part(#[trigger] rest[i], m) == tally(
            events,
            id,
            m,
            60_000,
            latest_in_slot(head, i),
            latest_in_slot(head, i),
        ) by {
            assert(rest[i] == minutes[i]);
        }
        lemma_slots_sum(rest, events, id, m, head);
        lemma_next_slot(events, id, m, head, minutes.len() - 1);
        assert(minutes[minutes.len() - 1] == minutes.last());
    }
}

proof fn lemma_no_slots(events: Seq<StatsEvent>, id: u32, m: bool, head: int)
    ensures
        tally_slots(events, id, m, head, 0) == 0,
        tally_slots(events, id, m, head, 60) == tally(events, id, m, 60_000, head - 59, head),
    decreases events.len(),
{
    if events.len() > 0 {
        lemma_no_slots(events.drop_last(), id, m, head);
    }
}

proof fn lemma_from_the_start(events: Seq<StatsEvent>, id: u32, m: bool, unit: int, lo: int, hi: int)
    requires
        lo <= 0,
        unit > 0,
    ensures
        tally(events, id, m, unit, lo, hi) == tally(events, id, m, unit, 0, hi),
    decreases events.len(),
{
    if events.len() > 0 {
        lemma_from_the_start(events.drop_last(), id, m, unit, lo, hi);
        match events.last() {
            StatsEvent::Record { now_ms, .. } => {
                assert(now_ms as int / unit >= 0) by (nonlinear_arith)
                    requires
                        unit > 0,
                ;
            },
            StatsEvent::Snapshot { .. } => {},
        }
    }
}

proof fn lemma_hours_window(
    n: NodeStatsV,
    events: Seq<StatsEvent>,
    id: u32,
    now_ms: u64,
    hours: int,
    m: bool,
)
    requires
        keeps_count(n, events, id, now_ms),
        1 <= hours <= 168,
    ensures
        hours_sum(n.hours, window_start(now_ms, hours), hour_of(now_ms) as int, m) == tally(
            events,
            id,
            m,
            3_600_000,
            now_ms as int / 3_600_000 - (hours - 1),
            now_ms as int / 3_600_000,
        ),
{
    let h = now_ms as int / 3_600_000;
    let lo = h - (hours - 1);
    let from = if lo >= 0 {
        lo
    } else {
        0
    };
    lemma_window_start(now_ms, hours);
    if lo < 0 {
        lemma_from_the_start(events, id, m, 3_600_000, lo, h);
    }
    assert(window_start(now_ms, hours) == from * 3_600_000);
    assert(hour_of(now_ms) == h * 3_600_000);
    assert(tally(events, id, m, 3_600_000, from, h) == hours_sum(
        n.hours,
        from * 3_600_000,
        h * 3_600_000,
        m,
    ));
}

/// The windows go by the clock. As long as time does not run backwards they
/// count, of the requests of a node and of its matches, those of the last 60
/// minutes, of the last 24 hours, of the last 168, and all; the minute and the
/// hour that are not over are the last ones.
pub proof fn law_windows_go_by_the_clock(events: Seq<StatsEvent>, now_ms: u64, id: u32)
    requires
        in_time_order(events, now_ms),
        events.len() <= u64::MAX,
    ensures
        ({
            let w = windows_of(id, stats_of(after_events(events), id), now_ms);
            let minute = now_ms as int / 60_000;
            let hour = now_ms as int / 3_600_000;
            &&& w.node_id == id
            &&& w.m60.requests == tally(events, id, false, 60_000, minute - 59, minute)
            &&& w.m60.matches == tally(events, id, true, 60_000, minute - 59, minute)
            &&& w.h24.requests == tally(events, id, false, 3_600_000, hour - 23, hour)
            &&& w.h24.matches == tally(events, id, true, 3_600_000, hour - 23, hour)
            &&& w.d7.requests == tally(events, id, false, 3_600_000, hour - 167, hour)
            &&& w.d7.matches == tally(events, id, true, 3_600_000, hour - 167, hour)
            &&& w.all.requests == tally_all(events, id, false)
            &&& w.all.matches == tally_all(events, id, true)
        }),
{
    let n = stats_of(after_events(events), id);
    lemma_history(events, now_ms, id);
    lemma_history_keeps(events, now_ms, id);
    lemma_advanced_agrees(n, now_ms, now_ms);
    lemma_advanced_keeps(n, events, id, now_ms, now_ms);
    let v = advanced(n, now_ms / MINUTE_MS);
    let minute = now_ms as int / 60_000;
    assert(v.head_minute == minute);
    lemma_sums_nest(v, now_ms);
    assert forall|m: bool| #[trigger] part(all_of(v.minutes), m) == tally(
        events,
        id,
        m,
        60_000,
        minute - 59,
        minute,
    ) by {
        assert forall|i: int| 0 <= i < v.minutes.len() implies part(#[trigger] v.minutes[i], m)
            == tally(
            events,
            id,
            m,
            60_000,
            latest_in_slot(minute, i),
            latest_in_slot(minute, i),
        ) by {
            assert(part(v.minutes[i], m) == tally(
                events,
                id,
                m,
                60_000,
                latest_in_slot(v.head_minute as int, i),
                latest_in_slot(v.head_minute as int, i),
            ));
        }
        lemma_slots_sum(v.minutes, events, id, m, minute);
        lemma_no_slots(events, id, m, minute);
        assert(sums_nest(
            v,
            window_start(now_ms, 24),
            window_start(now_ms, 168),
            hour_of(now_ms) as int,
            m,
        ));
    }
    let w = windows_of(id, n, now_ms);
    assert forall|m: bool| #[trigger] part(w.h24, m) == tally(
        events,
        id,
        m,
        3_600_000,
        now_ms as int / 3_600_000 - 23,
        now_ms as int / 3_600_000,
    ) && part(w.d7, m) == tally(
        events,
        id,
        m,
        3_600_000,
        now_ms as int / 3_600_000 - 167,
        now_ms as int / 3_600_000,
    ) by {
        lemma_hours_window(v, events, id, now_ms, 24, m);
        lemma_hours_window(v, events, id, now_ms, 168, m);
        assert(sums_nest(
            v,
            window_start(now_ms, 24),
            window_start(now_ms, 168),
            hour_of(now_ms) as int,
            m,
        ));
    }
    assert(part(w.m60, false) == part(all_of(v.minutes), false));
    assert(part(w.m60, true) == part(all_of(v.minutes), true));
    assert(part(w.all, false) == part(v.total, false));
    assert(part(w.all, true) == part(v.total, true));
    assert(part(w.h24, false) == w.h24.requests && part(w.h24, true) == w.h24.matches);
}

/// A request makes its hour one that is to be written out, and those that were
/// stay so.
pub proof fn law_counted_hours_are_written_out(
    n: NodeStatsV,
    is_match: bool,
    now_ms: u64,
    hour: u64,
)
    ensures
        recorded(n, is_match, now_ms).dirty.contains((now_ms / 3_600_000 * 3_600_000) as u64),
        n.dirty.contains(hour) ==> recorded(n, is_match, now_ms).dirty.contains(hour),
        recorded(n, is_match, now_ms).dirty.contains(hour) ==> n.dirty.contains(hour) || hour
            == now_ms / 3_600_000 * 3_600_000,
{
    let h = hour_of(now_ms);
    let d = n.dirty.push(h);
    assert(d[n.dirty.len() as int] == h);
    if n.dirty.contains(hour) {
        let i = choose|i: int| 0 <= i < n.dirty.len() && n.dirty[i] == hour;
        assert(d[i] == hour);
    }
    if d.contains(hour) && hour != h {
        let i = choose|i: int| 0 <= i < d.len() && d[i] == hour;
        assert(n.dirty[i] == hour);
    }
}

/// What is written out of a node: the hours that changed, each with its bucket.
pub proof fn law_changed_hours_are_written_out(
    s: Map<u32, NodeStatsV>,
    id: u32,
    hour: u64,
    b: Bucket,
    i: int,
)
    requires
        s.contains_key(id),
        node_ok(s[id]),
        0 <= i < s[id].hours.len(),
        s[id].hours[i].0 == hour,
    ensures
        is_dirty(s, id, hour, b) <==> s[id].dirty.contains(hour) && s[id].hours[i].1 == b,
{
    let hours = s[id].hours;
    lemma_hours_before(hours, hour);
    let k = hours_before(hours, hour) as int;
    if i < k {
        assert(hours[i].0 < hour);
    }
    if k < i {
        assert(hours[k].0 >= hour);
        assert(hours[k].0 < hours[i].0);
    }
    assert(k == i);
}

} // verus!
