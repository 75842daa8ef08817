//! What the headers that declare rate limits mean, and what a limiter makes of
//! them.

use crate::ratelimit::{
    acquired, blocked, blocks, cooled_down, declared, default_windows, lemma_blocked, lemma_longest,
    lemma_recent, longest, recent, specs_ok, times_ok, window_in, windows_in, LimiterV, WindowSpec,
};
use crate::text::{
    decimal, first_index, is_white, law_decimal_roundtrip, parsed_unsigned, trim_back,
    trim_front, trimmed,
};
use vstd::prelude::*;

verus! {

// ---- texts ----

/// A number is written in digits alone.
pub proof fn lemma_decimal_digits(v: int)
    requires
        0 <= v,
    ensures
        decimal(v).len() >= 1,
        forall|i: int| 0 <= i < decimal(v).len() ==> '0' <= #[trigger] decimal(v)[i] <= '9',
    decreases v,
{
    if v >= 10 {
        lemma_decimal_digits(v / 10);
        let d = decimal(v / 10);
        assert forall|i: int| 0 <= i < decimal(v).len() implies '0' <= #[trigger] decimal(v)[i]
            <= '9' by {
            if i < d.len() {
                assert(decimal(v)[i] == d[i]);
            }
        }
    }
}

pub proof fn lemma_first_is(s: Seq<char>, c: char, i: int, k: int)
    requires
        0 <= i <= k < s.len(),
        s[k] == c,
        forall|j: int| i <= j < k ==> #[trigger] s[j] != c,
    ensures
        first_index(s, c, i) == Some(k),
    decreases k - i,
{
    if i < k {
        assert(s[i] != c);
        lemma_first_is(s, c, i + 1, k);
    }
}

pub proof fn lemma_first_none(s: Seq<char>, c: char, i: int)
    requires
        0 <= i,
        forall|j: int| i <= j < s.len() ==> #[trigger] s[j] != c,
    ensures
        first_index(s, c, i) is None,
    decreases s.len() - i,
{
    if i < s.len() {
        assert(s[i] != c);
        lemma_first_none(s, c, i + 1);
    }
}

/// Before the first there is none.
pub proof fn lemma_none_before(s: Seq<char>, c: char, i: int)
    requires
        0 <= i,
    ensures
        match first_index(s, c, i) {
            Some(k) => i <= k < s.len() && s[k] == c && forall|j: int|
                i <= j < k ==> #[trigger] s[j] != c,
            None => forall|j: int| i <= j < s.len() ==> #[trigger] s[j] != c,
        },
    decreases s.len() - i,
{
    if i < s.len() && s[i] != c {
        lemma_none_before(s, c, i + 1);
    }
}

/// A text that neither starts nor ends in white space stays as it is.
pub proof fn lemma_trimmed_plain(s: Seq<char>)
    requires
        s.len() > 0 ==> !is_white(s[0]) && !is_white(s.last()),
    ensures
        trimmed(s) == s,
{
}

proof fn lemma_parsed_decimal(v: int, max: int)
    requires
        0 <= v <= max,
    ensures
        parsed_unsigned(decimal(v), max) == Some(v),
{
    law_decimal_roundtrip(v);
    lemma_decimal_digits(v);
    assert(decimal(v)[0] != '+');
}

// ---- headers ----

/// A limit and a number of seconds declare exactly the window that they write.
pub proof fn law_window_reads_back(limit: u32, secs: u64)
    requires
        secs * 1000 <= u64::MAX,
    ensures
        windows_in(decimal(limit as int) + seq![':'] + decimal(secs as int), 0) == seq![
            WindowSpec { limit, window_ms: (secs * 1000) as u64 },
        ],
{
    let l = decimal(limit as int);
    let r = decimal(secs as int);
    let s = l + seq![':'] + r;
    lemma_decimal_digits(limit as int);
    lemma_decimal_digits(secs as int);
    lemma_parsed_decimal(limit as int, u32::MAX as int);
    lemma_parsed_decimal(secs as int, u64::MAX as int);
    assert forall|j: int| 0 <= j < s.len() implies #[trigger] s[j] != ',' by {
        if j < l.len() {
            assert(s[j] == l[j]);
        } else if j > l.len() {
            assert(s[j] == r[j - l.len() - 1]);
        }
    }
    lemma_first_none(s, ',', 0);
    assert(s.subrange(0, s.len() as int) =~= s);
    assert(s[0] == l[0] && s.last() == r.last());
    assert(r.last() == r[r.len() - 1]);
    lemma_trimmed_plain(s);
    assert forall|j: int| 0 <= j < l.len() implies #[trigger] s[j] != ':' by {
        assert(s[j] == l[j]);
    }
    lemma_first_is(s, ':', 0, l.len() as int);
    assert(s.subrange(0, l.len() as int) =~= l);
    assert(s.subrange((l.len() + 1) as int, s.len() as int) =~= r);
    assert(l.last() == l[l.len() - 1]);
    lemma_trimmed_plain(l);
    lemma_trimmed_plain(r);
    let w = WindowSpec { limit, window_ms: (secs * 1000) as u64 };
    assert(window_in(s) == Some(w));
    assert(windows_in(s, 0) =~= seq![w]);
}

/// What stands before a text does not matter to its windows.
proof fn lemma_windows_shift(a: Seq<char>, b: Seq<char>, j: int)
    requires
        0 <= j <= b.len(),
    ensures
        windows_in(a + b, a.len() + j) == windows_in(b, j),
    decreases b.len() - j,
{
    let s = a + b;
    lemma_none_before(b, ',', j);
    match first_index(b, ',', j) {
        Some(k) => {
            assert forall|x: int| a.len() + j <= x < a.len() + k implies #[trigger] s[x] != ',' by {
                assert(s[x] == b[x - a.len()]);
            }
            lemma_first_is(s, ',', a.len() + j, a.len() + k);
            assert(s.subrange(a.len() + j, a.len() + k) =~= b.subrange(j, k));
            lemma_windows_shift(a, b, k + 1);
        },
        None => {
            assert forall|x: int| a.len() + j <= x < s.len() implies #[trigger] s[x] != ',' by {
                assert(s[x] == b[x - a.len()]);
            }
            lemma_first_none(s, ',', a.len() + j);
            assert(s.subrange(a.len() + j, s.len() as int) =~= b.subrange(j, b.len() as int));
        },
    }
}

proof fn lemma_windows_joined(a: Seq<char>, b: Seq<char>, i: int)
    requires
        0 <= i <= a.len(),
    ensures
        windows_in(a + seq![','] + b, i) == windows_in(a, i) + windows_in(b, 0),
    decreases a.len() - i,
{
    let s = a + seq![','] + b;
    lemma_none_before(a, ',', i);
    match first_index(a, ',', i) {
        Some(k) => {
            assert forall|x: int| i <= x < k implies #[trigger] s[x] != ',' by {
                assert(s[x] == a[x]);
            }
            assert(s[k] == a[k]);
            lemma_first_is(s, ',', i, k);
            assert(s.subrange(i, k) =~= a.subrange(i, k));
            lemma_windows_joined(a, b, k + 1);
            match window_in(a.subrange(i, k)) {
                Some(w) => {
                    assert(seq![w] + (windows_in(a, k + 1) + windows_in(b, 0)) =~= (seq![w]
                        + windows_in(a, k + 1)) + windows_in(b, 0));
                },
                None => {},
            }
        },
        None => {
            let n = a.len() as int;
            assert forall|x: int| i <= x < n implies #[trigger] s[x] != ',' by {
                assert(s[x] == a[x]);
            }
            assert(s[n] == ',');
            lemma_first_is(s, ',', i, n);
            assert(s.subrange(i, n) =~= a.subrange(i, n));
            lemma_windows_shift(a + seq![','], b, 0);
            match window_in(a.subrange(i, n)) {
                Some(w) => {
                    assert(seq![w] + Seq::<WindowSpec>::empty() =~= seq![w]);
                },
                None => {
                    assert(Seq::<WindowSpec>::empty() + windows_in(b, 0) =~= windows_in(b, 0));
                },
            }
        },
    }
}

/// Two headers joined by a comma declare the windows of the first, and then
/// those of the second.
pub proof fn law_windows_add_up(a: Seq<char>, b: Seq<char>)
    ensures
        windows_in(a + seq![','] + b, 0) == windows_in(a, 0) + windows_in(b, 0),
{
    lemma_windows_joined(a, b, 0);
}

/// A part without a colon declares no window.
pub proof fn law_other_parts_declare_nothing(part: Seq<char>)
    requires
        forall|i: int| 0 <= i < part.len() ==> #[trigger] part[i] != ',',
        forall|i: int| 0 <= i < part.len() ==> #[trigger] part[i] != ':',
    ensures
        windows_in(part, 0) == Seq::<WindowSpec>::empty(),
{
    lemma_first_none(part, ',', 0);
    assert(part.subrange(0, part.len() as int) =~= part);
    lemma_trim_within(part);
    let t = trimmed(part);
    assert forall|i: int| 0 <= i < t.len() implies #[trigger] t[i] != ':' by {
        assert(t.contains(t[i]));
    }
    lemma_first_none(t, ':', 0);
}

proof fn lemma_front_within(s: Seq<char>)
    ensures
        forall|c: char| #[trigger] trim_front(s).contains(c) ==> s.contains(c),
    decreases s.len(),
{
    if s.len() > 0 && is_white(s[0]) {
        lemma_front_within(s.skip(1));
        assert forall|c: char| #[trigger] trim_front(s).contains(c) implies s.contains(c) by {
            assert(trim_front(s.skip(1)).contains(c));
            let i = choose|i: int| 0 <= i < s.skip(1).len() && s.skip(1)[i] == c;
            assert(s[i + 1] == c);
        }
    }
}

proof fn lemma_back_within(s: Seq<char>)
    ensures
        forall|c: char| #[trigger] trim_back(s).contains(c) ==> s.contains(c),
    decreases s.len(),
{
    if s.len() > 0 && is_white(s.last()) {
        lemma_back_within(s.drop_last());
        assert forall|c: char| #[trigger] trim_back(s).contains(c) implies s.contains(c) by {
            assert(trim_back(s.drop_last()).contains(c));
            let i = choose|i: int| 0 <= i < s.drop_last().len() && s.drop_last()[i] == c;
            assert(s[i] == c);
        }
    }
}

proof fn lemma_trim_within(s: Seq<char>)
    ensures
        forall|c: char| #[trigger] trimmed(s).contains(c) ==> s.contains(c),
{
    lemma_front_within(s);
    lemma_back_within(trim_front(s));
}

// ---- limiters ----

/// A limiter that nobody told anything keeps to 20 requests in a second and
/// 100 in two minutes.
pub proof fn law_default_windows()
    ensures
        default_windows().len() == 2,
        default_windows()[0].limit == 20 && default_windows()[0].window_ms == 1_000,
        default_windows()[1].limit == 100 && default_windows()[1].window_ms == 120_000,
{
}

/// What is let through has room in every window: of the requests before it the
/// one that is `limit` back lies a whole window back, in nanoseconds. And no
/// cooldown nor pause was under way.
pub proof fn law_what_is_sent_has_room(w: LimiterV, now: u64, gap_ns: u64, k: int)
    requires
        times_ok(w.sent, now),
        specs_ok(w.specs),
        acquired(w, now, gap_ns).0 is Send,
        0 <= k < w.specs.len(),
    ensures
        w.sent.len() >= w.specs[k].limit ==> now - w.sent[w.sent.len() - w.specs[k].limit]
            >= w.specs[k].window_ms * 1_000_000,
        w.cooldown_until matches Some(t) ==> t <= now,
        w.pace ==> (w.next_slot matches Some(t) ==> t <= now),
{
    let max = longest(w.specs);
    let sent = recent(w.sent, now, max);
    lemma_recent(w.sent, now, max);
    lemma_blocked(w.specs, sent, now, k);
    lemma_longest(w.specs, k);
    let off = w.sent.len() - sent.len();
    let i = w.sent.len() - w.specs[k].limit;
    if i >= off {
        assert(sent[i - off] == w.sent[i]);
    }
}

proof fn lemma_some_window_blocks(specs: Seq<WindowSpec>, sent: Seq<u64>, now: u64) -> (k: int)
    requires
        blocked(specs, sent, now) > 0,
    ensures
        0 <= k < specs.len(),
        blocks(specs[k], sent, now) == blocked(specs, sent, now),
    decreases specs.len(),
{
    let rest = specs.drop_last();
    if blocks(specs.last(), sent, now) == blocked(specs, sent, now) {
        specs.len() - 1
    } else {
        let k = lemma_some_window_blocks(rest, sent, now);
        assert(rest[k] == specs[k]);
        k
    }
}

/// A window is full at a time: the request that is `limit` back is within it.
pub open spec fn is_full(spec: WindowSpec, sent: Seq<u64>, now: u64) -> bool {
    sent.len() >= spec.limit && now - sent[sent.len() - spec.limit] < spec.window_ms * 1_000_000
}

/// Who is to wait waits for a reason: for a cooldown or a pause to end, and
/// then exactly until it ends, or because a window is full, and then for no
/// longer than until it has room.
pub proof fn law_waiting_has_a_reason(w: LimiterV, now: u64, gap_ns: u64) -> (k: int)
    requires
        times_ok(w.sent, now),
        specs_ok(w.specs),
        acquired(w, now, gap_ns).0 is Wait,
    ensures
        ({
            let n = acquired(w, now, gap_ns).0->Wait_0;
            if w.cooldown_until is Some && w.cooldown_until->0 > now {
                now + n == w.cooldown_until->0
            } else if w.pace && w.next_slot is Some && w.next_slot->0 > now {
                now + n == w.next_slot->0
            } else {
                &&& 0 <= k < w.specs.len()
                &&& is_full(w.specs[k], w.sent, now)
                &&& now + n <= w.sent[w.sent.len() - w.specs[k].limit] + w.specs[k].window_ms
                    * 1_000_000
            }
        }),
{
    if w.cooldown_until is Some && w.cooldown_until->0 > now {
        0
    } else if w.pace && w.next_slot is Some && w.next_slot->0 > now {
        0
    } else {
        let max = longest(w.specs);
        let sent = recent(w.sent, now, max);
        lemma_recent(w.sent, now, max);
        let k = lemma_some_window_blocks(w.specs, sent, now);
        let off = w.sent.len() - sent.len();
        let i = sent.len() - w.specs[k].limit;
        assert(sent[i] == w.sent[off + i]);
        k
    }
}

/// What is sent is counted, once, and puts the next one off by the gap if the
/// limiter paces; what waits is not counted. The windows stay as they are.
pub proof fn law_only_what_is_sent_counts(w: LimiterV, now: u64, gap_ns: u64)
    requires
        now + gap_ns <= u64::MAX,
    ensures
        ({
            let (turn, after) = acquired(w, now, gap_ns);
            &&& after.specs == w.specs
            &&& after.pace == w.pace
            &&& turn is Send ==> {
                &&& after.sent.len() > 0
                &&& after.sent.last() == now
                &&& w.sent_total < u64::MAX ==> after.sent_total == w.sent_total + 1
                &&& w.pace ==> after.next_slot == Some((now + gap_ns) as u64)
                &&& !w.pace ==> after.next_slot == w.next_slot
            }
            &&& turn is Wait ==> after.sent_total == w.sent_total && after.next_slot
                == w.next_slot
        }),
{
}

/// A cooldown ends no sooner than the server asks for, nor than one that is
/// under way, and not later than the later of the two.
pub proof fn law_cooldowns_do_not_shrink(w: LimiterV, until: u64)
    ensures
        ({
            let c = cooled_down(w, until);
            &&& c == (LimiterV { cooldown_until: c.cooldown_until, ..w })
            &&& c.cooldown_until is Some
            &&& c.cooldown_until->0 >= until
            &&& w.cooldown_until matches Some(u) ==> c.cooldown_until->0 >= u
            &&& c.cooldown_until->0 == until || c.cooldown_until == w.cooldown_until
        }),
{
}

/// Windows that the server declares take the place of those before; to declare
/// none changes nothing, and nothing else changes either.
pub proof fn law_declared_windows_count(l: LimiterV, specs: Seq<WindowSpec>)
    ensures
        specs.len() > 0 ==> declared(l, specs).specs == specs,
        specs.len() == 0 ==> declared(l, specs) == l,
        declared(l, specs).sent == l.sent,
        declared(l, specs).cooldown_until == l.cooldown_until,
        declared(l, specs).next_slot == l.next_slot,
        declared(l, specs).pace == l.pace,
        declared(l, specs).sent_total == l.sent_total,
{
}

proof fn lemma_suffix(sent: Seq<u64>, now: u64, window: int, i: int)
    requires
        0 <= i < sent.len(),
        forall|j: int| i <= j < sent.len() ==> now - (#[trigger] sent[j]) < window,
    ensures
        ({
            let kept = recent(sent, now, window);
            &&& kept.len() >= sent.len() - i
            &&& kept[kept.len() - (sent.len() - i)] == sent[i]
        }),
    decreases sent.len(),
{
    if now - sent[0] >= window {
        let rest = sent.skip(1);
        assert(i > 0);
        assert forall|j: int| i - 1 <= j < rest.len() implies now - (#[trigger] rest[j])
            < window by {
            assert(rest[j] == sent[j + 1]);
        }
        assert(rest[i - 1] == sent[i]);
        lemma_suffix(rest, now, window, i - 1);
    }
}

/// No request is forgotten while it is in one of the windows: it stands as far
/// from the end as before, or one further if another was sent.
pub proof fn law_requests_in_a_window_are_kept(
    w: LimiterV,
    now: u64,
    gap_ns: u64,
    i: int,
    k: int,
)
    requires
        times_ok(w.sent, now),
        specs_ok(w.specs),
        0 <= i < w.sent.len(),
        0 <= k < w.specs.len(),
        now - w.sent[i] < w.specs[k].window_ms * 1_000_000,
    ensures
        ({
            let (turn, after) = acquired(w, now, gap_ns);
            let more = if turn is Send {
                1int
            } else {
                0int
            };
            &&& after.sent.len() >= w.sent.len() - i + more
            &&& after.sent[after.sent.len() - (w.sent.len() - i) - more] == w.sent[i]
        }),
{
    lemma_longest(w.specs, k);
    assert forall|j: int| i <= j < w.sent.len() implies now - (#[trigger] w.sent[j]) < longest(
        w.specs,
    ) by {
        if i < j {
            assert(w.sent[i] <= w.sent[j]);
        }
    }
    lemma_suffix(w.sent, now, longest(w.specs), i);
}

} // verus!
