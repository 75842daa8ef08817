//! Sliding-window rate limiters: one for each routing host, and one for each
//! endpoint of a host. Times are in nanoseconds since some start.
//!
//! A limiter starts with the windows of a development key and takes on those
//! that the server declares. The limiter of a host also paces: after a send it
//! waits for a gap, so that the budget of a window is not spent in a burst.

use crate::text::{chars_of, find_char, first_index, parse_unsigned, parsed_unsigned, trim_part, trimmed};
use vstd::prelude::*;
use vstd::string::StringExecFns;

verus! {

/// The windows of a development key: requests and milliseconds.
pub const RL_DEFAULT_WINDOWS: [(u32, u64); 2] = [(20, 1_000), (100, 120_000)];

/// At most `limit` requests in `window_ms` milliseconds.
#[derive(Clone, Copy, Debug, PartialEq, Eq, Structural)]
pub struct WindowSpec {
    pub limit: u32,
    pub window_ms: u64,
}

// ---- headers ----

/// One window of a header: requests, a colon, and seconds.
pub open spec fn window_in(part: Seq<char>) -> Option<WindowSpec> {
    let t = trimmed(part);
    match first_index(t, ':', 0) {
        Some(k) => {
            let limit = parsed_unsigned(trimmed(t.subrange(0, k)), u32::MAX as int);
            let secs = parsed_unsigned(trimmed(t.subrange(k + 1, t.len() as int)), u64::MAX as int);
            match (limit, secs) {
                (Some(l), Some(s)) => if s * 1000 <= u64::MAX {
                    Some(WindowSpec { limit: l as u32, window_ms: (s * 1000) as u64 })
                } else {
                    None
                },
                _ => None,
            }
        },
        None => None,
    }
}

/// The windows of a header from position `i` on; parts that are no window are
/// passed over.
pub open spec fn windows_in(s: Seq<char>, i: int) -> Seq<WindowSpec>
    decreases s.len() - i,
{
    if i < 0 || i > s.len() {
        Seq::empty()
    } else {
        let end = match first_index(s, ',', i) {
            Some(k) => k,
            None => s.len() as int,
        };
        let rest = if first_index(s, ',', i) is Some && i <= end < s.len() {
            windows_in(s, end + 1)
        } else {
            Seq::empty()
        };
        match window_in(s.subrange(i, end)) {
            Some(w) => seq![w] + rest,
            None => rest,
        }
    }
}

fn read_window(s: &Vec<char>, from: usize, to: usize) -> (res: Option<WindowSpec>)
    requires
        from <= to <= s@.len(),
    ensures
        res == window_in(s@.subrange(from as int, to as int)),
{
    let t = trim_part(s, from, to);
    let k: usize = match find_char(&t, ':', 0) {
        Some(k) => k,
        None => {
            return None;
        },
    };
    proof {
        crate::text::lemma_first_index(t@, ':', 0);
    }
    let left = trim_part(&t, 0, k);
    let right = trim_part(&t, k + 1, t.len());
    match (parse_unsigned(&left, u32::MAX as u64), parse_unsigned(&right, u64::MAX)) {
        (Some(limit), Some(secs)) => match secs.checked_mul(1000) {
            Some(window_ms) => Some(WindowSpec { limit: limit as u32, window_ms }),
            None => None,
        },
        _ => None,
    }
}

/// Reads a rate-limit header: "20:1,100:120" is 20 requests in 1 s and 100 in
/// 120 s.
pub fn parse_limit_header(s: &str) -> (res: Vec<WindowSpec>)
    ensures
        res@ == windows_in(s@, 0),
{
    let text = chars_of(s);
    let n: usize = text.len();
    let mut out: Vec<WindowSpec> = Vec::new();
    let mut i: usize = 0;
    assert(out@ + windows_in(s@, 0) =~= windows_in(s@, 0));
    loop
        invariant
            text@ == s@,
            n == text@.len(),
            i <= n,
            out@ + windows_in(s@, i as int) == windows_in(s@, 0),
        decreases text@.len() - i,
    {
        let found = find_char(&text, ',', i);
        proof {
            crate::text::lemma_first_index(s@, ',', i as int);
        }
        let end: usize = match found {
            Some(k) => k,
            None => n,
        };
        let ghost was = out@;
        let ghost rest = windows_in(s@, end + 1);
        match read_window(&text, i, end) {
            Some(w) => {
                out.push(w);
                assert(was + (seq![w] + rest) =~= out@ + rest);
                assert(was + (seq![w] + Seq::<WindowSpec>::empty()) =~= out@);
            },
            None => {
                assert(was + Seq::<WindowSpec>::empty() =~= was);
            },
        }
        match found {
            Some(k) => {
                i = k + 1;
            },
            None => {
                return out;
            },
        }
    }
}

// ---- limiters ----

/// What a limiter knows: its windows, when requests were sent, until when
/// nothing may be sent, and before when the next may not be sent.
#[verifier::ext_equal]
pub struct LimiterV {
    pub specs: Seq<WindowSpec>,
    pub sent: Seq<u64>,
    pub cooldown_until: Option<u64>,
    pub next_slot: Option<u64>,
    pub pace: bool,
    pub sent_total: u64,
}

/// A limiter that was told windows; none changes nothing.
pub open spec fn declared(l: LimiterV, specs: Seq<WindowSpec>) -> LimiterV {
    LimiterV {
        specs: if specs.len() == 0 {
            l.specs
        } else {
            specs
        },
        ..l
    }
}

pub struct RateLimiter {
    key: String,
    specs: Vec<WindowSpec>,
    sent: Vec<u64>,
    cooldown_until: Option<u64>,
    next_slot: Option<u64>,
    pace: bool,
    sent_total: u64,
}

impl View for RateLimiter {
    type V = LimiterV;

    closed spec fn view(&self) -> LimiterV {
        LimiterV {
            specs: self.specs@,
            sent: self.sent@,
            cooldown_until: self.cooldown_until,
            next_slot: self.next_slot,
            pace: self.pace,
            sent_total: self.sent_total,
        }
    }
}

/// The length of a window.
pub open spec fn window_ns(spec: WindowSpec) -> int {
    spec.window_ms * 1_000_000
}

/// The longest window.
pub open spec fn longest(specs: Seq<WindowSpec>) -> int
    decreases specs.len(),
{
    if specs.len() == 0 {
        0
    } else {
        let rest = longest(specs.drop_last());
        if window_ns(specs.last()) > rest {
            window_ns(specs.last())
        } else {
            rest
        }
    }
}

/// The times from the first on that is within a window.
pub open spec fn recent(sent: Seq<u64>, now: u64, window: int) -> Seq<u64>
    decreases sent.len(),
{
    if sent.len() > 0 && now - sent[0] >= window {
        recent(sent.skip(1), now, window)
    } else {
        sent
    }
}

/// In order of time, and none later than `now`.
pub open spec fn times_ok(sent: Seq<u64>, now: u64) -> bool {
    &&& forall|i: int, j: int| 0 <= i <= j < sent.len() ==> #[trigger] sent[i] <= #[trigger] sent[j]
    &&& forall|i: int| 0 <= i < sent.len() ==> #[trigger] sent[i] <= now
}

/// How long one window blocks: until the request leaves it that has `limit` -
/// 1 after it.
pub open spec fn blocks(spec: WindowSpec, sent: Seq<u64>, now: u64) -> int {
    let k = sent.len() - spec.limit;
    if k >= 0 && now - sent[k] < window_ns(spec) {
        window_ns(spec) - (now - sent[k])
    } else {
        0
    }
}

/// How long the windows block: the longest of them.
pub open spec fn blocked(specs: Seq<WindowSpec>, sent: Seq<u64>, now: u64) -> int
    decreases specs.len(),
{
    if specs.len() == 0 {
        0
    } else {
        let rest = blocked(specs.drop_last(), sent, now);
        let d = blocks(specs.last(), sent, now);
        if d > rest {
            d
        } else {
            rest
        }
    }
}

/// The limits are positive.
pub open spec fn specs_ok(specs: Seq<WindowSpec>) -> bool {
    forall|i: int| 0 <= i < specs.len() ==> (#[trigger] specs[i]).limit > 0
}

/// A limiter still cools down.
pub open spec fn is_cooling(w: LimiterV, now: u64) -> bool {
    w.cooldown_until matches Some(t) && t > now
}

/// A limiter still waits for its next slot.
pub open spec fn is_pacing(w: LimiterV, now: u64) -> bool {
    w.pace && (w.next_slot matches Some(t) && t > now)
}

/// The limiter without a cooldown that is over.
pub open spec fn cooled(w: LimiterV) -> LimiterV {
    LimiterV { cooldown_until: None, ..w }
}

/// The limiter after a request was let through.
pub open spec fn let_through(w: LimiterV, now: u64, gap_ns: u64) -> LimiterV {
    LimiterV {
        sent: recent(w.sent, now, longest(w.specs)).push(now),
        cooldown_until: None,
        next_slot: if w.pace {
            Some((now + gap_ns) as u64)
        } else {
            w.next_slot
        },
        sent_total: if w.sent_total < u64::MAX {
            (w.sent_total + 1) as u64
        } else {
            w.sent_total
        },
        ..w
    }
}

/// The default windows.
pub open spec fn default_windows() -> Seq<WindowSpec> {
    seq![
        WindowSpec { limit: RL_DEFAULT_WINDOWS@[0].0, window_ms: RL_DEFAULT_WINDOWS@[0].1 },
        WindowSpec { limit: RL_DEFAULT_WINDOWS@[1].0, window_ms: RL_DEFAULT_WINDOWS@[1].1 },
    ]
}

/// The windows of a development key.
pub fn default_specs() -> (res: Vec<WindowSpec>)
    ensures
        res@ == default_windows(),
        specs_ok(res@),
{
    let (l0, w0): (u32, u64) = RL_DEFAULT_WINDOWS[0];
    let (l1, w1): (u32, u64) = RL_DEFAULT_WINDOWS[1];
    let res: Vec<WindowSpec> = vec![
        WindowSpec { limit: l0, window_ms: w0 },
        WindowSpec { limit: l1, window_ms: w1 },
    ];
    assert(res@ =~= default_windows());
    res
}

/// What is to be done about a request.
#[derive(Clone, Copy, Debug, PartialEq, Eq, Structural)]
pub enum Turn {
    /// It may be sent now, and was counted.
    Send,
    /// It is to be tried again after so many nanoseconds.
    Wait(u64),
}

/// What comes of trying to send a request, and the limiter after it.
pub open spec fn acquired(w: LimiterV, now: u64, gap_ns: u64) -> (Turn, LimiterV) {
    let sent = recent(w.sent, now, longest(w.specs));
    let wait = blocked(w.specs, sent, now);
    if is_cooling(w, now) {
        (Turn::Wait((w.cooldown_until->0 - now) as u64), w)
    } else if is_pacing(w, now) {
        (Turn::Wait((w.next_slot->0 - now) as u64), cooled(w))
    } else if wait > 0 {
        (
            Turn::Wait(
                if wait <= u64::MAX {
                    wait as u64
                } else {
                    u64::MAX
                },
            ),
            LimiterV { sent, ..cooled(w) },
        )
    } else {
        (Turn::Send, let_through(w, now, gap_ns))
    }
}

/// The limiter with nothing to be let through until a time; a longer cooldown
/// stays.
pub open spec fn cooled_down(w: LimiterV, until: u64) -> LimiterV {
    LimiterV {
        cooldown_until: match w.cooldown_until {
            Some(u) => Some(
                if u < until {
                    until
                } else {
                    u
                },
            ),
            None => Some(until),
        },
        ..w
    }
}

pub proof fn lemma_recent(sent: Seq<u64>, now: u64, window: int)
    requires
        times_ok(sent, now),
    ensures
        times_ok(recent(sent, now, window), now),
        recent(sent, now, window).len() <= sent.len(),
        recent(sent, now, window) == sent.skip(sent.len() - recent(sent, now, window).len()),
        forall|i: int|
            0 <= i < sent.len() - recent(sent, now, window).len() ==> now - #[trigger] sent[i]
                >= window,
    decreases sent.len(),
{
    if sent.len() > 0 && now - sent[0] >= window {
        let rest = sent.skip(1);
        assert forall|i: int, j: int| 0 <= i <= j < rest.len() implies #[trigger] rest[i]
            <= #[trigger] rest[j] by {
            assert(rest[i] == sent[i + 1] && rest[j] == sent[j + 1]);
        }
        assert forall|i: int| 0 <= i < rest.len() implies #[trigger] rest[i] <= now by {
            assert(rest[i] == sent[i + 1]);
        }
        lemma_recent(rest, now, window);
        let r = recent(rest, now, window);
        assert(rest.skip(rest.len() - r.len()) =~= sent.skip(sent.len() - r.len()));
        assert forall|i: int| 0 <= i < sent.len() - r.len() implies now - #[trigger] sent[i]
            >= window by {
            if i > 0 {
                assert(rest[i - 1] == sent[i]);
            }
        }
    } else {
        assert(sent.skip(0) =~= sent);
    }
}

impl RateLimiter {
    pub closed spec fn key(&self) -> Seq<char> {
        self.key@
    }

    /// A limiter with some windows, which all have room for a request.
    pub fn new(key: &str, specs: Vec<WindowSpec>, pace: bool) -> (res: Self)
        ensures
            res.key() == key@,
            res@ == (LimiterV {
                specs: specs@,
                sent: Seq::empty(),
                cooldown_until: None,
                next_slot: None,
                pace,
                sent_total: 0,
            }),
    {
        RateLimiter {
            key: key.to_string(),
            specs,
            sent: Vec::new(),
            cooldown_until: None,
            next_slot: None,
            pace,
            sent_total: 0,
        }
    }

    /// The limiter of a host: it paces.
    pub fn for_host(host: &str) -> (res: Self)
        ensures
            res.key() == host@,
            res@.specs == default_windows(),
            res@.sent.len() == 0,
            res@.cooldown_until is None,
            res@.next_slot is None,
            res@.pace,
            res@.sent_total == 0,
    {
        RateLimiter::new(host, default_specs(), true)
    }

    /// The limiter of an endpoint of a host: it does not pace.
    pub fn for_method(host: &str, method: &str) -> (res: Self)
        ensures
            res.key() == host@ + "/"@ + method@,
            res@.specs == default_windows(),
            res@.sent.len() == 0,
            res@.cooldown_until is None,
            res@.next_slot is None,
            !res@.pace,
            res@.sent_total == 0,
    {
        let mut key = host.to_string();
        key.append("/");
        key.append(method);
        RateLimiter::new(key.as_str(), default_specs(), false)
    }

    /// Requests let through since the start.
    pub fn sent_total(&self) -> (res: u64)
        ensures
            res == self@.sent_total,
    {
        self.sent_total
    }

    /// The windows, for the pace.
    pub fn specs(&self) -> (res: &Vec<WindowSpec>)
        ensures
            res@ == self@.specs,
    {
        &self.specs
    }

    /// Takes on windows that the server declared; none changes nothing.
    pub fn update_specs(&mut self, specs: Vec<WindowSpec>)
        ensures
            final(self)@ == declared(old(self)@, specs@),
            final(self).key() == old(self).key(),
    {
        if specs.len() > 0 {
            self.specs = specs;
        }
    }

    fn longest_window(&self) -> (res: u128)
        ensures
            res == longest(self@.specs),
    {
        let mut best: u128 = 0;
        let mut i: usize = 0;
        assert(self.specs@.take(0) =~= Seq::empty());
        while i < self.specs.len()
            invariant
                i <= self.specs@.len(),
                best == longest(self.specs@.take(i as int)),
            decreases self.specs@.len() - i,
        {
            assert(self.specs@.take(i + 1).drop_last() =~= self.specs@.take(i as int));
            let w: u128 = self.specs[i].window_ms as u128 * 1_000_000;
            if w > best {
                best = w;
            }
            i = i + 1;
        }
        assert(self.specs@.take(i as int) =~= self.specs@);
        best
    }

    fn prune(&mut self, now: u64)
        requires
            times_ok(old(self)@.sent, now),
        ensures
            final(self)@ == (LimiterV {
                sent: recent(old(self)@.sent, now, longest(old(self)@.specs)),
                ..old(self)@
            }),
            final(self).key() == old(self).key(),
    {
        let max: u128 = self.longest_window();
        let ghost all = self.sent@;
        let mut k: usize = 0;
        assert(all.skip(0) =~= all);
        while k < self.sent.len() && (now - self.sent[k]) as u128 >= max
            invariant
                self.sent@ == all,
                k <= all.len(),
                times_ok(all, now),
                recent(all.skip(k as int), now, max as int) == recent(all, now, max as int),
            ensures
                k == all.len() || now - all[k as int] < max,
            decreases all.len() - k,
        {
            assert(all.skip(k as int)[0] == all[k as int]);
            assert(all.skip(k as int).skip(1) =~= all.skip(k + 1));
            k = k + 1;
        }
        assert(recent(all.skip(k as int), now, max as int) == all.skip(k as int)) by {
            if k < all.len() {
                assert(all.skip(k as int)[0] == all[k as int]);
            }
        }
        let mut kept: Vec<u64> = Vec::new();
        let mut i: usize = k;
        while i < self.sent.len()
            invariant
                self.sent@ == all,
                k <= i <= all.len(),
                kept@ == all.subrange(k as int, i as int),
            decreases all.len() - i,
        {
            kept.push(self.sent[i]);
            assert(kept@ =~= all.subrange(k as int, i + 1));
            i = i + 1;
        }
        assert(kept@ =~= all.skip(k as int));
        self.sent = kept;
    }

    fn blocked_for(&self, now: u64) -> (res: u128)
        requires
            times_ok(self@.sent, now),
            specs_ok(self@.specs),
        ensures
            res == blocked(self@.specs, self@.sent, now),
    {
        let mut wait: u128 = 0;
        let mut i: usize = 0;
        assert(self.specs@.take(0) =~= Seq::empty());
        while i < self.specs.len()
            invariant
                times_ok(self@.sent, now),
                specs_ok(self@.specs),
                i <= self.specs@.len(),
                wait == blocked(self.specs@.take(i as int), self.sent@, now),
            decreases self.specs@.len() - i,
        {
            assert(self.specs@.take(i + 1).drop_last() =~= self.specs@.take(i as int));
            let spec = self.specs[i];
            assert(self@.specs[i as int].limit > 0);
            let limit: usize = spec.limit as usize;
            let window: u128 = spec.window_ms as u128 * 1_000_000;
            if self.sent.len() >= limit {
                let nth: u64 = self.sent[self.sent.len() - limit];
                let age: u128 = (now - nth) as u128;
                if age < window {
                    let d: u128 = window - age;
                    if d > wait {
                        wait = d;
                    }
                }
            }
            i = i + 1;
        }
        assert(self.specs@.take(i as int) =~= self.specs@);
        wait
    }

    /// Tries to send a request now. If it may be sent it is counted, and a
    /// limiter that paces lets the next one through after a gap.
    pub fn acquire(&mut self, now: u64, gap_ns: u64) -> (res: Turn)
        requires
            times_ok(old(self)@.sent, now),
            specs_ok(old(self)@.specs),
            now + gap_ns <= u64::MAX,
        ensures
            final(self).key() == old(self).key(),
            (res, final(self)@) == acquired(old(self)@, now, gap_ns),
            times_ok(final(self)@.sent, now),
    {
        proof {
            lemma_recent(self@.sent, now, longest(self@.specs));
        }
        if let Some(until) = self.cooldown_until {
            if until > now {
                return Turn::Wait(until - now);
            }
            self.cooldown_until = None;
        }
        if self.pace {
            if let Some(slot) = self.next_slot {
                if slot > now {
                    return Turn::Wait(slot - now);
                }
            }
        }
        self.prune(now);
        let wait: u128 = self.blocked_for(now);
        if wait > 0 {
            return Turn::Wait(
                if wait <= u64::MAX as u128 {
                    wait as u64
                } else {
                    u64::MAX
                },
            );
        }
        self.sent.push(now);
        if self.pace {
            self.next_slot = Some(now + gap_ns);
        }
        self.sent_total = self.sent_total.saturating_add(1);
        Turn::Send
    }

    /// Lets nothing through for a time; a longer cooldown stays.
    pub fn cooldown(&mut self, now: u64, secs: u64)
        requires
            now + secs * 1_000_000_000 <= u64::MAX,
        ensures
            final(self).key() == old(self).key(),
            final(self)@ == cooled_down(old(self)@, (now + secs * 1_000_000_000) as u64),
    {
        let until: u64 = now + secs * 1_000_000_000;
        let longer = match self.cooldown_until {
            Some(u) => u < until,
            None => true,
        };
        if longer {
            self.cooldown_until = Some(until);
        }
    }
}

// ---- laws ----

/// No window ever holds more requests than its limit: of any `limit` + 1
/// requests in a row, the first and the last are a window apart.
pub open spec fn within_limit(spec: WindowSpec, sent: Seq<u64>) -> bool {
    forall|i: int, j: int|
        0 <= i && i + spec.limit == j && j < sent.len() ==> #[trigger] sent[j] - #[trigger] sent[i]
            >= window_ns(spec)
}

pub proof fn lemma_blocked(specs: Seq<WindowSpec>, sent: Seq<u64>, now: u64, k: int)
    requires
        0 <= k < specs.len(),
    ensures
        blocks(specs[k], sent, now) <= blocked(specs, sent, now),
    decreases specs.len(),
{
    if k < specs.len() - 1 {
        lemma_blocked(specs.drop_last(), sent, now, k);
        assert(specs.drop_last()[k] == specs[k]);
    }
}

/// A request that is let through breaks no window: if no window held too many
/// requests before, none does after.
pub proof fn law_budget_is_kept(w: LimiterV, now: u64, gap_ns: u64, k: int)
    requires
        times_ok(w.sent, now),
        specs_ok(w.specs),
        0 <= k < w.specs.len(),
        within_limit(w.specs[k], w.sent),
        blocked(w.specs, recent(w.sent, now, longest(w.specs)), now) == 0,
    ensures
        within_limit(w.specs[k], let_through(w, now, gap_ns).sent),
{
    let spec = w.specs[k];
    let sent = recent(w.sent, now, longest(w.specs));
    lemma_recent(w.sent, now, longest(w.specs));
    lemma_blocked(w.specs, sent, now, k);
    let out = sent.push(now);
    let off = w.sent.len() - sent.len();
    assert forall|i: int, j: int| 0 <= i && i + spec.limit == j && j < out.len() implies
        #[trigger] out[j] - #[trigger] out[i] >= window_ns(spec) by {
        if j < sent.len() {
            assert(sent[i] == w.sent[off + i]);
            assert(sent[j] == w.sent[off + j]);
            assert(w.sent[off + j] - w.sent[off + i] >= window_ns(spec));
        } else {
            assert(i == sent.len() - spec.limit);
            assert(out[i] == sent[i]);
        }
    }
}

/// Waiting as long as a limiter says is enough: if nothing was sent meanwhile,
/// no window blocks any more.
pub proof fn law_wait_is_enough(specs: Seq<WindowSpec>, sent: Seq<u64>, now: u64, later: u64)
    requires
        times_ok(sent, now),
        later >= now + blocked(specs, sent, now),
    ensures
        blocked(specs, sent, later) == 0,
    decreases specs.len(),
{
    if specs.len() > 0 {
        let rest = specs.drop_last();
        assert(blocked(rest, sent, now) <= blocked(specs, sent, now));
        law_wait_is_enough(rest, sent, now, later);
        assert(blocks(specs.last(), sent, now) <= blocked(specs, sent, now));
    }
}

// ---- a whole history ----

/// What happens to a limiter.
pub enum LimiterEvent {
    /// A request is tried at a time, with a gap for the pace.
    Acquire { now: u64, gap_ns: u64 },
    /// The server asked at a time for silence until another.
    Cooldown { now: u64, until: u64 },
}

pub open spec fn moment(e: LimiterEvent) -> u64 {
    match e {
        LimiterEvent::Acquire { now, .. } => now,
        LimiterEvent::Cooldown { now, .. } => now,
    }
}

/// A limiter and the times of all requests that it let through, after an event.
pub open spec fn happened(at: (LimiterV, Seq<u64>), e: LimiterEvent) -> (LimiterV, Seq<u64>) {
    match e {
        LimiterEvent::Acquire { now, gap_ns } => {
            let (turn, w) = acquired(at.0, now, gap_ns);
            (
                w,
                if turn is Send {
                    at.1.push(now)
                } else {
                    at.1
                },
            )
        },
        LimiterEvent::Cooldown { until, .. } => (cooled_down(at.0, until), at.1),
    }
}

/// A limiter and the times of all requests that it let through, after events.
pub open spec fn all_happened(w: LimiterV, events: Seq<LimiterEvent>) -> (LimiterV, Seq<u64>)
    decreases events.len(),
{
    if events.len() == 0 {
        (w, Seq::empty())
    } else {
        happened(all_happened(w, events.drop_last()), events.last())
    }
}

/// Time does not run backwards from `start` on.
pub open spec fn moments_ok(events: Seq<LimiterEvent>, start: u64) -> bool {
    &&& forall|i: int, j: int|
        0 <= i < j < events.len() ==> moment(#[trigger] events[i]) <= moment(#[trigger] events[j])
    &&& forall|i: int| 0 <= i < events.len() ==> start <= moment(#[trigger] events[i])
}

/// The time of the last event.
spec fn last_moment(events: Seq<LimiterEvent>, start: u64) -> u64 {
    if events.len() == 0 {
        start
    } else {
        moment(events.last())
    }
}

proof fn lemma_moments(events: Seq<LimiterEvent>, start: u64)
    requires
        moments_ok(events, start),
        events.len() > 0,
    ensures
        moments_ok(events.drop_last(), start),
        start <= last_moment(events.drop_last(), start) <= moment(events.last()),
{
    let rest = events.drop_last();
    assert forall|i: int, j: int| 0 <= i < j < rest.len() implies moment(#[trigger] rest[i])
        <= moment(#[trigger] rest[j]) by {
        assert(rest[i] == events[i] && rest[j] == events[j]);
    }
    assert forall|i: int| 0 <= i < rest.len() implies start <= moment(#[trigger] rest[i]) by {
        assert(rest[i] == events[i]);
    }
    assert(events.last() == events[events.len() - 1]);
    if rest.len() > 0 {
        assert(rest.last() == events[events.len() - 2]);
    }
}

pub proof fn lemma_longest(specs: Seq<WindowSpec>, k: int)
    requires
        0 <= k < specs.len(),
    ensures
        window_ns(specs[k]) <= longest(specs),
    decreases specs.len(),
{
    if k < specs.len() - 1 {
        lemma_longest(specs.drop_last(), k);
        assert(specs.drop_last()[k] == specs[k]);
    }
}

/// The limiter remembers the end of all that it let through, and what it
/// forgot is older than any window.
spec fn remembers(w: LimiterV, all: Seq<u64>, last: u64) -> bool {
    let off = all.len() - w.sent.len();
    &&& times_ok(all, last)
    &&& off >= 0
    &&& w.sent == all.skip(off)
    &&& forall|i: int| 0 <= i < off ==> last - #[trigger] all[i] >= longest(w.specs)
    &&& forall|k: int|
        0 <= k < w.specs.len() ==> within_limit(#[trigger] w.specs[k], all)
}

/// Forgetting what is older than any window leaves a limiter remembering.
proof fn lemma_forgetting(w: LimiterV, all: Seq<u64>, last: u64, now: u64)
    requires
        remembers(w, all, last),
        last <= now,
    ensures
        times_ok(w.sent, now),
        remembers(w, all, now),
        remembers(
            LimiterV { sent: recent(w.sent, now, longest(w.specs)), ..w },
            all,
            now,
        ),
{
    let off = all.len() - w.sent.len();
    let max = longest(w.specs);
    let sent = recent(w.sent, now, max);
    assert forall|i: int| 0 <= i < w.sent.len() implies #[trigger] w.sent[i] == all[off + i] by {}
    assert(times_ok(w.sent, now));
    lemma_recent(w.sent, now, max);
    let cut = w.sent.len() - sent.len();
    assert(sent =~= all.skip(off + cut));
    assert forall|i: int| 0 <= i < off + cut implies now - #[trigger] all[i] >= max by {
        if i >= off {
            assert(w.sent[i - off] == all[i]);
        }
    }
}

/// A window that does not block has room for one more among all requests.
proof fn lemma_room(w: LimiterV, all: Seq<u64>, now: u64, k: int)
    requires
        remembers(w, all, now),
        specs_ok(w.specs),
        blocked(w.specs, w.sent, now) == 0,
        0 <= k < w.specs.len(),
    ensures
        within_limit(w.specs[k], all.push(now)),
{
    let spec = w.specs[k];
    let off = all.len() - w.sent.len();
    let out = all.push(now);
    assert(within_limit(spec, all));
    assert(spec.limit > 0);
    lemma_blocked(w.specs, w.sent, now, k);
    lemma_longest(w.specs, k);
    assert forall|i: int, j: int| 0 <= i && i + spec.limit == j && j < out.len() implies
        #[trigger] out[j] - #[trigger] out[i] >= window_ns(spec) by {
        assert(out[i] == all[i]);
        if j < all.len() {
            assert(out[j] == all[j]);
        } else if i >= off {
            assert(w.sent[w.sent.len() - spec.limit] == all[i]);
        }
    }
}

proof fn lemma_acquired_remembers(w: LimiterV, all: Seq<u64>, last: u64, now: u64, gap_ns: u64)
    requires
        remembers(w, all, last),
        specs_ok(w.specs),
        last <= now,
    ensures
        ({
            let (turn, after) = acquired(w, now, gap_ns);
            &&& after.specs == w.specs
            &&& remembers(
                after,
                if turn is Send {
                    all.push(now)
                } else {
                    all
                },
                now,
            )
        }),
{
    let (turn, after) = acquired(w, now, gap_ns);
    lemma_forgetting(w, all, last, now);
    if turn is Send {
        let kept = LimiterV { sent: recent(w.sent, now, longest(w.specs)), ..w };
        let off = all.len() - kept.sent.len();
        let out = all.push(now);
        assert(after.sent =~= out.skip(off));
        assert forall|i: int, j: int| 0 <= i <= j < out.len() implies #[trigger] out[i]
            <= #[trigger] out[j] by {
            if j < all.len() {
                assert(all[i] <= all[j]);
            } else if i < all.len() {
                assert(all[i] <= now);
            }
        }
        assert forall|k: int| 0 <= k < w.specs.len() implies within_limit(
            #[trigger] w.specs[k],
            out,
        ) by {
            lemma_room(kept, all, now, k);
        }
        assert forall|i: int| 0 <= i < off implies now - #[trigger] out[i] >= longest(w.specs) by {
            assert(out[i] == all[i]);
        }
    }
}

proof fn lemma_history_remembers(w: LimiterV, events: Seq<LimiterEvent>, start: u64)
    requires
        w.sent.len() == 0,
        specs_ok(w.specs),
        moments_ok(events, start),
    ensures
        ({
            let (after, all) = all_happened(w, events);
            &&& after.specs == w.specs
            &&& remembers(after, all, last_moment(events, start))
        }),
    decreases events.len(),
{
    if events.len() == 0 {
        assert(w.sent =~= Seq::<u64>::empty().skip(0));
    } else {
        lemma_moments(events, start);
        lemma_history_remembers(w, events.drop_last(), start);
        let (was, all) = all_happened(w, events.drop_last());
        let last = last_moment(events.drop_last(), start);
        match events.last() {
            LimiterEvent::Acquire { now, gap_ns } => {
                lemma_acquired_remembers(was, all, last, now, gap_ns);
            },
            LimiterEvent::Cooldown { now, until } => {},
        }
    }
}

/// The budget is kept over all that a limiter ever lets through, as long as its
/// windows stay: of any `limit` + 1 requests in a row the first and the last
/// are a window apart, for each of its windows.
pub proof fn law_budget_is_kept_throughout(
    w: LimiterV,
    events: Seq<LimiterEvent>,
    start: u64,
    k: int,
)
    requires
        w.sent.len() == 0,
        specs_ok(w.specs),
        moments_ok(events, start),
        0 <= k < w.specs.len(),
    ensures
        within_limit(w.specs[k], all_happened(w, events).1),
{
    lemma_history_remembers(w, events, start);
}

/// A cooldown holds: whatever is tried after it, nothing is let through before
/// it is over.
pub proof fn law_cooldown_holds(
    w: LimiterV,
    until: u64,
    events: Seq<LimiterEvent>,
    start: u64,
    i: int,
)
    requires
        moments_ok(events, start),
        0 <= i < all_happened(cooled_down(w, until), events).1.len(),
    ensures
        all_happened(cooled_down(w, until), events).1[i] >= until,
{
    lemma_cooldown(w, until, events, start);
}

proof fn lemma_cooldown(w: LimiterV, until: u64, events: Seq<LimiterEvent>, start: u64)
    requires
        moments_ok(events, start),
    ensures
        ({
            let (after, all) = all_happened(cooled_down(w, until), events);
            &&& (after.cooldown_until matches Some(u) && u >= until) || (events.len() > 0
                && last_moment(events, start) >= until)
            &&& forall|i: int| 0 <= i < all.len() ==> #[trigger] all[i] >= until
        }),
    decreases events.len(),
{
    if events.len() > 0 {
        lemma_moments(events, start);
        lemma_cooldown(w, until, events.drop_last(), start);
    }
}

} // verus!
