//! A make-believe node, so that a frontend can be tried out with neither a
//! server nor the game's servers: traffic, outages, a refused key, and a
//! leaderboard.

use crate::proto::{NodeStatsEntry, StatsResponse, WindowCounts};
use crate::riot::METHOD_MATCH;
use crate::text::same_text;
use vstd::prelude::*;

verus! {

/// Routing host, endpoint, and how often of a hundred times.
pub const TRAFFIC: [(&'static str, &'static str, u64); 10] = [
    ("europe", "match-v5.match", 30),
    ("americas", "match-v5.match", 22),
    ("asia", "match-v5.match", 16),
    ("sea", "match-v5.match", 8),
    ("europe", "match-v5.matchlist", 6),
    ("americas", "match-v5.matchlist", 4),
    ("euw1", "league-v4.entries", 5),
    ("na1", "league-v4.entries", 4),
    ("kr", "league-v4.entries", 3),
    ("euw1", "summoner-v4.by-puuid", 2),
];

/// The others of the leaderboard: name, requests a minute, and whether online.
pub const CREW: [(&'static str, u64, bool); 4] = [
    ("poro-feeder", 480, true),
    ("baron-stealer", 350, true),
    ("minion-wave", 220, true),
    ("afk-ward", 90, false),
];

/// The key is refused once, this long after the start.
pub const KEY_DEMO_MS: u64 = 150_000;

/// The server is lost this often.
pub const BLIP_MS: u64 = 90_000;

// ---- numbers ----

/// A xorshift generator.
pub struct Rng {
    state: u64,
}

impl View for Rng {
    type V = u64;

    closed spec fn view(&self) -> u64 {
        self.state
    }
}

pub open spec fn shifted_right(x: u64, n: u64) -> u64 {
    x ^ (x >> n)
}

pub open spec fn shifted_left(x: u64, n: u64) -> u64 {
    x ^ (x << n)
}

/// The state after a step.
pub open spec fn stepped(x: u64) -> u64 {
    shifted_right(shifted_left(shifted_right(x, 12), 25), 27)
}

/// The number that a state gives.
pub open spec fn drawn(x: u64) -> u64 {
    x.wrapping_mul(0x2545_F491_4F6C_DD1D)
}

impl Rng {
    /// A generator; its state is made odd, as zero would stay zero.
    pub fn new(seed: u64) -> (res: Self)
        ensures
            res@ == seed | 1,
    {
        Rng { state: seed | 1 }
    }

    pub fn next(&mut self) -> (res: u64)
        ensures
            final(self)@ == stepped(old(self)@),
            res == drawn(stepped(old(self)@)),
    {
        let mut x: u64 = self.state;
        x = x ^ (x >> 12);
        x = x ^ (x << 25);
        x = x ^ (x >> 27);
        self.state = x;
        x.wrapping_mul(0x2545_F491_4F6C_DD1D)
    }

    /// A number below `n`.
    pub fn below(&mut self, n: u64) -> (res: u64)
        requires
            n > 0,
        ensures
            final(self)@ == stepped(old(self)@),
            res == drawn(stepped(old(self)@)) % n,
    {
        self.next() % n
    }

    /// A number from `lo` to below `hi`.
    pub fn between(&mut self, lo: u64, hi: u64) -> (res: u64)
        requires
            lo < hi,
        ensures
            final(self)@ == stepped(old(self)@),
            res == lo + drawn(stepped(old(self)@)) % ((hi - lo) as u64),
            lo <= res < hi,
    {
        let n: u64 = self.below(hi - lo);
        lo + n
    }
}

// ---- jobs ----

/// How often the first `k` kinds of traffic come, of a hundred times.
pub open spec fn weight_before(k: int) -> int
    decreases k,
{
    if k <= 0 {
        0
    } else {
        weight_before(k - 1) + TRAFFIC@[k - 1].2
    }
}

/// The weights make a hundred.
pub proof fn law_weights_make_a_hundred()
    ensures
        weight_before(10) == 100,
{
    reveal_with_fuel(weight_before, 11);
}

/// The kind of traffic that a roll gives: the one whose share it falls into.
pub fn pick_traffic(rng: &mut Rng) -> (res: usize)
    ensures
        final(rng)@ == stepped(old(rng)@),
        res < 10,
        weight_before(res as int) <= drawn(stepped(old(rng)@)) % 100 < weight_before(res + 1),
{
    let roll: u64 = rng.below(100);
    let mut left: u64 = roll;
    let mut k: usize = 0;
    proof {
        law_weights_make_a_hundred();
    }
    while k < 9 && left >= TRAFFIC[k].2
        invariant
            k <= 9,
            roll < 100,
            weight_before(10) == 100,
            left == roll - weight_before(k as int),
        ensures
            k == 9 || left < TRAFFIC@[k as int].2,
        decreases 9 - k,
    {
        assert(weight_before(k + 1) == weight_before(k as int) + TRAFFIC@[k as int].2);
        left = left - TRAFFIC[k].2;
        k = k + 1;
    }
    assert(weight_before(k + 1) == weight_before(k as int) + TRAFFIC@[k as int].2);
    k
}

/// How a make-believe job ends.
pub open spec fn fake_outcome(roll: u64) -> Seq<char> {
    if roll < 91 {
        "ok"@
    } else if roll < 97 {
        "not_found"@
    } else {
        "failed"@
    }
}

/// A make-believe job: where it goes, how long each part of it takes, and how
/// it ends.
pub struct FakeJob {
    pub host: &'static str,
    pub method: &'static str,
    pub queued_ms: u64,
    pub answer_ms: u64,
    pub outcome: &'static str,
    pub upload_ms: u64,
    pub is_match: bool,
}

/// The state of a generator after `n` steps.
pub open spec fn stepped_by(x: u64, n: nat) -> u64
    decreases n,
{
    if n == 0 {
        x
    } else {
        stepped(stepped_by(x, (n - 1) as nat))
    }
}

/// A job that is made up from a seed.
pub open spec fn is_fake_job(seed: u64, res: FakeJob) -> bool {
    let x = seed | 1;
    &&& exists|k: int|
        0 <= k < 10 && (#[trigger] TRAFFIC@[k]).0 == res.host && TRAFFIC@[k].1 == res.method
            && weight_before(k) <= drawn(stepped_by(x, 1)) % 100 < weight_before(k + 1)
    &&& res.queued_ms == 300 + drawn(stepped_by(x, 2)) % 2300
    &&& res.answer_ms == 120 + drawn(stepped_by(x, 3)) % 780
    &&& res.outcome@ == fake_outcome(drawn(stepped_by(x, 4)) % 100)
    &&& res.upload_ms == 150 + drawn(stepped_by(x, 5)) % 550
    &&& res.is_match == (res.method@ == METHOD_MATCH@ && res.outcome@ == "ok"@)
}

/// Makes up a job from a seed.
pub fn fake_job(seed: u64) -> (res: FakeJob)
    ensures
        is_fake_job(seed, res),
{
    proof {
        reveal_with_fuel(stepped_by, 6);
    }
    let mut rng = Rng::new(seed);
    let k: usize = pick_traffic(&mut rng);
    let (host, method, _) = TRAFFIC[k];
    let queued_ms: u64 = rng.between(300, 2600);
    let answer_ms: u64 = rng.between(120, 900);
    let roll: u64 = rng.below(100);
    let outcome: &'static str = if roll < 91 {
        "ok"
    } else if roll < 97 {
        "not_found"
    } else {
        "failed"
    };
    let upload_ms: u64 = rng.between(150, 700);
    let is_match = same_text(method, METHOD_MATCH) && same_text(
        outcome,
        "ok",
    );
    assert(TRAFFIC@[k as int].0 == host);
    FakeJob { host, method, queued_ms, answer_ms, outcome, upload_ms, is_match }
}

// ---- the script ----

/// What happens at a tick.
#[derive(Clone, Copy, Debug, PartialEq, Eq, Structural)]
pub enum Scene {
    /// The key is refused until there is a new one.
    KeyExpires,
    /// Some jobs, after an outage if there is one.
    Jobs { outage: bool, count: u64 },
}

#[derive(Clone, Copy, Debug, PartialEq, Eq, Structural)]
pub struct Script {
    pub key_demo_done: bool,
    pub next_blip_ms: u64,
}

/// The script at the start.
pub fn opening_scene() -> (res: Script)
    ensures
        res == (Script { key_demo_done: false, next_blip_ms: BLIP_MS }),
{
    Script { key_demo_done: false, next_blip_ms: BLIP_MS }
}

/// What comes next: once the key expires, else some jobs, and now and then an
/// outage before them.
pub open spec fn scene_at(script: Script, elapsed_ms: u64, roll: u64) -> (Scene, Script) {
    if !script.key_demo_done && elapsed_ms >= KEY_DEMO_MS {
        (Scene::KeyExpires, Script { key_demo_done: true, ..script })
    } else {
        let outage = elapsed_ms >= script.next_blip_ms;
        (
            Scene::Jobs { outage, count: (1 + roll % 3) as u64 },
            Script {
                next_blip_ms: if outage {
                    (elapsed_ms + BLIP_MS) as u64
                } else {
                    script.next_blip_ms
                },
                ..script
            },
        )
    }
}

/// What happens at a tick, and the script after it.
pub fn next_scene(script: Script, elapsed_ms: u64, rng: &mut Rng) -> (res: (Scene, Script))
    requires
        elapsed_ms + BLIP_MS <= u64::MAX,
    ensures
        res == scene_at(script, elapsed_ms, drawn(stepped(old(rng)@))),
        final(rng)@ == (if res.0 is KeyExpires {
            old(rng)@
        } else {
            stepped(old(rng)@)
        }),
{
    if !script.key_demo_done && elapsed_ms >= KEY_DEMO_MS {
        return (Scene::KeyExpires, Script { key_demo_done: true, ..script });
    }
    let outage = elapsed_ms >= script.next_blip_ms;
    let next_blip_ms: u64 = if outage {
        elapsed_ms + BLIP_MS
    } else {
        script.next_blip_ms
    };
    let count: u64 = 1 + rng.below(3);
    (Scene::Jobs { outage, count }, Script { next_blip_ms, ..script })
}

// ---- the leaderboard ----

/// The windows of a node with `rpm` requests a minute, and `extra` on top.
pub open spec fn windows_at(rpm: int, extra: int) -> WindowCounts {
    WindowCounts {
        m60: (rpm * 60 + extra) as u64,
        h24: (rpm * 1_200 + extra) as u64,
        d7: (rpm * 7_200 + extra) as u64,
        all: (rpm * 30_000 + extra) as u64,
    }
}

pub fn windows(rpm: u64, extra: u64) -> (res: WindowCounts)
    requires
        rpm * 30_000 + extra <= u64::MAX,
    ensures
        res == windows_at(rpm as int, extra as int),
{
    WindowCounts {
        m60: rpm * 60 + extra,
        h24: rpm * 60 * 20 + extra,
        d7: rpm * 60 * 20 * 6 + extra,
        all: rpm * 60 * 20 * 25 + extra,
    }
}

/// An entry of the made-up leaderboard.
pub open spec fn is_crew_entry(e: NodeStatsEntry, i: int) -> bool {
    let (name, rpm, online) = CREW@[i];
    e.name@ == name@ && e.online == online && e.requests == windows_at(rpm as int, 0) && e.matches
        == windows_at(rpm as int / 3, 0)
}

/// A made-up leaderboard: the crew, and the node itself, whose counts grow
/// with what it did.
pub fn stats(you: &str, completed: u64, matches: u64, now_ms: u64) -> (res: StatsResponse)
    requires
        completed <= u64::MAX - 9_000_000,
        matches <= u64::MAX - 9_000_000,
    ensures
        res.you@ == you@,
        res.generated_ms == now_ms,
        res.nodes@.len() == 5,
        forall|i: int| 0 <= i < 4 ==> is_crew_entry(#[trigger] res.nodes@[i], i),
        res.nodes@[4].name@ == you@,
        res.nodes@[4].online,
        res.nodes@[4].requests == windows_at(300, completed as int),
        res.nodes@[4].matches == windows_at(100, matches as int),
{
    let mut nodes: Vec<NodeStatsEntry> = Vec::new();
    let mut i: usize = 0;
    while i < 4
        invariant
            i <= 4,
            nodes@.len() == i,
            forall|k: int| 0 <= k < i ==> is_crew_entry(#[trigger] nodes@[k], k),
        decreases 4 - i,
    {
        let (name, rpm, online) = CREW[i];
        assert(rpm <= 480);
        nodes.push(
            NodeStatsEntry {
                name: name.to_string(),
                online,
                requests: windows(rpm, 0),
                matches: windows(rpm / 3, 0),
            },
        );
        i = i + 1;
    }
    nodes.push(
        NodeStatsEntry {
            name: you.to_string(),
            online: true,
            requests: windows(300, completed),
            matches: windows(100, matches),
        },
    );
    StatsResponse { you: you.to_string(), nodes, generated_ms: now_ms }
}

} // verus!
