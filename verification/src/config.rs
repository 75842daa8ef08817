//! Region table and crawler tuning knobs.
//!
//! All platforms are declared; [`ENABLED_REGIONS`] says which are crawled.
//! Rate budgets are kept per routing host, so two platforms on one host share
//! its budget.

use crate::text::same_text;
use vstd::prelude::*;

verus! {

/// A platform (shard) and its routing hosts.
#[derive(Clone, Copy, Debug, PartialEq, Eq)]
pub struct Region {
    /// Platform id, also the match-id prefix, e.g. "EUW1".
    pub platform: &'static str,
    /// Host for league and summoner requests, lowercase.
    pub platform_host: &'static str,
    /// Regional routing for match requests, e.g. "europe".
    pub regional_host: &'static str,
}

/// Every platform, with its platform host and its regional host.
pub const ALL_REGIONS: [(&'static str, &'static str, &'static str); 15] = [
    ("BR1", "br1", "americas"),
    ("EUN1", "eun1", "europe"),
    ("EUW1", "euw1", "europe"),
    ("JP1", "jp1", "asia"),
    ("KR", "kr", "asia"),
    ("LA1", "la1", "americas"),
    ("LA2", "la2", "americas"),
    ("ME1", "me1", "europe"),
    ("NA1", "na1", "americas"),
    ("OC1", "oc1", "sea"),
    ("RU", "ru", "europe"),
    ("SG2", "sg2", "sea"),
    ("TR1", "tr1", "europe"),
    ("TW2", "tw2", "sea"),
    ("VN2", "vn2", "sea"),
];

/// Platforms to crawl. One platform per host makes the most of the budget; a
/// second on the same host only splits it.
pub const ENABLED_REGIONS: [&'static str; 4] = ["EUW1", "NA1", "KR", "VN2"];

/// Matches fetched concurrently per player visit.
pub const MATCH_FETCH_CONCURRENCY: usize = 32;

/// A job handed to a node is answered within this window or goes to another.
pub const LEASE_MS: u64 = 150_000;

/// Ranked solo queue.
pub const QUEUE_ID: u32 = 420;

pub const RANKED_QUEUE_TYPE: &'static str = "RANKED_SOLO_5x5";

/// Whether the timeline of a match is fetched too.
pub const FETCH_TIMELINES: bool = false;

/// Matches shorter than this are remakes: archived, but they earn no history
/// and no adoption credit and never count as samples.
pub const REMAKE_MAX_DURATION_S: u32 = 300;

/// Apex leagues, which are seeded every cycle: endpoint and tier.
pub const APEX_LEAGUES: [(&'static str, &'static str); 3] = [
    ("challengerleagues", "CHALLENGER"),
    ("grandmasterleagues", "GRANDMASTER"),
    ("masterleagues", "MASTER"),
];

/// The apex leagues are fetched again this often.
pub const SEED_INTERVAL_SECS: u64 = 21_600;

/// A player outside the cohort who is seen in this many stored matches joins.
pub const ADOPTION_THRESHOLD: u32 = 2;

/// Ladder bands for expansion when the pool is covered, walked in order.
pub const EXPANSION_BANDS: [(&'static str, &'static str); 8] = [
    ("DIAMOND", "I"),
    ("DIAMOND", "II"),
    ("DIAMOND", "III"),
    ("DIAMOND", "IV"),
    ("EMERALD", "I"),
    ("EMERALD", "II"),
    ("EMERALD", "III"),
    ("EMERALD", "IV"),
];

/// A task counts for the brake once it is overdue by more than this.
pub const BRAKE_OVERDUE_GRACE_MS: u64 = 7_200_000;

/// The brake goes on at this many overdue tasks.
pub const BRAKE_ON_COUNT: u64 = 500;

/// The brake comes off below this many.
pub const BRAKE_OFF_COUNT: u64 = 100;

pub const DATA_DIR: &'static str = "data";

/// State is written out at least this often.
pub const FLUSH_INTERVAL_SECS: u64 = 60;

/// Raw answers are kept for this permille of matches.
pub const RAW_SAMPLE_PERMILLE: u64 = 10;

/// Matches older than this are ignored, except by a deep visit.
pub const MAX_MATCH_AGE_DAYS: i64 = 130;

/// Match ids walked per player and visit at most.
pub const MATCHLIST_MAX_DEPTH: u32 = 10_000;

/// Whether a platform is crawled.
pub open spec fn enabled(platform: Seq<char>) -> bool {
    exists|j: int| 0 <= j < ENABLED_REGIONS@.len() && #[trigger] ENABLED_REGIONS@[j]@ == platform
}

/// The `i`-th region of the table.
pub open spec fn region_at(i: int) -> Region {
    Region {
        platform: ALL_REGIONS@[i].0,
        platform_host: ALL_REGIONS@[i].1,
        regional_host: ALL_REGIONS@[i].2,
    }
}

/// The regions that are crawled, from the `i`-th of the table on.
pub open spec fn enabled_from(i: int) -> Seq<Region>
    decreases ALL_REGIONS@.len() - i,
{
    if i < 0 || i >= ALL_REGIONS@.len() {
        Seq::empty()
    } else if enabled(region_at(i).platform@) {
        seq![region_at(i)] + enabled_from(i + 1)
    } else {
        enabled_from(i + 1)
    }
}

fn is_enabled(platform: &str) -> (res: bool)
    ensures
        res == enabled(platform@),
{
    let mut j: usize = 0;
    while j < 4
        invariant
            j <= 4,
            forall|k: int| 0 <= k < j ==> #[trigger] ENABLED_REGIONS@[k]@ != platform@,
        decreases 4 - j,
    {
        if same_text(ENABLED_REGIONS[j], platform) {
            assert(ENABLED_REGIONS@[j as int]@ == platform@);
            return true;
        }
        j = j + 1;
    }
    false
}

/// The regions that are crawled, in the order of the table.
pub fn enabled_regions() -> (res: Vec<Region>)
    ensures
        res@ == enabled_from(0),
{
    let mut out: Vec<Region> = Vec::new();
    let mut i: usize = 0;
    while i < 15
        invariant
            i <= 15,
            out@ + enabled_from(i as int) == enabled_from(0),
        decreases 15 - i,
    {
        let (platform, platform_host, regional_host) = ALL_REGIONS[i];
        let region = Region { platform, platform_host, regional_host };
        let ghost was = out@;
        if is_enabled(region.platform) {
            out.push(region);
            assert(was + (seq![region] + enabled_from(i + 1)) =~= out@ + enabled_from(i + 1));
        }
        i = i + 1;
    }
    assert(out@ + enabled_from(15) =~= out@);
    out
}

} // verus!
