//! The decisions of a crawl of one region.
//!
//! The crawl keeps a cohort: players whose every ranked game is fetched. It is
//! seeded from the apex leagues and grows in two ways: players who are often
//! met in stored matches join, and when there is nothing to do the ladder is
//! walked downward. A brake pauses all growth while the crawl cannot keep up.

use crate::config::{
    BRAKE_OFF_COUNT, BRAKE_ON_COUNT, BRAKE_OVERDUE_GRACE_MS, EXPANSION_BANDS, FLUSH_INTERVAL_SECS,
    MAX_MATCH_AGE_DAYS, RANKED_QUEUE_TYPE, RAW_SAMPLE_PERMILLE, SEED_INTERVAL_SECS,
};
use crate::frontier::{
    is_due, is_first_due, overdue, pushed, pushed_batch, FrontierTask, QueuedV, TaskV,
    BUCKET_PRIORITY, DEEP_VISIT_MS,
};
use crate::riot::{LeagueEntry, LeagueListEntry};
use crate::store::{
    has_ids, ids_in, joined, outside, with_ids, Member, RankSnap, Store, StoreV, COHORT_SRC_LADDER,
};
use crate::text::{same_text, texts};
use vstd::prelude::*;
use vstd::string::StringExecFns;

verus! {

/// A player whose visit failed is tried again after this long.
pub const RETRY_VISIT_MS: u64 = 3_600_000;

/// An idle crawl sleeps at least this long,
pub const IDLE_MIN_MS: u64 = 1_000;

/// and at most this long.
pub const IDLE_MAX_MS: u64 = 30_000;

/// Match ids on a page.
pub const PAGE_LEN: usize = 100;

/// Cursor steps of one ladder band.
pub const BAND_PAGES: u32 = 10_000;

// ---- the brake ----

/// The brake after a count of overdue tasks: it goes on at one count and comes
/// off below a lower one.
pub open spec fn braked_after(braked: bool, overdue: u64) -> bool {
    if !braked && overdue >= BRAKE_ON_COUNT {
        true
    } else if braked && overdue < BRAKE_OFF_COUNT {
        false
    } else {
        braked
    }
}

/// The tasks of a platform that are long overdue, counted up to twice the
/// number that puts the brake on.
pub open spec fn backlog(s: StoreV, platform: Seq<char>, now_ms: u64) -> u64 {
    let n = overdue(s.frontier, platform, now_ms, BRAKE_OVERDUE_GRACE_MS).len();
    if n <= BRAKE_ON_COUNT * 2 {
        n as u64
    } else {
        (BRAKE_ON_COUNT * 2) as u64
    }
}

/// Sets the brake anew.
pub fn update_brake(store: &Store, platform: &str, now_ms: u64, braked: bool) -> (res: bool)
    requires
        store.wf(),
    ensures
        res == braked_after(braked, backlog(store@, platform@, now_ms)),
{
    let overdue: u64 = store.frontier_overdue_count(
        platform,
        now_ms,
        BRAKE_OVERDUE_GRACE_MS,
        BRAKE_ON_COUNT * 2,
    );
    if !braked && overdue >= BRAKE_ON_COUNT {
        true
    } else if braked && overdue < BRAKE_OFF_COUNT {
        false
    } else {
        braked
    }
}

/// The brake is on from the count that puts it on until the count is below the
/// one that takes it off; between the two it stays as it is.
pub proof fn law_brake_has_hysteresis(braked: bool, overdue: u64)
    ensures
        overdue >= BRAKE_ON_COUNT ==> braked_after(braked, overdue),
        overdue < BRAKE_OFF_COUNT ==> !braked_after(braked, overdue),
        BRAKE_OFF_COUNT <= overdue < BRAKE_ON_COUNT ==> braked_after(braked, overdue) == braked,
{
}

// ---- enrolment ----

/// The names of some entries.
pub open spec fn entry_names(entries: Seq<(String, RankSnap)>) -> Seq<Seq<char>> {
    entries.map_values(|e: (String, RankSnap)| e.0@)
}

/// The snapshots of some entries, for players with these ids.
pub open spec fn entry_ranks(entries: Seq<(String, RankSnap)>, ids: Seq<u32>, ts_ms: u64) -> Seq<
    (u32, u64, RankSnap),
> {
    Seq::new(entries.len(), |i: int| (ids[i], ts_ms, entries[i].1))
}

/// First visits for players with these ids.
pub open spec fn first_visits(ids: Seq<u32>, names: Seq<Seq<char>>) -> Seq<(u32, TaskV)> {
    Seq::new(ids.len(), |i: int| (ids[i], TaskV { puuid: names[i], last_visit_ms: 0 }))
}

/// The state after players were enrolled: they have ids, are in the cohort,
/// have a rank snapshot, and are queued unless they were.
pub open spec fn enrolled(
    s: StoreV,
    platform: Seq<char>,
    entries: Seq<(String, RankSnap)>,
    source: u8,
    ts_ms: u64,
) -> StoreV {
    let names = entry_names(entries);
    let t = with_ids(s, names);
    let ids = ids_in(t, names);
    let u = joined(t, ids.to_set(), Member { joined_ms: ts_ms, source });
    StoreV {
        ranks: u.ranks + entry_ranks(entries, ids, ts_ms),
        frontier: pushed_batch(
            u.frontier,
            platform,
            BUCKET_PRIORITY,
            ts_ms,
            first_visits(ids, names),
        ),
        ..u
    }
}

/// How many of some entries are not in the cohort yet.
pub open spec fn newly_enrolled(s: StoreV, entries: Seq<(String, RankSnap)>) -> nat {
    let t = with_ids(s, entry_names(entries));
    outside(t.cohort, ids_in(t, entry_names(entries))).len()
}

/// Enrols the players of league entries, and says how many are new to the
/// cohort.
pub fn enroll(
    store: &mut Store,
    platform: &str,
    entries: Vec<(String, RankSnap)>,
    source: u8,
    ts_ms: u64,
) -> (res: usize)
    requires
        old(store).wf(),
        has_ids(old(store)@, entry_names(entries@)),
    ensures
        final(store).wf(),
        final(store).saved() == old(store).saved(),
        final(store)@ == enrolled(old(store)@, platform@, entries@, source, ts_ms),
        res == newly_enrolled(old(store)@, entries@),
{
    let ghost start = *store;
    let ghost all = entries@;
    let ghost names = entry_names(all);
    let mut puuids: Vec<String> = Vec::new();
    let mut i: usize = 0;
    while i < entries.len()
        invariant
            entries@ == all,
            i <= all.len(),
            puuids@.len() == i,
            forall|j: int| 0 <= j < i ==> (#[trigger] puuids@[j])@ == all[j].0@,
        decreases all.len() - i,
    {
        puuids.push(entries[i].0.clone());
        i = i + 1;
    }
    assert(texts(puuids@) =~= names);
    let pids = store.assign_player_ids(&puuids);
    let newly = store.cohort_add_batch(&pids, source, ts_ms);
    let ghost u = *store;
    let mut items: Vec<(u32, FrontierTask)> = Vec::new();
    let mut k: usize = 0;
    let ghost ids = pids@;
    assert(entry_ranks(all, ids, ts_ms).take(0) =~= Seq::empty());
    assert(u@.ranks + Seq::<(u32, u64, RankSnap)>::empty() =~= u@.ranks);
    while k < entries.len()
        invariant
            entries@ == all,
            pids@ == ids,
            ids.len() == all.len(),
            puuids@.len() == all.len(),
            texts(puuids@) == names,
            names == entry_names(all),
            k <= all.len(),
            items@.len() == k,
            forall|j: int|
                0 <= j < k ==> (#[trigger] items@[j]).0 == ids[j] && items@[j].1@ == (TaskV {
                    puuid: names[j],
                    last_visit_ms: 0,
                }),
            store.wf(),
            store.saved() == u.saved(),
            store@ == (StoreV {
                ranks: u@.ranks + entry_ranks(all, ids, ts_ms).take(k as int),
                ..u@
            }),
        decreases all.len() - k,
    {
        let snap = RankSnap {
            tier: entries[k].1.tier.clone(),
            division: entries[k].1.division.clone(),
            lp: entries[k].1.lp,
            wins: entries[k].1.wins,
            losses: entries[k].1.losses,
        };
        assert(snap == all[k as int].1);
        store.add_rank_snapshot(pids[k], ts_ms, snap);
        assert(u@.ranks + entry_ranks(all, ids, ts_ms).take(k + 1) =~= (u@.ranks + entry_ranks(
            all,
            ids,
            ts_ms,
        ).take(k as int)).push((ids[k as int], ts_ms, snap)));
        assert(texts(puuids@)[k as int] == names[k as int]);
        items.push((pids[k], FrontierTask { puuid: puuids[k].clone(), last_visit_ms: 0 }));
        k = k + 1;
    }
    assert(entry_ranks(all, ids, ts_ms).take(k as int) =~= entry_ranks(all, ids, ts_ms));
    store.frontier_push_batch(platform, BUCKET_PRIORITY, ts_ms, &items);
    assert(items@.map_values(|it: (u32, FrontierTask)| (it.0, it.1@)) =~= first_visits(ids, names));
    newly.len()
}

// ---- seeding ----

/// The key under which the last seeding of a platform is kept.
pub open spec fn seed_key_of(platform: Seq<char>) -> Seq<char> {
    "seed_apex_"@ + platform
}

pub fn seed_key(platform: &str) -> (res: String)
    ensures
        res@ == seed_key_of(platform@),
{
    let mut key = "seed_apex_".to_string();
    key.append(platform);
    key
}

/// The apex leagues are to be fetched again.
pub open spec fn is_seed_due(s: StoreV, platform: Seq<char>, now_s: u32) -> bool {
    let key = seed_key_of(platform);
    s.meta.contains_key(key) ==> now_s - s.meta[key] >= SEED_INTERVAL_SECS
}

pub fn seed_due(store: &Store, platform: &str, now_s: u32) -> (res: bool)
    requires
        store.wf(),
    ensures
        res == is_seed_due(store@, platform@, now_s),
{
    match store.meta_get_u32(seed_key(platform).as_str()) {
        Some(last) => now_s.saturating_sub(last) as u64 >= SEED_INTERVAL_SECS,
        None => true,
    }
}

/// Whether the `i`-th apex league is fetched: the first always, the lower ones
/// unless the brake is on.
pub open spec fn is_seeded(i: int, braked: bool) -> bool {
    !(braked && i > 0)
}

/// Whether the `i`-th apex league is fetched now.
pub fn seeds_league(i: usize, braked: bool) -> (res: bool)
    ensures
        res == is_seeded(i as int, braked),
{
    !(braked && i > 0)
}

/// Notes that a platform was seeded.
pub fn seeded(store: &mut Store, platform: &str, now_s: u32)
    requires
        old(store).wf(),
    ensures
        final(store).wf(),
        final(store).saved() == old(store).saved(),
        final(store)@ == (StoreV {
            meta: old(store)@.meta.insert(seed_key_of(platform@), now_s),
            meta_unsaved: old(store)@.meta_unsaved.push(seed_key_of(platform@)),
            ..old(store)@
        }),
        SEED_INTERVAL_SECS > 0 ==> !is_seed_due(final(store)@, platform@, now_s),
{
    store.meta_set_u32(seed_key(platform).as_str(), now_s);
}

/// An entry says the rank of a player of an apex league.
pub open spec fn is_apex_entry(out: (String, RankSnap), e: LeagueListEntry, tier: Seq<char>) -> bool {
    out.0@ == e.puuid@ && out.1.tier@ == tier && out.1.division@ == "I"@ && out.1.lp
        == e.league_points && out.1.wins == e.wins && out.1.losses == e.losses
}

/// The players of a league who have an id text.
pub open spec fn with_puuid(list: Seq<LeagueListEntry>) -> Seq<LeagueListEntry> {
    list.filter(|e: LeagueListEntry| e.puuid@.len() > 0)
}

/// The entries of an apex league; players without an id text are passed over.
pub fn apex_entries(list: &Vec<LeagueListEntry>, tier: &str) -> (res: Vec<(String, RankSnap)>)
    ensures
        res@.len() == with_puuid(list@).len(),
        forall|i: int|
            0 <= i < res@.len() ==> is_apex_entry(#[trigger] res@[i], with_puuid(list@)[i], tier@),
{
    let mut out: Vec<(String, RankSnap)> = Vec::new();
    let mut i: usize = 0;
    assert(list@.take(0) =~= Seq::empty());
    proof {
        reveal(Seq::filter);
    }
    while i < list.len()
        invariant
            i <= list@.len(),
            out@.len() == with_puuid(list@.take(i as int)).len(),
            forall|k: int|
                0 <= k < out@.len() ==> is_apex_entry(
                    #[trigger] out@[k],
                    with_puuid(list@.take(i as int))[k],
                    tier@,
                ),
        decreases list@.len() - i,
    {
        let ghost before = list@.take(i as int);
        let ghost after = list@.take(i + 1);
        proof {
            reveal(Seq::filter);
            assert(after.drop_last() =~= before);
            assert(after.last() == list@[i as int]);
        }
        let e = &list[i];
        if !e.puuid.as_str().is_empty() {
            let snap = RankSnap {
                tier: tier.to_string(),
                division: "I".to_string(),
                lp: e.league_points,
                wins: e.wins,
                losses: e.losses,
            };
            out.push((e.puuid.clone(), snap));
        }
        i = i + 1;
    }
    assert(list@.take(i as int) =~= list@);
    out
}

// ---- expansion ----

/// The key under which the place on the ladder is kept.
pub open spec fn cursor_key_of(platform: Seq<char>) -> Seq<char> {
    "expand_cursor_"@ + platform
}

pub fn cursor_key(platform: &str) -> (res: String)
    ensures
        res@ == cursor_key_of(platform@),
{
    let mut key = "expand_cursor_".to_string();
    key.append(platform);
    key
}

/// The place on the ladder where the expansion of a platform goes on.
pub open spec fn cursor_of(s: StoreV, platform: Seq<char>) -> u32 {
    let key = cursor_key_of(platform);
    if s.meta.contains_key(key) {
        s.meta[key]
    } else {
        0
    }
}

/// A page of a ladder band.
#[derive(Clone, Copy, Debug, PartialEq, Eq, Structural)]
pub struct LadderPage {
    pub band: u32,
    pub page: u32,
}

/// The page at a place on the ladder, unless the ladder is exhausted.
pub open spec fn page_at(cursor: u32) -> Option<LadderPage> {
    if cursor / BAND_PAGES < EXPANSION_BANDS@.len() {
        Some(
            LadderPage {
                band: cursor / BAND_PAGES,
                page: if cursor % BAND_PAGES >= 1 {
                    cursor % BAND_PAGES
                } else {
                    1
                },
            },
        )
    } else {
        None
    }
}

/// The place after a page: the next page, or the next band if the page was
/// empty.
pub open spec fn place_after(at: LadderPage, empty: bool) -> u32 {
    if empty {
        ((at.band + 1) * BAND_PAGES + 1) as u32
    } else {
        (at.band * BAND_PAGES + at.page + 1) as u32
    }
}

/// The page that an idle crawl fetches next. While the brake is on it fetches
/// none.
pub open spec fn page_wanted(s: StoreV, platform: Seq<char>, braked: bool) -> Option<LadderPage> {
    if braked {
        None
    } else {
        page_at(cursor_of(s, platform))
    }
}

/// The page to fetch, if any.
pub fn expand_page(store: &Store, platform: &str, braked: bool) -> (res: Option<LadderPage>)
    requires
        store.wf(),
    ensures
        res == page_wanted(store@, platform@, braked),
        res matches Some(at) ==> at.band < EXPANSION_BANDS@.len() && 1 <= at.page < BAND_PAGES,
{
    if braked {
        return None;
    }
    let cursor: u32 = match store.meta_get_u32(cursor_key(platform).as_str()) {
        Some(c) => c,
        None => 0,
    };
    let band: u32 = cursor / BAND_PAGES;
    if band >= 8 {
        return None;
    }
    let rest: u32 = cursor % BAND_PAGES;
    let page: u32 = if rest >= 1 {
        rest
    } else {
        1
    };
    Some(LadderPage { band, page })
}

/// The tier and division of a ladder band.
pub fn band_names(band: u32) -> (res: (&'static str, &'static str))
    requires
        band < EXPANSION_BANDS@.len(),
    ensures
        res == EXPANSION_BANDS@[band as int],
{
    EXPANSION_BANDS[band as usize]
}

/// The rank that a league entry says.
pub open spec fn ladder_rank(e: LeagueEntry) -> RankSnap {
    RankSnap {
        tier: e.tier,
        division: e.rank,
        lp: e.league_points,
        wins: e.wins,
        losses: e.losses,
    }
}

fn rank_of(e: &LeagueEntry) -> (res: RankSnap)
    ensures
        res == ladder_rank(*e),
{
    RankSnap {
        tier: e.tier.clone(),
        division: e.rank.clone(),
        lp: e.league_points,
        wins: e.wins,
        losses: e.losses,
    }
}

/// The players of a page and their ranks.
pub open spec fn page_entries(entries: Seq<LeagueEntry>) -> Seq<(String, RankSnap)> {
    entries.map_values(|e: LeagueEntry| (e.puuid, ladder_rank(e)))
}

/// The state after a ladder page: its players are enrolled, and the next place
/// is noted.
pub open spec fn after_page(
    before: StoreV,
    platform: Seq<char>,
    at: LadderPage,
    entries: Seq<LeagueEntry>,
    ts_ms: u64,
) -> StoreV {
    let s = if entries.len() > 0 {
        enrolled(before, platform, page_entries(entries), COHORT_SRC_LADDER, ts_ms)
    } else {
        before
    };
    StoreV {
        meta: s.meta.insert(cursor_key_of(platform), place_after(at, entries.len() == 0)),
        meta_unsaved: s.meta_unsaved.push(cursor_key_of(platform)),
        ..s
    }
}

/// Enrols the players of a ladder page and moves on. Says whether anyone was
/// new to the cohort.
pub fn expanded(
    store: &mut Store,
    platform: &str,
    at: LadderPage,
    entries: &Vec<LeagueEntry>,
    ts_ms: u64,
) -> (res: bool)
    requires
        old(store).wf(),
        at.band < EXPANSION_BANDS@.len(),
        1 <= at.page < BAND_PAGES,
        has_ids(old(store)@, entry_names(page_entries(entries@))),
    ensures
        final(store).wf(),
        final(store).saved() == old(store).saved(),
        res == (newly_enrolled(old(store)@, page_entries(entries@)) > 0),
        final(store)@ == after_page(old(store)@, platform@, at, entries@, ts_ms),
{
    let next: u32 = if entries.len() == 0 {
        (at.band + 1) * BAND_PAGES + 1
    } else {
        at.band * BAND_PAGES + at.page + 1
    };
    let mut batch: Vec<(String, RankSnap)> = Vec::new();
    let mut i: usize = 0;
    while i < entries.len()
        invariant
            i <= entries@.len(),
            batch@ == page_entries(entries@).take(i as int),
        decreases entries@.len() - i,
    {
        batch.push((entries[i].puuid.clone(), rank_of(&entries[i])));
        assert(batch@ =~= page_entries(entries@).take(i + 1));
        i = i + 1;
    }
    assert(page_entries(entries@).take(i as int) =~= page_entries(entries@));
    let mut newly: usize = 0;
    proof {
        if entries@.len() == 0 {
            let s = store@;
            assert(entry_names(page_entries(entries@)) =~= Seq::empty());
            assert(ids_in(s, Seq::empty()) =~= Seq::empty());
        }
    }
    if entries.len() > 0 {
        newly = enroll(store, platform, batch, COHORT_SRC_LADDER, ts_ms);
    }
    store.meta_set_u32(cursor_key(platform).as_str(), next);
    newly > 0
}

/// The expansion moves down the ladder: after a page comes a later place, and
/// after the last band none.
pub proof fn law_expansion_moves_on(cursor: u32, empty: bool)
    requires
        page_at(cursor) is Some,
    ensures
        place_after(page_at(cursor)->0, empty) > cursor,
        page_at(cursor)->0.band == 7 && empty ==> page_at(
            place_after(page_at(cursor)->0, empty),
        ) is None,
{
}

// ---- visits ----

/// What a crawl does with the first task that is due.
pub enum NextVisit {
    /// Visit a player.
    Visit(u32, FrontierTask),
    /// The player is not in the cohort: nothing is spent on them.
    Dropped(u32),
    /// Nothing is due.
    Idle,
}

/// The first task that is due is taken off the queue, for a visit if the player
/// is in the cohort.
pub open spec fn is_next_visit(
    s: StoreV,
    after: StoreV,
    platform: Seq<char>,
    now_ms: u64,
    res: NextVisit,
) -> bool {
    match res {
        NextVisit::Visit(player, task) => {
            &&& is_first_due(s.frontier, platform, now_ms, player)
            &&& s.cohort.contains_key(player)
            &&& task@ == s.frontier[player].task
            &&& after == (StoreV { frontier: s.frontier.remove(player), ..s })
        },
        NextVisit::Dropped(player) => {
            &&& is_first_due(s.frontier, platform, now_ms, player)
            &&& !s.cohort.contains_key(player)
            &&& after == (StoreV { frontier: s.frontier.remove(player), ..s })
        },
        NextVisit::Idle => {
            &&& forall|p: u32| !#[trigger] is_due(s.frontier, platform, now_ms, p)
            &&& after == s
        },
    }
}

/// Takes the next task off the queue.
pub fn next_visit(store: &mut Store, platform: &str, now_ms: u64) -> (res: NextVisit)
    requires
        old(store).wf(),
    ensures
        final(store).wf(),
        final(store).saved() == old(store).saved(),
        is_next_visit(old(store)@, final(store)@, platform@, now_ms, res),
{
    match store.frontier_pop_due(platform, now_ms) {
        Some((_, player, task)) => {
            if store.is_cohort(player) {
                NextVisit::Visit(player, task)
            } else {
                NextVisit::Dropped(player)
            }
        },
        None => NextVisit::Idle,
    }
}

/// The task of a player whose visit failed.
pub open spec fn task_again(platform: Seq<char>, task: TaskV, now_ms: u64) -> QueuedV {
    QueuedV {
        platform,
        bucket: BUCKET_PRIORITY,
        due_ms: (now_ms + RETRY_VISIT_MS) as u64,
        task,
    }
}

/// Puts a player whose visit failed back into the queue.
pub fn visit_failed(store: &mut Store, platform: &str, player: u32, task: &FrontierTask, now_ms: u64)
    requires
        old(store).wf(),
        now_ms + RETRY_VISIT_MS <= u64::MAX,
    ensures
        final(store).wf(),
        final(store).saved() == old(store).saved(),
        final(store)@ == (StoreV {
            frontier: pushed(
                old(store)@.frontier,
                player,
                task_again(platform@, task@, now_ms),
            ),
            ..old(store)@
        }),
{
    store.frontier_push(platform, BUCKET_PRIORITY, now_ms + RETRY_VISIT_MS, player, task);
}

/// A visit that walks the whole match list.
pub fn is_deep(task: &FrontierTask) -> (res: bool)
    ensures
        res == (task.last_visit_ms == DEEP_VISIT_MS),
{
    task.last_visit_ms == DEEP_VISIT_MS
}

/// From when on matches are asked for; a deep visit asks for all.
pub open spec fn asked_from(deep: bool, now_ms: u64) -> Option<i64> {
    if deep {
        None
    } else {
        Some((now_ms / 1000 - MAX_MATCH_AGE_DAYS * 24 * 3600) as i64)
    }
}

pub fn start_time_s(deep: bool, now_ms: u64) -> (res: Option<i64>)
    ensures
        res == asked_from(deep, now_ms),
{
    if deep {
        None
    } else {
        Some((now_ms / 1000) as i64 - MAX_MATCH_AGE_DAYS * 24 * 3600)
    }
}

/// The task of a player who was visited. A deep visit that was cut short stays
/// a deep one and is due at once.
pub open spec fn task_next(
    platform: Seq<char>,
    task: TaskV,
    now_ms: u64,
    due_ms: u64,
    stopped: bool,
) -> QueuedV {
    let again = task.last_visit_ms == DEEP_VISIT_MS && stopped;
    QueuedV {
        platform,
        bucket: BUCKET_PRIORITY,
        due_ms: if again {
            now_ms
        } else {
            due_ms
        },
        task: TaskV {
            puuid: task.puuid,
            last_visit_ms: if again {
                DEEP_VISIT_MS
            } else {
                now_ms
            },
        },
    }
}

/// Queues the next visit of a player who was visited.
pub fn visited(
    store: &mut Store,
    platform: &str,
    player: u32,
    task: &FrontierTask,
    now_ms: u64,
    due_ms: u64,
    stopped: bool,
)
    requires
        old(store).wf(),
    ensures
        final(store).wf(),
        final(store).saved() == old(store).saved(),
        final(store)@ == (StoreV {
            frontier: pushed(
                old(store)@.frontier,
                player,
                task_next(platform@, task@, now_ms, due_ms, stopped),
            ),
            ..old(store)@
        }),
{
    if is_deep(task) && stopped {
        let again = FrontierTask { puuid: task.puuid.clone(), last_visit_ms: DEEP_VISIT_MS };
        store.frontier_push(platform, BUCKET_PRIORITY, now_ms, player, &again);
    } else {
        let next = FrontierTask { puuid: task.puuid.clone(), last_visit_ms: now_ms };
        store.frontier_push(platform, BUCKET_PRIORITY, due_ms, player, &next);
    }
}

/// The first entry for ranked solo games.
pub open spec fn solo_entry(entries: Seq<LeagueEntry>, i: int) -> Option<LeagueEntry>
    decreases entries.len() - i,
{
    if i < 0 || i >= entries.len() {
        None
    } else if entries[i].queue_type@ == RANKED_QUEUE_TYPE@ {
        Some(entries[i])
    } else {
        solo_entry(entries, i + 1)
    }
}

/// A player's rank in ranked solo games, if they have one.
pub fn solo_rank(entries: &Vec<LeagueEntry>) -> (res: Option<RankSnap>)
    ensures
        res == (match solo_entry(entries@, 0) {
            Some(e) => Some(ladder_rank(e)),
            None => None,
        }),
{
    let mut i: usize = 0;
    while i < entries.len()
        invariant
            i <= entries@.len(),
            solo_entry(entries@, i as int) == solo_entry(entries@, 0),
        decreases entries@.len() - i,
    {
        if same_text(entries[i].queue_type.as_str(), RANKED_QUEUE_TYPE) {
            return Some(rank_of(&entries[i]));
        }
        i = i + 1;
    }
    None
}

/// How long a crawl without work sleeps.
pub open spec fn idle_for(next_due: Option<u64>, now_ms: u64) -> int {
    match next_due {
        None => IDLE_MAX_MS as int,
        Some(due) => if due - now_ms < IDLE_MIN_MS {
            IDLE_MIN_MS as int
        } else if due - now_ms > IDLE_MAX_MS {
            IDLE_MAX_MS as int
        } else {
            due - now_ms
        },
    }
}

pub fn idle_sleep_ms(next_due: Option<u64>, now_ms: u64) -> (res: u64)
    ensures
        res == idle_for(next_due, now_ms),
{
    match next_due {
        None => IDLE_MAX_MS,
        Some(due) => {
            let left: u64 = due.saturating_sub(now_ms);
            if left < IDLE_MIN_MS {
                IDLE_MIN_MS
            } else if left > IDLE_MAX_MS {
                IDLE_MAX_MS
            } else {
                left
            }
        },
    }
}

/// Whether state is to be written out now.
pub open spec fn is_flush_due(elapsed_secs: u64, should_commit: bool) -> bool {
    elapsed_secs >= FLUSH_INTERVAL_SECS || should_commit
}

pub fn flush_due(elapsed_secs: u64, should_commit: bool) -> (res: bool)
    ensures
        res == is_flush_due(elapsed_secs, should_commit),
{
    elapsed_secs >= FLUSH_INTERVAL_SECS || should_commit
}

/// Whether the raw answers of a match are kept.
pub open spec fn in_sample(game_id: u64) -> bool {
    game_id % 1000 < RAW_SAMPLE_PERMILLE
}

pub fn is_sampled(game_id: u64) -> (res: bool)
    ensures
        res == in_sample(game_id),
{
    game_id % 1000 < RAW_SAMPLE_PERMILLE
}

} // verus!
