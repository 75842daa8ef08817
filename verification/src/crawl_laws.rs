//! What a crawl does and when, in the numbers that its operators know.

use crate::config::{
    enabled, enabled_from, region_at, Region, ALL_REGIONS, APEX_LEAGUES, ENABLED_REGIONS,
    EXPANSION_BANDS,
};
use crate::crawler::{
    after_page, asked_from, backlog, braked_after, cursor_of, enrolled, entry_names, first_visits,
    idle_for, in_sample, is_apex_entry, is_flush_due, is_next_visit, is_seed_due, is_seeded,
    ladder_rank, page_at, page_entries, page_wanted, place_after, solo_entry, task_again, task_next,
    with_puuid, LadderPage, NextVisit,
};
use crate::frontier::{
    backfilled, is_due, is_first_due, is_next_due, overdue, pushed, pushed_batch, QueuedV, TaskV,
};
use crate::intake::{
    begin_ms, is_stored, is_taken, is_wanted, readable, with_player_ids, Occasion, Stored,
    TakeError, Taken,
};
use crate::matchlist::{begun, continued, is_new_id, is_seen_id, wants_page, MatchlistV};
use crate::parse::{parsed_texts, ParsedV};
use crate::parse_laws::law_match_ids_split;
use crate::record::{record_bytes, RecordV};
use crate::riot::{LeagueEntry, LeagueListEntry};
use crate::store::{
    counted, has_ids, ids_in, ids_ok, is_enrolment, lemma_with_ids, rows_of, seen_of, segment_for,
    wants_commit, with_ids, Member, RankSnap, StoreV,
};
use crate::segment_write::row_bytes;
use crate::store_laws::{
    ids_unique, law_counted_match_is_stored, law_ids_are_kept, lemma_ids_frame, lemma_sighted_frame,
};
use crate::le::lemma_le_len;
use crate::text::decimal;
use vstd::prelude::*;
use vstd::utf8::encode_utf8;

verus! {

// ---- the brake ----

/// A player's task on a platform has waited for more than two hours.
pub open spec fn is_late(
    queue: Map<u32, QueuedV>,
    platform: Seq<char>,
    now_ms: u64,
    player: u32,
) -> bool {
    queue.contains_key(player) && queue[player].platform == platform && queue[player].bucket == 0
        && queue[player].due_ms + 2 * 60 * 60 * 1000 < now_ms
}

/// Five hundred players who wait for more than two hours put the brake on, and
/// fewer than a hundred take it off. In between it stays as it is.
pub proof fn law_brake_counts_late_players(
    s: StoreV,
    platform: Seq<char>,
    now_ms: u64,
    braked: bool,
    late: Set<u32>,
)
    requires
        late.finite(),
        forall|p: u32| #[trigger]
            late.contains(p) <==> is_late(s.frontier, platform, now_ms, p),
    ensures
        braked_after(braked, backlog(s, platform, now_ms)) == (late.len() >= 500 || (late.len()
            >= 100 && braked)),
{
    assert(overdue(s.frontier, platform, now_ms, 7_200_000) =~= late) by {
        assert forall|p: u32| overdue(s.frontier, platform, now_ms, 7_200_000).contains(p)
            == late.contains(p) by {
            assert(late.contains(p) <==> is_late(s.frontier, platform, now_ms, p));
        }
    }
}

// ---- seeding and expansion ----

/// The apex leagues are fetched when they never were, and every six hours.
pub proof fn law_seeding_is_due_every_six_hours(s: StoreV, platform: Seq<char>, now_s: u32)
    ensures
        !s.meta.contains_key("seed_apex_"@ + platform) ==> is_seed_due(s, platform, now_s),
        s.meta.contains_key("seed_apex_"@ + platform) ==> (is_seed_due(s, platform, now_s) <==> now_s
            >= s.meta["seed_apex_"@ + platform] + 6 * 60 * 60),
{
}

/// Of the three apex leagues the first is always fetched, the others while the
/// brake is off.
pub proof fn law_apex_leagues_are_seeded(i: int, braked: bool)
    requires
        0 <= i < 3,
    ensures
        is_seeded(0, braked),
        is_seeded(i, false),
        i > 0 ==> !is_seeded(i, true),
        APEX_LEAGUES@.len() == 3,
        APEX_LEAGUES@[0].0@ == "challengerleagues"@ && APEX_LEAGUES@[0].1@ == "CHALLENGER"@,
        APEX_LEAGUES@[1].0@ == "grandmasterleagues"@ && APEX_LEAGUES@[1].1@ == "GRANDMASTER"@,
        APEX_LEAGUES@[2].0@ == "masterleagues"@ && APEX_LEAGUES@[2].1@ == "MASTER"@,
{
}

proof fn lemma_batch(
    queue: Map<u32, QueuedV>,
    platform: Seq<char>,
    due_ms: u64,
    items: Seq<(u32, TaskV)>,
    i: int,
)
    requires
        0 <= i < items.len(),
        forall|a: int, b: int|
            0 <= a < b < items.len() ==> (#[trigger] items[a]).0 != (#[trigger] items[b]).0,
    ensures
        ({
            let after = pushed_batch(queue, platform, 0, due_ms, items);
            let p = items[i].0;
            &&& after.contains_key(p)
            &&& queue.contains_key(p) && queue[p].bucket == 0 ==> after[p] == queue[p]
            &&& !(queue.contains_key(p) && queue[p].bucket == 0) ==> after[p] == (QueuedV {
                platform,
                bucket: 0,
                due_ms,
                task: items[i].1,
            })
        }),
    decreases items.len(),
{
    let rest = items.drop_last();
    if i < rest.len() {
        assert(rest[i] == items[i]);
        assert(items[i].0 != items[items.len() - 1].0);
        lemma_batch(queue, platform, due_ms, rest, i);
    } else {
        lemma_batch_others(queue, platform, due_ms, rest, items[i].0);
    }
}

proof fn lemma_batch_others(
    queue: Map<u32, QueuedV>,
    platform: Seq<char>,
    due_ms: u64,
    items: Seq<(u32, TaskV)>,
    p: u32,
)
    requires
        forall|a: int| 0 <= a < items.len() ==> (#[trigger] items[a]).0 != p,
    ensures
        ({
            let after = pushed_batch(queue, platform, 0, due_ms, items);
            after.contains_key(p) == queue.contains_key(p) && (queue.contains_key(p) ==> after[p]
                == queue[p])
        }),
    decreases items.len(),
{
    if items.len() > 0 {
        assert(items[items.len() - 1].0 != p);
        lemma_batch_others(queue, platform, due_ms, items.drop_last(), p);
    }
}

/// Whoever is enrolled has an id, is a member of the cohort from now on unless
/// they were one, has their rank noted, and is queued for a first visit at once
/// unless they were queued.
pub proof fn law_enrolled_players_are_followed(
    s: StoreV,
    platform: Seq<char>,
    entries: Seq<(String, RankSnap)>,
    source: u8,
    ts_ms: u64,
    i: int,
)
    requires
        ids_ok(s.players, s.names, s.next_player_id),
        ids_unique(s.players),
        has_ids(s, entry_names(entries)),
        0 <= i < entries.len(),
        forall|a: int, b: int|
            0 <= a < b < entries.len() ==> (#[trigger] entries[a]).0@ != (#[trigger] entries[b]).0@,
    ensures
        ({
            let after = enrolled(s, platform, entries, source, ts_ms);
            let name = entries[i].0@;
            let id = after.players[name];
            &&& after.players.contains_key(name)
            &&& s.players.contains_key(name) ==> id == s.players[name]
            &&& after.cohort.contains_key(id)
            &&& s.cohort.contains_key(id) ==> after.cohort[id] == s.cohort[id]
            &&& !s.cohort.contains_key(id) ==> after.cohort[id] == (Member {
                joined_ms: ts_ms,
                source,
            })
            &&& !s.cohort.contains_key(id) ==> !after.outsiders.contains_key(id)
            &&& after.ranks.len() == s.ranks.len() + entries.len()
            &&& after.ranks[s.ranks.len() + i] == (id, ts_ms, entries[i].1)
            &&& after.frontier.contains_key(id)
            &&& s.frontier.contains_key(id) && s.frontier[id].bucket == 0 ==> after.frontier[id]
                == s.frontier[id]
            &&& !s.frontier.contains_key(id) ==> after.frontier[id] == (QueuedV {
                platform,
                bucket: 0,
                due_ms: ts_ms,
                task: TaskV { puuid: name, last_visit_ms: 0 },
            })
        }),
{
    let names = entry_names(entries);
    lemma_with_ids(s, names);
    law_ids_are_kept(s, names);
    let t = with_ids(s, names);
    let ids = ids_in(t, names);
    let items = first_visits(ids, names);
    assert(names[i] == entries[i].0@);
    assert forall|a: int, b: int| 0 <= a < b < items.len() implies (#[trigger] items[a]).0 != (
    #[trigger] items[b]).0 by {
        assert(names[a] == entries[a].0@ && names[b] == entries[b].0@);
        assert(t.players.contains_key(names[a]) && t.players.contains_key(names[b]));
    }
    assert(items[i] == (ids[i], TaskV { puuid: names[i], last_visit_ms: 0 }));
    lemma_batch(s.frontier, platform, ts_ms, items, i);
    assert(ids.to_set().contains(ids[i])) by {
        assert(ids.contains(ids[i]));
    }
}

/// The ladder is walked from the first page of the first band, page by page,
/// and from an empty page on with the first page of the next band, through all
/// eight bands.
pub proof fn law_ladder_is_walked_page_by_page(s: StoreV, platform: Seq<char>, band: u32, page: u32)
    requires
        band < 8,
        1 <= page < 9_999,
    ensures
        !s.meta.contains_key("expand_cursor_"@ + platform) ==> page_at(cursor_of(s, platform))
            == Some(LadderPage { band: 0, page: 1 }),
        s.meta.contains_key("expand_cursor_"@ + platform) && s.meta["expand_cursor_"@ + platform]
            == 10_000 * band + page ==> page_at(cursor_of(s, platform)) == Some(
            LadderPage { band, page },
        ),
        page_at(place_after(LadderPage { band, page }, false)) == Some(
            LadderPage { band, page: (page + 1) as u32 },
        ),
        band < 7 ==> page_at(place_after(LadderPage { band, page }, true)) == Some(
            LadderPage { band: (band + 1) as u32, page: 1 },
        ),
        band == 7 ==> page_at(place_after(LadderPage { band, page }, true)) is None,
        EXPANSION_BANDS@.len() == 8,
        EXPANSION_BANDS@[0].0@ == "DIAMOND"@ && EXPANSION_BANDS@[0].1@ == "I"@,
        EXPANSION_BANDS@[1].0@ == "DIAMOND"@ && EXPANSION_BANDS@[1].1@ == "II"@,
        EXPANSION_BANDS@[2].0@ == "DIAMOND"@ && EXPANSION_BANDS@[2].1@ == "III"@,
        EXPANSION_BANDS@[3].0@ == "DIAMOND"@ && EXPANSION_BANDS@[3].1@ == "IV"@,
        EXPANSION_BANDS@[4].0@ == "EMERALD"@ && EXPANSION_BANDS@[4].1@ == "I"@,
        EXPANSION_BANDS@[5].0@ == "EMERALD"@ && EXPANSION_BANDS@[5].1@ == "II"@,
        EXPANSION_BANDS@[6].0@ == "EMERALD"@ && EXPANSION_BANDS@[6].1@ == "III"@,
        EXPANSION_BANDS@[7].0@ == "EMERALD"@ && EXPANSION_BANDS@[7].1@ == "IV"@,
{
}

/// A ladder entry's rank is taken over field by field.
pub proof fn law_ladder_ranks(e: LeagueEntry)
    ensures
        ladder_rank(e).tier@ == e.tier@,
        ladder_rank(e).division@ == e.rank@,
        ladder_rank(e).lp == e.league_points,
        ladder_rank(e).wins == e.wins,
        ladder_rank(e).losses == e.losses,
{
}

/// A player's rank is that of their first entry for ranked solo games.
pub proof fn law_solo_rank_is_the_first(entries: Seq<LeagueEntry>, from: int, i: int)
    requires
        0 <= from,
        forall|j: int|
            from <= j < i && j < entries.len() ==> (#[trigger] entries[j]).queue_type@
                != "RANKED_SOLO_5x5"@,
    ensures
        from <= i < entries.len() && entries[i].queue_type@ == "RANKED_SOLO_5x5"@ ==> solo_entry(
            entries,
            from,
        ) == Some(entries[i]),
        i >= entries.len() ==> solo_entry(entries, from) is None,
    decreases entries.len() - from,
{
    if from < entries.len() && from < i {
        assert(entries[from].queue_type@ != "RANKED_SOLO_5x5"@);
        law_solo_rank_is_the_first(entries, from + 1, i);
    }
}

// ---- the queue ----

/// A task that is due is one of the platform whose time has come, of either
/// bucket. The one that is taken is of the better bucket, and in its bucket
/// nothing was due before it; of two that were due at one time the lower player
/// id goes first.
pub proof fn law_earliest_task_goes_first(
    queue: Map<u32, QueuedV>,
    platform: Seq<char>,
    now_ms: u64,
    taken: u32,
    other: u32,
)
    requires
        is_first_due(queue, platform, now_ms, taken),
        other != taken,
        queue.contains_key(other),
        queue[other].platform == platform,
        queue[other].bucket <= 1,
        queue[other].due_ms <= now_ms,
    ensures
        queue.contains_key(taken),
        queue[taken].platform == platform,
        queue[taken].due_ms <= now_ms,
        queue[taken].bucket <= queue[other].bucket,
        queue[taken].bucket == queue[other].bucket ==> queue[taken].due_ms <= queue[other].due_ms,
        queue[taken].bucket == queue[other].bucket && queue[taken].due_ms == queue[other].due_ms
            ==> taken < other,
{
    assert(is_due(queue, platform, now_ms, other));
}

/// A player who is queued keeps their task unless a better bucket asks for
/// them; nobody else is moved.
pub proof fn law_queued_players_keep_their_task(
    queue: Map<u32, QueuedV>,
    player: u32,
    entry: QueuedV,
    other: u32,
)
    ensures
        !queue.contains_key(player) ==> pushed(queue, player, entry)[player] == entry,
        queue.contains_key(player) && entry.bucket < queue[player].bucket ==> pushed(
            queue,
            player,
            entry,
        )[player] == entry,
        queue.contains_key(player) && entry.bucket >= queue[player].bucket ==> pushed(
            queue,
            player,
            entry,
        )[player] == queue[player],
        pushed(queue, player, entry).contains_key(player),
        other != player ==> pushed(queue, player, entry).contains_key(other)
            == queue.contains_key(other) && (queue.contains_key(other) ==> pushed(
            queue,
            player,
            entry,
        )[other] == queue[other]),
{
}

// ---- visits ----

/// A player whose visit failed is tried again after an hour, for the same
/// visit. One who was visited is next visited when they are due, as one who was
/// visited now; only a deep visit that was cut short is due at once and stays
/// deep.
pub proof fn law_visits_are_queued_again(
    platform: Seq<char>,
    task: TaskV,
    now_ms: u64,
    due_ms: u64,
    stopped: bool,
)
    requires
        now_ms + 3_600_000 <= u64::MAX,
    ensures
        task_again(platform, task, now_ms) == (QueuedV {
            platform,
            bucket: 0,
            due_ms: (now_ms + 3_600_000) as u64,
            task,
        }),
        !stopped || task.last_visit_ms != 1 ==> task_next(platform, task, now_ms, due_ms, stopped)
            == (QueuedV {
            platform,
            bucket: 0,
            due_ms,
            task: TaskV { puuid: task.puuid, last_visit_ms: now_ms },
        }),
        stopped && task.last_visit_ms == 1 ==> task_next(platform, task, now_ms, due_ms, stopped)
            == (QueuedV { platform, bucket: 0, due_ms: now_ms, task }),
{
}

/// A visit asks for the matches of the last hundred and thirty days, and a deep
/// one for all.
pub proof fn law_visits_ask_for_recent_matches(now_ms: u64)
    requires
        now_ms >= 130 * 24 * 3600 * 1000,
    ensures
        asked_from(true, now_ms) is None,
        asked_from(false, now_ms) is Some,
        asked_from(false, now_ms)->0 * 1000 <= now_ms - 130 * 24 * 3600 * 1000,
        now_ms - 130 * 24 * 3600 * 1000 < asked_from(false, now_ms)->0 * 1000 + 1000,
{
}

/// An idle crawl sleeps until the next task is due, but at least a second and
/// at most half a minute.
pub proof fn law_idle_crawls_wake_in_time(due_ms: u64, now_ms: u64)
    ensures
        1_000 <= idle_for(Some(due_ms), now_ms) <= 30_000,
        idle_for(None, now_ms) == 30_000,
        now_ms + 1_000 <= due_ms <= now_ms + 30_000 ==> now_ms + idle_for(Some(due_ms), now_ms)
            == due_ms,
        due_ms <= now_ms + 1_000 ==> idle_for(Some(due_ms), now_ms) == 1_000,
        due_ms >= now_ms + 30_000 ==> idle_for(Some(due_ms), now_ms) == 30_000,
{
}

/// State is written out every minute, and whenever it is asked for. The raw
/// answers of ten games in a thousand are kept.
pub proof fn law_flushes_and_samples(elapsed_secs: u64, asked: bool, thousands: u64, rest: u64)
    requires
        rest < 1000,
        thousands * 1000 + rest <= u64::MAX,
    ensures
        is_flush_due(elapsed_secs, true),
        is_flush_due(elapsed_secs, false) <==> elapsed_secs >= 60,
        in_sample((thousands * 1000 + rest) as u64) <==> rest < 10,
{
}

// ---- match lists ----

/// A match list starts with a page, and pages follow one another: the next one
/// starts a hundred later, and nothing that was listed is lost.
pub proof fn law_pages_follow_one_another(m: MatchlistV, page: Seq<Seq<char>>)
    requires
        m.start <= 10_000,
    ensures
        begun(page).start == 100,
        begun(page).ids == page,
        begun(page).page_len == page.len(),
        continued(m, page).start == m.start + 100,
        continued(m, page).ids == m.ids + page,
        continued(m, page).page_len == page.len(),
{
}

/// Another page is fetched after a full one, up to ten thousand matches, until
/// the visit is stopped; a visit that is not deep ends at the first page that
/// has a match which was fetched before.
pub proof fn law_pages_end_at_known_matches(
    m: MatchlistV,
    s: StoreV,
    deep: bool,
    stopped: bool,
    k: int,
    platform: Seq<char>,
    n: u64,
)
    ensures
        m.page_len != 100 ==> !wants_page(m, s, deep, stopped),
        m.start >= 10_000 ==> !wants_page(m, s, deep, stopped),
        stopped ==> !wants_page(m, s, deep, stopped),
        m.page_len == 100 && m.start < 10_000 && !stopped && deep ==> wants_page(
            m,
            s,
            deep,
            stopped,
        ),
        !deep && m.ids.len() - 100 <= k < m.ids.len() && m.ids[k] == platform + seq!['_'] + decimal(
            n as int,
        ) && (forall|i: int| 0 <= i < platform.len() ==> #[trigger] platform[i] != '_')
            && s.seen.contains_key(platform) && s.seen[platform].contains(n) ==> !wants_page(
            m,
            s,
            deep,
            stopped,
        ),
        m.page_len == 100 && m.start < 10_000 && !stopped && (forall|j: int|
            m.ids.len() - 100 <= j < m.ids.len() ==> !is_seen_id(s, #[trigger] m.ids[j]))
            ==> wants_page(m, s, deep, stopped),
{
    if forall|i: int| 0 <= i < platform.len() ==> #[trigger] platform[i] != '_' {
        law_match_ids_split(platform, n);
        if m.ids.len() - 100 <= k < m.ids.len() && m.ids[k] == platform + seq!['_'] + decimal(
            n as int,
        ) && s.seen.contains_key(platform) && s.seen[platform].contains(n) {
            assert(is_seen_id(s, m.ids[k]));
        }
    }
}

/// A match is fetched if it is one of the platform's own that was not fetched
/// before, and those of other platforms never are.
pub proof fn law_own_new_matches_are_fetched(
    s: StoreV,
    platform: Seq<char>,
    other: Seq<char>,
    n: u64,
)
    requires
        forall|i: int| 0 <= i < other.len() ==> #[trigger] other[i] != '_',
    ensures
        is_new_id(s, platform, other + seq!['_'] + decimal(n as int)) <==> (other == platform && !(
        s.seen.contains_key(platform) && s.seen[platform].contains(n))),
        is_seen_id(s, other + seq!['_'] + decimal(n as int)) <==> (s.seen.contains_key(other)
            && s.seen[other].contains(n)),
{
    law_match_ids_split(other, n);
}

// ---- what is taken ----

/// Only ranked solo games of the platform are wanted.
pub proof fn law_ranked_games_are_wanted(rec: RecordV, platform: Seq<char>)
    ensures
        is_wanted(rec, platform) <==> (rec.queue_id == 420 && rec.platform == encode_utf8(
            platform,
        )),
        rec.game_start_ms >= 0 ==> begin_ms(rec) == rec.game_start_ms,
        rec.game_start_ms < 0 ==> begin_ms(rec) == 0,
{
}

/// Filling in the players' ids changes nothing else of a record.
pub proof fn law_player_ids_are_filled_in(rec: RecordV, ids: Seq<u32>, i: int, k: int)
    requires
        0 <= i < rec.participants.len(),
        rec.participants[i].row.len() == 5,
    ensures
        ({
            let out = with_player_ids(rec, ids);
            &&& out == (RecordV { participants: out.participants, ..rec })
            &&& out.participants.len() == rec.participants.len()
            &&& out.participants[i].lists == rec.participants[i].lists
            &&& out.participants[i].row.len() == 5
            &&& i < ids.len() ==> out.participants[i].row[0] == ids[i]
            &&& 1 <= k < 5 ==> out.participants[i].row[k] == rec.participants[i].row[k]
        }),
{
}

/// Taking a match that was fetched: one that cannot be read, is of another
/// queue or of another platform is only noted as seen. A wanted one is stored
/// if there is room and the day before is written, and is refused otherwise,
/// which changes nothing.
pub proof fn law_taken_matches_are_stored_or_noted(
    a: StoreV,
    b: StoreV,
    platform: Seq<char>,
    id: (Seq<char>, u64),
    parsed: Option<ParsedV>,
    today: Seq<char>,
    on: Occasion,
    res: Result<Taken, TakeError>,
)
    requires
        is_taken(a, b, platform, id, parsed, today, on, res),
    ensures
        res is Err ==> b == a,
        res is Err ==> parsed is Some && parsed->0.record.queue_id == 420
            && parsed->0.record.platform == encode_utf8(platform),
        parsed is None || parsed->0.record.queue_id != 420 || parsed->0.record.platform
            != encode_utf8(platform) ==> {
            &&& res is Ok
            &&& res->Ok_0 is Skipped
            &&& seen_of(b, id.0).contains(id.1)
            &&& b.cohort == a.cohort
            &&& b.played == a.played
            &&& b.progress == a.progress
            &&& b.frontier == a.frontier
            &&& b.writers == a.writers
        },
        res is Ok && res->Ok_0 is Stored ==> {
            let p = parsed->0;
            &&& parsed is Some
            &&& p.record.queue_id == 420
            &&& p.record.platform == encode_utf8(platform)
            &&& seen_of(b, platform).contains(p.record.game_id)
            &&& b.writers.contains_key(platform)
            &&& b.writers[platform].date == today
            &&& b.writers[platform].writer.pending.len() > 0
            &&& b.writers[platform].writer.pending.last().0 == p.record.game_id
            &&& b.progress.contains_key(platform)
            &&& b.progress[platform].contains_key(p.record.game_id)
        },
{
    if res is Ok && res->Ok_0 is Stored {
        let p = parsed->0;
        law_counted_match_is_stored(
            a,
            platform,
            p.record.game_id,
            p.record.duration_s,
            p.puuids,
            begin_ms(p.record),
            on.growth_paused,
        );
        let s = counted(
            a,
            platform,
            p.record.game_id,
            p.record.duration_s,
            p.puuids,
            begin_ms(p.record),
            on.growth_paused,
        );
        assert(b.progress == s.progress);
        assert(rows_of(s, platform).contains_key(p.record.game_id));
    }
}

// ---- regions ----

/// Every platform with its hosts, and those of them that are crawled.
pub proof fn law_region_table()
    ensures
        ALL_REGIONS@.len() == 15,
        ALL_REGIONS@[0] == ("BR1", "br1", "americas"),
        ALL_REGIONS@[1] == ("EUN1", "eun1", "europe"),
        ALL_REGIONS@[2] == ("EUW1", "euw1", "europe"),
        ALL_REGIONS@[3] == ("JP1", "jp1", "asia"),
        ALL_REGIONS@[4] == ("KR", "kr", "asia"),
        ALL_REGIONS@[5] == ("LA1", "la1", "americas"),
        ALL_REGIONS@[6] == ("LA2", "la2", "americas"),
        ALL_REGIONS@[7] == ("ME1", "me1", "europe"),
        ALL_REGIONS@[8] == ("NA1", "na1", "americas"),
        ALL_REGIONS@[9] == ("OC1", "oc1", "sea"),
        ALL_REGIONS@[10] == ("RU", "ru", "europe"),
        ALL_REGIONS@[11] == ("SG2", "sg2", "sea"),
        ALL_REGIONS@[12] == ("TR1", "tr1", "europe"),
        ALL_REGIONS@[13] == ("TW2", "tw2", "sea"),
        ALL_REGIONS@[14] == ("VN2", "vn2", "sea"),
        ENABLED_REGIONS@ == seq!["EUW1", "NA1", "KR", "VN2"],
{
    assert(ENABLED_REGIONS@ =~= seq!["EUW1", "NA1", "KR", "VN2"]);
}

proof fn lemma_enabled(from: int, r: Region)
    requires
        0 <= from,
    ensures
        enabled_from(from).contains(r) <==> exists|i: int|
            from <= i < 15 && enabled(ALL_REGIONS@[i].0@) && #[trigger] region_at(i) == r,
    decreases 15 - from,
{
    if from < 15 {
        lemma_enabled(from + 1, r);
        let head = region_at(from);
        let rest = enabled_from(from + 1);
        let all = enabled_from(from);
        if enabled(head.platform@) {
            assert(all =~= seq![head] + rest);
            if rest.contains(r) {
                let j = choose|j: int| 0 <= j < rest.len() && rest[j] == r;
                assert(all[j + 1] == r);
            }
            if head == r {
                assert(all[0] == r);
            }
            if all.contains(r) {
                let j = choose|j: int| 0 <= j < all.len() && all[j] == r;
                if j > 0 {
                    assert(rest[j - 1] == r);
                }
            }
        }
        if exists|i: int|
            from <= i < 15 && enabled(ALL_REGIONS@[i].0@) && #[trigger] region_at(i) == r {
            let i = choose|i: int|
                from <= i < 15 && enabled(ALL_REGIONS@[i].0@) && #[trigger] region_at(i) == r;
            if i > from {
                assert(from + 1 <= i < 15 && region_at(i) == r);
            }
        }
    }
}

/// A region is crawled exactly if the table has it and its platform is one of
/// those that are switched on.
pub proof fn law_switched_on_regions_are_crawled(r: Region)
    ensures
        enabled_from(0).contains(r) <==> (exists|i: int|
            0 <= i < 15 && #[trigger] region_at(i) == r) && (r.platform@ == "EUW1"@ || r.platform@
            == "NA1"@ || r.platform@ == "KR"@ || r.platform@ == "VN2"@),
{
    lemma_enabled(0, r);
    law_region_table();
    let e = ENABLED_REGIONS@;
    assert(e[0]@ == "EUW1"@ && e[1]@ == "NA1"@ && e[2]@ == "KR"@ && e[3]@ == "VN2"@);
    if exists|i: int| 0 <= i < 15 && #[trigger] region_at(i) == r {
        let i = choose|i: int| 0 <= i < 15 && #[trigger] region_at(i) == r;
        assert(ALL_REGIONS@[i].0@ == r.platform@);
        if enabled(r.platform@) {
            assert(region_at(i) == r && enabled(ALL_REGIONS@[i].0@));
        }
    }
}

// ---- the next thing to do ----

/// A crawl visits the player whose task is first, if they are in the cohort. It
/// is idle only if nothing is due. What is taken is off the queue, and nobody
/// else is.
pub proof fn law_next_visit(
    s: StoreV,
    after: StoreV,
    platform: Seq<char>,
    now_ms: u64,
    res: NextVisit,
    p: u32,
)
    requires
        is_next_visit(s, after, platform, now_ms, res),
    ensures
        s.frontier.contains_key(p) && s.frontier[p].platform == platform && s.frontier[p].bucket <= 1
            && s.frontier[p].due_ms <= now_ms ==> !(res is Idle),
        res is Idle ==> after == s,
        res matches NextVisit::Visit(player, task) ==> {
            &&& s.cohort.contains_key(player)
            &&& is_first_due(s.frontier, platform, now_ms, player)
            &&& task.puuid@ == s.frontier[player].task.puuid
            &&& task.last_visit_ms == s.frontier[player].task.last_visit_ms
            &&& !after.frontier.contains_key(player)
            &&& p != player && s.frontier.contains_key(p) ==> after.frontier.contains_key(p)
                && after.frontier[p] == s.frontier[p]
            &&& after.cohort == s.cohort
        },
        res matches NextVisit::Dropped(player) ==> {
            &&& !s.cohort.contains_key(player)
            &&& is_first_due(s.frontier, platform, now_ms, player)
            &&& !after.frontier.contains_key(player)
            &&& p != player && s.frontier.contains_key(p) ==> after.frontier.contains_key(p)
                && after.frontier[p] == s.frontier[p]
        },
{
    if s.frontier.contains_key(p) && s.frontier[p].platform == platform && s.frontier[p].bucket <= 1
        && s.frontier[p].due_ms <= now_ms {
        assert(is_due(s.frontier, platform, now_ms, p));
    }
}

/// The next task of a platform is due when the earliest of its tasks is.
pub proof fn law_next_due_is_the_earliest(
    queue: Map<u32, QueuedV>,
    platform: Seq<char>,
    res: Option<u64>,
    p: u32,
)
    requires
        is_next_due(queue, platform, res),
        queue.contains_key(p),
        queue[p].platform == platform,
        queue[p].bucket <= 1,
    ensures
        res is Some,
        res->0 <= queue[p].due_ms,
{
}

/// While the brake is on no page of the ladder is fetched.
pub proof fn law_braked_crawls_do_not_expand(s: StoreV, platform: Seq<char>)
    ensures
        page_wanted(s, platform, true) is None,
        page_wanted(s, platform, false) == page_at(cursor_of(s, platform)),
{
}

/// After a page the walk goes on at the place behind it, whoever was on it; the
/// players of a page come from the ladder.
pub proof fn law_pages_move_the_cursor(
    s: StoreV,
    platform: Seq<char>,
    band: u32,
    page: u32,
    entries: Seq<LeagueEntry>,
    ts_ms: u64,
)
    requires
        band < 8,
        1 <= page < 9_999,
    ensures
        ({
            let after = after_page(s, platform, LadderPage { band, page }, entries, ts_ms);
            &&& entries.len() > 0 ==> cursor_of(after, platform) == 10_000 * band + page + 1
            &&& entries.len() == 0 ==> cursor_of(after, platform) == 10_000 * (band + 1) + 1
            &&& entries.len() == 0 ==> after.cohort == s.cohort && after.frontier == s.frontier
                && after.ranks == s.ranks
            &&& entries.len() > 0 ==> after.cohort == enrolled(
                s,
                platform,
                page_entries(entries),
                2,
                ts_ms,
            ).cohort
            &&& entries.len() > 0 ==> after.frontier == enrolled(
                s,
                platform,
                page_entries(entries),
                2,
                ts_ms,
            ).frontier
        }),
{
}

/// Of an apex league the players who have an id text are enrolled, with the
/// first division of their tier.
pub proof fn law_apex_entries(
    out: (String, RankSnap),
    e: LeagueListEntry,
    tier: Seq<char>,
    list: Seq<LeagueListEntry>,
)
    ensures
        is_apex_entry(out, e, tier) <==> (out.0@ == e.puuid@ && out.1.tier@ == tier
            && out.1.division@ == "I"@ && out.1.lp == e.league_points && out.1.wins == e.wins
            && out.1.losses == e.losses),
        with_puuid(list.push(e)) == (if e.puuid@.len() > 0 {
            with_puuid(list).push(e)
        } else {
            with_puuid(list)
        }),
{
    reveal(Seq::filter);
    assert(list.push(e).drop_last() =~= list);
}

/// State is written out once there are more than five thousand rank snapshots,
/// or four mebibytes for one platform.
pub proof fn law_commits_are_worthwhile(s: StoreV, platform: Seq<char>)
    ensures
        s.ranks.len() > 5_000 ==> wants_commit(s),
        s.writers.contains_key(platform) && s.writers[platform].writer.buf.len() >= 4 * 1024 * 1024
            ==> wants_commit(s),
        s.ranks.len() <= 5_000 && (forall|p: Seq<char>| #[trigger]
            s.writers.contains_key(p) ==> s.writers[p].writer.buf.len() < 4 * 1024 * 1024)
            ==> !wants_commit(s),
{
}

/// A node that is enrolled is kept under the next id with what is known of it,
/// and the id after that is the next one.
pub proof fn law_nodes_are_enrolled(
    before: StoreV,
    after: StoreV,
    id: u32,
    name: Seq<char>,
    hash: Seq<char>,
    now_ms: u64,
    other: u32,
)
    requires
        is_enrolment(before, after, id, name, hash, now_ms),
        id < u32::MAX,
    ensures
        after.nodes.contains_key(id),
        after.nodes[id].name@ == name,
        after.nodes[id].token_sha256_hex@ == hash,
        after.nodes[id].created_ms == now_ms,
        after.meta.contains_key("next_node_id"@),
        after.meta["next_node_id"@] == id + 1,
        other != id && before.nodes.contains_key(other) ==> after.nodes.contains_key(other)
            && after.nodes[other] == before.nodes[other],
        after.cohort == before.cohort,
{
}

/// A backfill makes every priority task of a member of the cohort a deep visit
/// that is due at once, and leaves all other tasks as they are.
pub proof fn law_backfill_makes_deep_visits(
    queue: Map<u32, QueuedV>,
    cohort: Set<u32>,
    now_ms: u64,
    p: u32,
)
    requires
        queue.contains_key(p),
    ensures
        cohort.contains(p) && queue[p].bucket == 0 ==> backfilled(queue, cohort, now_ms)[p] == (
        QueuedV {
            platform: queue[p].platform,
            bucket: 0,
            due_ms: now_ms,
            task: TaskV { puuid: queue[p].task.puuid, last_visit_ms: 1 },
        }),
        !cohort.contains(p) || queue[p].bucket != 0 ==> backfilled(queue, cohort, now_ms)[p]
            == queue[p],
        backfilled(queue, cohort, now_ms).dom() == queue.dom(),
{
    assert(backfilled(queue, cohort, now_ms).dom() =~= queue.dom());
}

/// A match that was found and can be read is taken as what it says; any other is
/// taken as one that cannot be read.
pub proof fn law_readable_matches(m: Seq<char>, t: Option<Seq<char>>)
    ensures
        readable(None, t) is None,
        parsed_texts(m, t) is Err ==> readable(Some(m), t) is None,
        parsed_texts(m, t) matches Ok(p) ==> readable(Some(m), t) == Some(p),
{
}

/// Nobody else is touched by an enrolment: members stay members, outsiders keep
/// their sightings, and the queue keeps its tasks.
pub proof fn law_enrolment_leaves_others_alone(
    s: StoreV,
    platform: Seq<char>,
    entries: Seq<(String, RankSnap)>,
    source: u8,
    ts_ms: u64,
    p: u32,
    i: int,
)
    requires
        ids_ok(s.players, s.names, s.next_player_id),
        has_ids(s, entry_names(entries)),
        forall|k: int|
            0 <= k < entries.len() ==> enrolled(
                s,
                platform,
                entries,
                source,
                ts_ms,
            ).players[(#[trigger] entries[k]).0@] != p,
    ensures
        ({
            let after = enrolled(s, platform, entries, source, ts_ms);
            &&& after.cohort.contains_key(p) == s.cohort.contains_key(p)
            &&& s.cohort.contains_key(p) ==> after.cohort[p] == s.cohort[p]
            &&& after.outsiders.contains_key(p) == s.outsiders.contains_key(p)
            &&& after.frontier.contains_key(p) == s.frontier.contains_key(p)
            &&& s.frontier.contains_key(p) ==> after.frontier[p] == s.frontier[p]
            &&& 0 <= i < s.ranks.len() ==> after.ranks[i] == s.ranks[i]
            &&& after.played == s.played
            &&& after.progress == s.progress
            &&& after.seen == s.seen
            &&& after.writers == s.writers
            &&& after.meta == s.meta
        }),
{
    let names = entry_names(entries);
    lemma_with_ids(s, names);
    let t = with_ids(s, names);
    let ids = ids_in(t, names);
    let items = first_visits(ids, names);
    assert forall|k: int| 0 <= k < ids.len() implies #[trigger] ids[k] != p by {
        assert(names[k] == entries[k].0@);
        assert(enrolled(s, platform, entries, source, ts_ms).players == t.players);
    }
    assert(!ids.to_set().contains(p)) by {
        if ids.contains(p) {
            let k = choose|k: int| 0 <= k < ids.len() && ids[k] == p;
            assert(ids[k] != p);
        }
    }
    assert forall|a: int| 0 <= a < items.len() implies (#[trigger] items[a]).0 != p by {
        assert(ids[a] != p);
    }
    lemma_batch_others(s.frontier, platform, ts_ms, items, p);
}

/// A match that is stored is buffered for its own platform; what is buffered for
/// others stays, and so does what was buffered before it that day.
pub proof fn law_stored_matches_are_buffered(
    a: StoreV,
    b: StoreV,
    platform: Seq<char>,
    p: ParsedV,
    today: Seq<char>,
    on: Occasion,
    out: Stored,
    other: Seq<char>,
)
    requires
        is_stored(a, b, platform, p, today, on, out),
        other != platform,
    ensures
        b.writers.contains_key(other) == a.writers.contains_key(other),
        a.writers.contains_key(other) ==> b.writers[other] == a.writers[other],
        b.writers[platform].date == today,
        a.writers.contains_key(platform) && a.writers[platform].date == today ==> {
            let was = a.writers[platform].writer;
            let now = b.writers[platform].writer;
            &&& now.pending.len() == was.pending.len() + 1
            &&& now.pending.drop_last() == was.pending
            &&& now.pending.last() == (p.record.game_id, was.buf.len() as u32)
            &&& now.buf.len() > was.buf.len()
            &&& now.buf.take(was.buf.len() as int) == was.buf
        },
        !a.writers.contains_key(platform) || a.writers[platform].date != today
            ==> b.writers[platform].writer.pending == seq![(p.record.game_id, 0u32)],
        b.ranks == a.ranks,
        b.meta == a.meta,
        b.nodes == a.nodes,
{
    let day = segment_for(a, platform, today);
    let now = b.writers[platform].writer;
    let rec = with_player_ids(p.record, ids_in(with_ids(a, p.puuids), p.puuids));
    assert(now.pending =~= day.writer.pending.push((p.record.game_id, day.writer.buf.len() as u32)));
    assert(now.pending.drop_last() =~= day.writer.pending);
    let row = row_bytes(record_bytes(rec));
    lemma_le_len((record_bytes(rec).len() as u32) as int, 4);
    assert(row.len() >= 4);
    assert(now.buf == day.writer.buf + row);
    assert(now.buf.take(day.writer.buf.len() as int) =~= day.writer.buf);
    if !a.writers.contains_key(platform) || a.writers[platform].date != today {
        assert(now.pending =~= seq![(p.record.game_id, 0u32)]);
    }
    lemma_ids_frame(a, p.puuids);
    let t = with_ids(a, p.puuids);
    lemma_sighted_frame(t, ids_in(t, p.puuids), begin_ms(p.record), on.growth_paused);
}

} // verus!
