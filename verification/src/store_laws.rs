//! Laws of the crawl state.

use crate::config::{Region, ADOPTION_THRESHOLD, REMAKE_MAX_DURATION_S};
use crate::history::{earlier, games_of, history_ok, in_order, lemma_placed, Played};
use crate::progress::{
    bumped, credited, flagged, law_credit_keeps_rows_in_order, law_opening_is_in_order,
    lemma_valid_after, opening, rows_ok, slotted, valid_games, HISTORY_REQUIRED, SLOTS,
};
use crate::store::{
    counted, credited_all, crosses, has_ids, home_of, ids_in, ids_ok, joined, lemma_strangers,
    lemma_with_ids, platform_of_game, played_by_all, requeued, rows_of, sighted, sighted_all,
    sightings, slot_counts, stranded, strangers, valid_of, with_id, with_ids, Member, StoreV,
};
use vstd::prelude::*;

verus! {

// ---- ids ----

/// No two players have one id.
pub open spec fn ids_unique(players: Map<Seq<char>, u32>) -> bool {
    forall|p: Seq<char>, q: Seq<char>|
        #[trigger] players.contains_key(p) && #[trigger] players.contains_key(q) && players[p]
            == players[q] ==> p == q
}

/// Assigning ids keeps the ids that are assigned, gives one to everybody asked
/// for, and never gives two players one id.
pub proof fn law_ids_are_kept(s: StoreV, puuids: Seq<Seq<char>>)
    requires
        ids_ok(s.players, s.names, s.next_player_id),
        ids_unique(s.players),
        has_ids(s, puuids),
    ensures
        ids_unique(with_ids(s, puuids).players),
        ids_ok(
            with_ids(s, puuids).players,
            with_ids(s, puuids).names,
            with_ids(s, puuids).next_player_id,
        ),
        with_ids(s, puuids).next_player_id == s.next_player_id + strangers(s.players, puuids),
        forall|p: Seq<char>| #[trigger]
            s.players.contains_key(p) ==> with_ids(s, puuids).players.contains_key(p) && with_ids(
                s,
                puuids,
            ).players[p] == s.players[p],
        forall|i: int|
            0 <= i < puuids.len() ==> with_ids(s, puuids).players.contains_key(
                #[trigger] puuids[i],
            ),
    decreases puuids.len(),
{
    if puuids.len() > 0 {
        let rest = puuids.drop_last();
        lemma_strangers(s.players, puuids, rest.len() as int);
        assert(puuids.take(rest.len() as int) =~= rest);
        law_ids_are_kept(s, rest);
        lemma_with_ids(s, rest);
        let m = with_ids(s, rest);
        let t = with_ids(s, puuids);
        assert(t == with_id(m, puuids.last()));
        assert forall|p: Seq<char>, q: Seq<char>|
            #[trigger] t.players.contains_key(p) && #[trigger] t.players.contains_key(q)
                && t.players[p] == t.players[q] implies p == q by {
            if p != puuids.last() {
                assert(m.players.contains_key(p) || m.players.contains_key(puuids.last()));
            }
            assert(m.players.contains_key(p) ==> m.players[p] < m.next_player_id);
            assert(m.players.contains_key(q) ==> m.players[q] < m.next_player_id);
        }
        assert forall|i: int| 0 <= i < puuids.len() implies t.players.contains_key(
            #[trigger] puuids[i],
        ) by {
            if i < rest.len() {
                assert(rest[i] == puuids[i]);
            }
        }
    }
}

/// Players who have ids keep the state as it is.
pub proof fn law_known_players_change_nothing(s: StoreV, puuids: Seq<Seq<char>>)
    requires
        forall|i: int| 0 <= i < puuids.len() ==> s.players.contains_key(#[trigger] puuids[i]),
    ensures
        with_ids(s, puuids) == s,
    decreases puuids.len(),
{
    if puuids.len() > 0 {
        let rest = puuids.drop_last();
        assert forall|i: int| 0 <= i < rest.len() implies s.players.contains_key(
            #[trigger] rest[i],
        ) by {
            assert(rest[i] == puuids[i]);
        }
        law_known_players_change_nothing(s, rest);
        assert(puuids[puuids.len() - 1] == puuids.last());
    }
}

proof fn lemma_all_known(s: StoreV, puuids: Seq<Seq<char>>)
    ensures
        forall|i: int|
            0 <= i < puuids.len() ==> with_ids(s, puuids).players.contains_key(
                #[trigger] puuids[i],
            ),
    decreases puuids.len(),
{
    if puuids.len() > 0 {
        let rest = puuids.drop_last();
        lemma_all_known(s, rest);
        assert forall|i: int| 0 <= i < puuids.len() implies with_ids(
            s,
            puuids,
        ).players.contains_key(#[trigger] puuids[i]) by {
            if i < rest.len() {
                assert(rest[i] == puuids[i]);
            }
        }
    }
}

// ---- storing a match ----

proof fn lemma_credited_dom(rows: Map<u64, Seq<u8>>, games: Seq<Played>, i: int)
    ensures
        credited(rows, games, i).dom() == rows.dom(),
    decreases games.len() - i,
{
    if 0 <= i < games.len() {
        let g = games[i].game_id;
        let slot = games[i].slot as int;
        lemma_credited_dom(rows, games, i + 1);
        if rows.contains_key(g) {
            let next = rows.insert(g, bumped(rows[g], slot));
            assert(next.dom() =~= rows.dom());
            lemma_credited_dom(next, games, i + 1);
        }
    }
}

proof fn lemma_credited_all_dom(
    rows: Map<u64, Seq<u8>>,
    played: Map<u32, Seq<Played>>,
    ids: Seq<u32>,
    ts_ms: u64,
)
    ensures
        credited_all(rows, played, ids, ts_ms).dom() == rows.dom(),
    decreases ids.len(),
{
    if ids.len() > 0 {
        lemma_credited_all_dom(rows, played, ids.drop_last(), ts_ms);
        let games = games_of(played, ids.last());
        lemma_credited_dom(
            credited_all(rows, played, ids.drop_last(), ts_ms),
            games,
            earlier(games, ts_ms + 1) as int,
        );
    }
}

pub proof fn lemma_sighted_frame(t: StoreV, ids: Seq<u32>, ts_ms: u64, growth_paused: bool)
    ensures
        ({
            let s = sighted_all(t, ids, ts_ms, growth_paused);
            s == (StoreV { cohort: s.cohort, outsiders: s.outsiders, ..t })
        }),
    decreases ids.len(),
{
    if ids.len() > 0 {
        lemma_sighted_frame(t, ids.drop_last(), ts_ms, growth_paused);
    }
}

/// A counted match is in the rows of its platform, and so are the matches
/// that were counted before; the rows of other platforms are as they were, and
/// so are the bitmaps and the buffers.
pub proof fn law_counted_match_is_stored(
    s: StoreV,
    platform: Seq<char>,
    game_id: u64,
    duration_s: u32,
    puuids: Seq<Seq<char>>,
    ts_ms: u64,
    growth_paused: bool,
)
    ensures
        ({
            let after = counted(s, platform, game_id, duration_s, puuids, ts_ms, growth_paused);
            &&& rows_of(after, platform).dom() == rows_of(s, platform).dom().insert(game_id)
            &&& forall|p: Seq<char>|
                p != platform ==> #[trigger] rows_of(after, p) == rows_of(s, p)
            &&& after.players == with_ids(s, puuids).players
            &&& after.names == with_ids(s, puuids).names
            &&& after.next_player_id == with_ids(s, puuids).next_player_id
            &&& after.seen == s.seen
            &&& after.writers == s.writers
        }),
{
    let t = with_ids(s, puuids);
    lemma_ids_frame(s, puuids);
    let ids = ids_in(t, puuids);
    let rows = rows_of(t, platform);
    let after = counted(s, platform, game_id, duration_s, puuids, ts_ms, growth_paused);
    lemma_sighted_frame(t, ids, ts_ms, growth_paused);
    if rows.contains_key(game_id) {
        assert(rows.dom() =~= rows.dom().insert(game_id));
    } else if duration_s < REMAKE_MAX_DURATION_S {
        assert(rows_of(after, platform).dom() =~= rows.dom().insert(game_id));
    } else {
        let opened = rows.insert(game_id, opening(slot_counts(t.played, ids, ts_ms)));
        let played = played_by_all(t.played, ids, ts_ms, game_id);
        lemma_credited_all_dom(opened, played, ids, ts_ms);
        assert(opened.dom() =~= rows.dom().insert(game_id));
    }
}

pub proof fn lemma_ids_frame(s: StoreV, puuids: Seq<Seq<char>>)
    ensures
        ({
            let t = with_ids(s, puuids);
            t == (StoreV {
                players: t.players,
                names: t.names,
                next_player_id: t.next_player_id,
                ..s
            })
        }),
    decreases puuids.len(),
{
    if puuids.len() > 0 {
        lemma_ids_frame(s, puuids.drop_last());
    }
}

/// Counting a match that was counted before, with whatever duration, time and
/// brake, only gives ids to its players: nothing is credited twice.
pub proof fn law_restore_credits_nothing(
    s: StoreV,
    platform: Seq<char>,
    game_id: u64,
    duration_s: u32,
    puuids: Seq<Seq<char>>,
    ts_ms: u64,
    growth_paused: bool,
    again_duration_s: u32,
    again_ts_ms: u64,
    again_paused: bool,
)
    ensures
        ({
            let once = counted(s, platform, game_id, duration_s, puuids, ts_ms, growth_paused);
            counted(
                once,
                platform,
                game_id,
                again_duration_s,
                puuids,
                again_ts_ms,
                again_paused,
            ) == once
        }),
{
    let once = counted(s, platform, game_id, duration_s, puuids, ts_ms, growth_paused);
    law_counted_match_is_stored(s, platform, game_id, duration_s, puuids, ts_ms, growth_paused);
    lemma_all_known(s, puuids);
    law_known_players_change_nothing(once, puuids);
    assert(rows_of(once, platform).contains_key(game_id));
}

/// A remake earns nothing: no history, no sighting, no membership, and no
/// valid sample; the rows of all other games stay as they are.
pub proof fn law_remakes_earn_nothing(
    s: StoreV,
    platform: Seq<char>,
    game_id: u64,
    duration_s: u32,
    puuids: Seq<Seq<char>>,
    ts_ms: u64,
    growth_paused: bool,
)
    requires
        duration_s < REMAKE_MAX_DURATION_S,
    ensures
        ({
            let after = counted(s, platform, game_id, duration_s, puuids, ts_ms, growth_paused);
            &&& after.cohort == s.cohort
            &&& after.outsiders == s.outsiders
            &&& after.played == s.played
            &&& after.valid == s.valid
            &&& valid_games(rows_of(after, platform)) == valid_games(rows_of(s, platform))
            &&& forall|g: u64|
                g != game_id && rows_of(s, platform).contains_key(g) ==> #[trigger] rows_of(
                    after,
                    platform,
                )[g] == rows_of(s, platform)[g]
        }),
{
    lemma_ids_frame(s, puuids);
    let after = counted(s, platform, game_id, duration_s, puuids, ts_ms, growth_paused);
    let rows = rows_of(s, platform);
    if !rows.contains_key(game_id) {
        assert(!flagged(Seq::<u8>::empty()));
        assert(valid_games(rows.insert(game_id, Seq::empty())) =~= valid_games(rows));
    }
}

proof fn lemma_paused(t: StoreV, ids: Seq<u32>, ts_ms: u64)
    ensures
        sighted_all(t, ids, ts_ms, true).cohort == t.cohort,
    decreases ids.len(),
{
    if ids.len() > 0 {
        lemma_paused(t, ids.drop_last(), ts_ms);
    }
}

/// While growth is paused no match makes anybody a member of the cohort.
pub proof fn law_brake_defers_adoption(
    s: StoreV,
    platform: Seq<char>,
    game_id: u64,
    duration_s: u32,
    puuids: Seq<Seq<char>>,
    ts_ms: u64,
)
    ensures
        counted(s, platform, game_id, duration_s, puuids, ts_ms, true).cohort == s.cohort,
{
    lemma_ids_frame(s, puuids);
    let t = with_ids(s, puuids);
    lemma_paused(t, ids_in(t, puuids), ts_ms);
}

/// Once the brake is off, a player who was seen often enough meanwhile joins
/// at the next sighting, and their sightings are forgotten.
pub proof fn law_deferred_players_join(s: StoreV, player: u32, ts_ms: u64)
    requires
        !s.cohort.contains_key(player),
        sightings(s, player) + 1 >= ADOPTION_THRESHOLD,
    ensures
        crosses(s, player, false),
        sighted(s, player, ts_ms, false).cohort.contains_key(player),
        sightings(sighted(s, player, ts_ms, false), player) == 0,
{
}

/// Nobody is both in the cohort and counted as an outsider.
pub open spec fn sides_apart(s: StoreV) -> bool {
    forall|p: u32| #[trigger] s.cohort.contains_key(p) ==> !s.outsiders.contains_key(p)
}

proof fn lemma_sides(t: StoreV, ids: Seq<u32>, ts_ms: u64, growth_paused: bool)
    requires
        sides_apart(t),
    ensures
        sides_apart(sighted_all(t, ids, ts_ms, growth_paused)),
        forall|p: u32| #[trigger]
            t.cohort.contains_key(p) ==> sighted_all(
                t,
                ids,
                ts_ms,
                growth_paused,
            ).cohort.contains_key(p),
    decreases ids.len(),
{
    if ids.len() > 0 {
        lemma_sides(t, ids.drop_last(), ts_ms, growth_paused);
        let m = sighted_all(t, ids.drop_last(), ts_ms, growth_paused);
        let s = sighted_all(t, ids, ts_ms, growth_paused);
        assert forall|p: u32| #[trigger] s.cohort.contains_key(p) implies !s.outsiders.contains_key(
            p,
        ) by {
            if p != ids.last() {
                assert(m.cohort.contains_key(p));
            }
        }
        assert forall|p: u32| #[trigger] t.cohort.contains_key(p) implies s.cohort.contains_key(
            p,
        ) by {
            assert(m.cohort.contains_key(p));
        }
    }
}

/// Counting a match keeps members and outsiders apart, and no member leaves.
pub proof fn law_members_stay(
    s: StoreV,
    platform: Seq<char>,
    game_id: u64,
    duration_s: u32,
    puuids: Seq<Seq<char>>,
    ts_ms: u64,
    growth_paused: bool,
)
    requires
        sides_apart(s),
    ensures
        ({
            let after = counted(s, platform, game_id, duration_s, puuids, ts_ms, growth_paused);
            &&& sides_apart(after)
            &&& forall|p: u32| #[trigger]
                s.cohort.contains_key(p) ==> after.cohort.contains_key(p)
        }),
{
    lemma_ids_frame(s, puuids);
    let t = with_ids(s, puuids);
    let ids = ids_in(t, puuids);
    assert(sides_apart(t));
    lemma_sides(t, ids, ts_ms, growth_paused);
    let after = counted(s, platform, game_id, duration_s, puuids, ts_ms, growth_paused);
    let rows = rows_of(t, platform);
    if !rows.contains_key(game_id) && duration_s >= REMAKE_MAX_DURATION_S {
        let u = sighted_all(t, ids, ts_ms, growth_paused);
        assert(after.cohort == u.cohort && after.outsiders == u.outsiders);
        assert forall|p: u32| #[trigger] after.cohort.contains_key(p) implies
            !after.outsiders.contains_key(p) by {
            assert(u.cohort.contains_key(p));
        }
        assert forall|p: u32| #[trigger] s.cohort.contains_key(p) implies
            after.cohort.contains_key(p) by {
            assert(t.cohort.contains_key(p));
        }
    } else {
        assert(after.cohort == s.cohort && after.outsiders == s.outsiders);
        assert forall|p: u32| #[trigger] after.cohort.contains_key(p) implies
            !after.outsiders.contains_key(p) by {
            assert(s.cohort.contains_key(p));
        }
    }
}

/// Adding players to the cohort keeps members and outsiders apart, and a
/// second time changes nothing.
pub proof fn law_joining(s: StoreV, players: Set<u32>, member: Member, again: Member)
    requires
        sides_apart(s),
    ensures
        sides_apart(joined(s, players, member)),
        joined(joined(s, players, member), players, again) == joined(s, players, member),
{
    let t = joined(s, players, member);
    assert forall|p: u32| #[trigger] t.cohort.contains_key(p) implies !t.outsiders.contains_key(
        p,
    ) by {
        if s.cohort.contains_key(p) {
            assert(!s.outsiders.contains_key(p));
        }
    }
    assert(joined(t, players, again) =~= t);
}

// ---- valid samples ----

proof fn lemma_played_by_all(
    played: Map<u32, Seq<Played>>,
    ids: Seq<u32>,
    ts_ms: u64,
    game_id: u64,
)
    requires
        history_ok(played),
        ids.len() <= SLOTS,
    ensures
        history_ok(played_by_all(played, ids, ts_ms, game_id)),
    decreases ids.len(),
{
    if ids.len() > 0 {
        let rest = ids.drop_last();
        lemma_played_by_all(played, rest, ts_ms, game_id);
        let m = played_by_all(played, rest, ts_ms, game_id);
        let player = ids.last();
        let had = games_of(m, player);
        let e = Played { ts_ms, game_id, slot: rest.len() as u8 };
        assert(in_order(had));
        lemma_placed(had, e);
        let out = played_by_all(played, ids, ts_ms, game_id);
        assert forall|p: u32| #[trigger] out.contains_key(p) implies in_order(out[p]) by {
            if p != player {
                assert(m.contains_key(p));
            }
        }
    }
}

proof fn lemma_credited_all_ok(
    rows: Map<u64, Seq<u8>>,
    played: Map<u32, Seq<Played>>,
    ids: Seq<u32>,
    ts_ms: u64,
)
    requires
        rows_ok(rows),
    ensures
        rows_ok(credited_all(rows, played, ids, ts_ms)),
    decreases ids.len(),
{
    if ids.len() > 0 {
        let rest = ids.drop_last();
        lemma_credited_all_ok(rows, played, rest, ts_ms);
        let games = games_of(played, ids.last());
        law_credit_keeps_rows_in_order(
            credited_all(rows, played, rest, ts_ms),
            games,
            earlier(games, ts_ms + 1) as int,
        );
    }
}

/// Counting a match keeps every row in order: no slot counts more earlier
/// games than are required, and a game is flagged exactly if all its ten slots
/// are full.
pub proof fn law_flags_mean_full_histories(
    s: StoreV,
    platform: Seq<char>,
    game_id: u64,
    duration_s: u32,
    puuids: Seq<Seq<char>>,
    ts_ms: u64,
    growth_paused: bool,
)
    requires
        rows_ok(rows_of(s, platform)),
        history_ok(s.played),
        puuids.len() <= SLOTS,
    ensures
        ({
            let after = counted(s, platform, game_id, duration_s, puuids, ts_ms, growth_paused);
            &&& rows_ok(rows_of(after, platform))
            &&& history_ok(after.played)
        }),
{
    lemma_ids_frame(s, puuids);
    let t = with_ids(s, puuids);
    let ids = ids_in(t, puuids);
    let rows = rows_of(t, platform);
    lemma_sighted_frame(t, ids, ts_ms, growth_paused);
    if rows.contains_key(game_id) || duration_s < REMAKE_MAX_DURATION_S {
    } else {
        let counts = slot_counts(t.played, ids, ts_ms);
        law_opening_is_in_order(counts);
        let opened = rows.insert(game_id, opening(counts));
        let played = played_by_all(t.played, ids, ts_ms, game_id);
        lemma_played_by_all(t.played, ids, ts_ms, game_id);
        lemma_credited_all_ok(opened, played, ids, ts_ms);
    }
}

/// The number of valid samples of a platform moves exactly with the number of
/// its games that are flagged.
pub proof fn law_valid_samples_count_flags(
    s: StoreV,
    platform: Seq<char>,
    game_id: u64,
    duration_s: u32,
    puuids: Seq<Seq<char>>,
    ts_ms: u64,
    growth_paused: bool,
)
    requires
        valid_of(s, platform) == valid_games(rows_of(s, platform)).len(),
        rows_of(s, platform).dom().finite(),
        rows_of(s, platform).dom().len() < u64::MAX,
    ensures
        ({
            let after = counted(s, platform, game_id, duration_s, puuids, ts_ms, growth_paused);
            &&& valid_of(after, platform) >= valid_of(s, platform)
            &&& valid_of(after, platform) == valid_games(rows_of(after, platform)).len()
        }),
{
    lemma_ids_frame(s, puuids);
    let t = with_ids(s, puuids);
    let ids = ids_in(t, puuids);
    let rows = rows_of(t, platform);
    lemma_sighted_frame(t, ids, ts_ms, growth_paused);
    if rows.contains_key(game_id) {
    } else if duration_s < REMAKE_MAX_DURATION_S {
        law_remakes_earn_nothing(s, platform, game_id, duration_s, puuids, ts_ms, growth_paused);
    } else {
        let opened = rows.insert(game_id, opening(slot_counts(t.played, ids, ts_ms)));
        let played = played_by_all(t.played, ids, ts_ms, game_id);
        let after = credited_all(opened, played, ids, ts_ms);
        assert(opened.dom() =~= rows.dom().insert(game_id));
        lemma_valid_after(rows, game_id, opened[game_id]);
        lemma_credited_all_valid(opened, played, ids, ts_ms);
        lemma_credited_all_dom(opened, played, ids, ts_ms);
        after.dom().lemma_len_filter(|h: u64| flagged(after[h]));
    }
}

proof fn lemma_credited_valid(rows: Map<u64, Seq<u8>>, games: Seq<Played>, i: int)
    requires
        rows.dom().finite(),
    ensures
        valid_games(credited(rows, games, i)).len() >= valid_games(rows).len(),
    decreases games.len() - i,
{
    if 0 <= i < games.len() {
        let g = games[i].game_id;
        let slot = games[i].slot as int;
        if !rows.contains_key(g) || !slotted(rows[g]) || slot >= SLOTS {
            lemma_credited_valid(rows, games, i + 1);
        } else if rows[g][slot] < HISTORY_REQUIRED {
            let row = bumped(rows[g], slot);
            let next = rows.insert(g, row);
            assert(next.dom() =~= rows.dom());
            lemma_valid_after(rows, g, row);
            lemma_credited_valid(next, games, i + 1);
        }
    }
}

proof fn lemma_credited_all_valid(
    rows: Map<u64, Seq<u8>>,
    played: Map<u32, Seq<Played>>,
    ids: Seq<u32>,
    ts_ms: u64,
)
    requires
        rows.dom().finite(),
    ensures
        valid_games(credited_all(rows, played, ids, ts_ms)).len() >= valid_games(rows).len(),
    decreases ids.len(),
{
    if ids.len() > 0 {
        let rest = ids.drop_last();
        lemma_credited_all_valid(rows, played, rest, ts_ms);
        lemma_credited_all_dom(rows, played, rest, ts_ms);
        let games = games_of(played, ids.last());
        lemma_credited_valid(
            credited_all(rows, played, rest, ts_ms),
            games,
            earlier(games, ts_ms + 1) as int,
        );
    }
}

// ---- startup repair ----

proof fn lemma_home_frame(a: StoreV, b: StoreV, player: u32, regions: Seq<Region>)
    requires
        b == (StoreV { frontier: b.frontier, ..a }),
    ensures
        home_of(a, player, regions) == home_of(b, player, regions),
{
    lemma_platform_frame(a, b, games_of(a.played, player).last().game_id, regions);
}

proof fn lemma_platform_frame(a: StoreV, b: StoreV, game_id: u64, regions: Seq<Region>)
    requires
        a.progress == b.progress,
    ensures
        platform_of_game(a, game_id, regions) == platform_of_game(b, game_id, regions),
    decreases regions.len(),
{
    if regions.len() > 0 {
        lemma_platform_frame(a, b, game_id, regions.skip(1));
    }
}

/// After the repair nobody is stranded, those who were queued are queued as
/// before, and a second repair changes nothing.
pub proof fn law_repair_strands_nobody(
    s: StoreV,
    regions: Seq<Region>,
    now_ms: u64,
    again_ms: u64,
)
    ensures
        ({
            let after = StoreV {
                frontier: requeued(s, s.cohort.dom(), regions, now_ms),
                ..s
            };
            &&& forall|p: u32| !#[trigger] stranded(after, p, regions)
            &&& forall|p: u32| #[trigger]
                s.frontier.contains_key(p) ==> after.frontier.contains_key(p) && after.frontier[p]
                    == s.frontier[p]
            &&& requeued(after, after.cohort.dom(), regions, again_ms) == after.frontier
        }),
{
    let after = StoreV { frontier: requeued(s, s.cohort.dom(), regions, now_ms), ..s };
    assert forall|p: u32| !#[trigger] stranded(after, p, regions) by {
        lemma_home_frame(s, after, p, regions);
        if stranded(after, p, regions) {
            assert(stranded(s, p, regions));
        }
    }
    assert(requeued(after, after.cohort.dom(), regions, again_ms) =~= after.frontier);
}

} // verus!
