//! What a stored match is worth: to its players, to the cohort, and as a
//! sample.

use crate::config::Region;
use crate::history::{games_of, history_ok, lemma_placed, Played};
use crate::progress::{flagged, valid_games};
use crate::samples::{
    earlier_games, games_ok, is_fresh, is_stored_game, law_samples_after_any_crawl, stores,
    GameV,
};
use crate::store::{
    adopted_by, bitmap_at, capped, counted, full_slots, has_ids, has_room, home_of, id_above,
    ids_in, meta_map, names_map, next_node_id, outside, players_map, queued_in, ready_games,
    rows_of, seen_after, sighted, stored_u32, stored_u64, stranded, with_id, with_ids, Member,
    PlatformRows, StoreV,
};
use crate::store_laws::law_remakes_earn_nothing;
use crate::tracking::lemma_new_games;
use crate::le::{le, le_value, lemma_le_bounds, lemma_le_roundtrip, lemma_le_value_bound};
use crate::seen::treemap_found;
use crate::table::rows_map;
use vstd::prelude::*;

verus! {

// ---- players ----

/// A player who is new gets the next id, under which they are found; one who is
/// known keeps theirs.
pub proof fn law_new_players_get_the_next_id(s: StoreV, puuid: Seq<char>, other: Seq<char>)
    requires
        s.next_player_id < u32::MAX,
    ensures
        s.players.contains_key(puuid) ==> with_id(s, puuid) == s,
        !s.players.contains_key(puuid) ==> {
            let t = with_id(s, puuid);
            &&& t.players.contains_key(puuid)
            &&& t.players[puuid] == s.next_player_id
            &&& t.names[s.next_player_id] == puuid
            &&& t.next_player_id == s.next_player_id + 1
            &&& other != puuid ==> t.players.contains_key(other) == s.players.contains_key(other)
            &&& other != puuid && s.players.contains_key(other) ==> t.players[other]
                == s.players[other]
        },
{
}

/// Whoever is seen in two stored matches joins the cohort with the second. While
/// growth is paused they are only counted, and members are not counted at all.
pub proof fn law_second_sighting_adopts(s: StoreV, player: u32, ts_ms: u64, other: u32)
    requires
        s.outsiders.contains_key(player) ==> s.outsiders[player] < u32::MAX,
    ensures
        s.cohort.contains_key(player) ==> sighted(s, player, ts_ms, false) == s && sighted(
            s,
            player,
            ts_ms,
            true,
        ) == s,
        !s.cohort.contains_key(player) && !s.outsiders.contains_key(player) ==> {
            let t = sighted(s, player, ts_ms, false);
            &&& !t.cohort.contains_key(player)
            &&& t.outsiders.contains_key(player)
            &&& t.outsiders[player] == 1
        },
        !s.cohort.contains_key(player) && s.outsiders.contains_key(player) && s.outsiders[player]
            >= 1 ==> {
            let t = sighted(s, player, ts_ms, false);
            &&& t.cohort.contains_key(player)
            &&& t.cohort[player] == (Member { joined_ms: ts_ms, source: 1 })
            &&& !t.outsiders.contains_key(player)
        },
        !s.cohort.contains_key(player) ==> {
            let t = sighted(s, player, ts_ms, true);
            &&& t.cohort == s.cohort
            &&& t.outsiders.contains_key(player)
            &&& s.outsiders.contains_key(player) ==> t.outsiders[player] == s.outsiders[player] + 1
            &&& !s.outsiders.contains_key(player) ==> t.outsiders[player] == 1
        },
        other != player ==> {
            let t = sighted(s, player, ts_ms, false);
            &&& t.cohort.contains_key(other) == s.cohort.contains_key(other)
            &&& t.outsiders.contains_key(other) == s.outsiders.contains_key(other)
        },
{
}

/// A game shorter than five minutes is a remake: nobody earns anything by it,
/// and nobody joins with it. Any other counts for each of its players.
pub proof fn law_five_minutes_make_a_game(
    s: StoreV,
    platform: Seq<char>,
    game_id: u64,
    duration_s: u32,
    puuids: Seq<Seq<char>>,
    ts_ms: u64,
    growth_paused: bool,
    i: int,
)
    requires
        !rows_of(s, platform).contains_key(game_id),
        history_ok(s.played),
        puuids.len() <= 10,
        0 <= i < puuids.len(),
        ids_in(with_ids(s, puuids), puuids).no_duplicates(),
        with_ids(s, puuids).played == s.played,
        with_ids(s, puuids).progress == s.progress,
    ensures
        ({
            let after = counted(s, platform, game_id, duration_s, puuids, ts_ms, growth_paused);
            let player = ids_in(with_ids(s, puuids), puuids)[i];
            &&& rows_of(after, platform).contains_key(game_id)
            &&& duration_s < 300 ==> after.played == s.played && after.cohort == s.cohort
                && after.outsiders == s.outsiders && adopted_by(
                s,
                platform,
                game_id,
                duration_s,
                puuids,
                ts_ms,
                growth_paused,
            ).len() == 0 && rows_of(after, platform)[game_id].len() == 0
            &&& duration_s >= 300 ==> games_of(after.played, player).contains(
                Played { ts_ms, game_id, slot: i as u8 },
            )
        }),
{
    let t = with_ids(s, puuids);
    let ids = ids_in(t, puuids);
    let player = ids[i];
    if duration_s < 300 {
        law_remakes_earn_nothing(
            s,
            platform,
            game_id,
            duration_s,
            puuids,
            ts_ms,
            growth_paused,
        );
    } else {
        crate::store_laws::law_counted_match_is_stored(
            s,
            platform,
            game_id,
            duration_s,
            puuids,
            ts_ms,
            growth_paused,
        );
        lemma_new_games(t.played, ids, ts_ms, game_id, player);
        assert(ids.contains(player));
        assert(ids[ids.index_of(player)] == player);
        assert(ids.index_of(player) == i);
        lemma_games_in_order(s, player);
        lemma_placed(games_of(s.played, player), Played { ts_ms, game_id, slot: i as u8 });
    }
}

proof fn lemma_games_in_order(s: StoreV, player: u32)
    requires
        history_ok(s.played),
    ensures
        crate::history::in_order(games_of(s.played, player)),
{
}

/// After any crawl of a platform, in whatever order its matches came: the row of
/// a game that lasted five minutes counts for each of its ten players the games
/// that were stored of theirs from before it, up to twenty. The game is a valid
/// sample exactly if all ten have twenty.
pub proof fn law_samples_have_twenty_earlier_games_each(
    states: Seq<StoreV>,
    games: Seq<GameV>,
    platform: Seq<char>,
    k: int,
    x: int,
)
    requires
        states.len() == games.len() + 1,
        is_fresh(states[0], platform),
        games_ok(games),
        forall|i: int|
            0 <= i < games.len() ==> has_ids(states[i], (#[trigger] games[i]).puuids),
        games.len() <= u64::MAX,
        forall|i: int|
            0 <= i < games.len() ==> stores(
                states[i],
                states[i + 1],
                platform,
                #[trigger] games[i],
            ),
        0 <= k < games.len(),
        0 <= x < 10,
    ensures
        ({
            let rows = rows_of(states.last(), platform);
            let g = games[k];
            let n = games_before(games, g.puuids[x], g.ts_ms).len();
            &&& rows.contains_key(g.game_id)
            &&& g.duration_s >= 300 ==> rows[g.game_id].len() == 11
            &&& g.duration_s >= 300 ==> rows[g.game_id][x] == (if n < 20 {
                n
            } else {
                20
            })
            &&& valid_games(rows).contains(g.game_id) <==> g.duration_s >= 300 && forall|y: int|
                0 <= y < 10 ==> games_before(games, #[trigger] g.puuids[y], g.ts_ms).len() >= 20
        }),
{
    law_samples_after_any_crawl(states, games, platform);
    let rows = rows_of(states.last(), platform);
    let g = games[k];
    assert(is_stored_game(games, g.game_id));
    assert(rows.contains_key(g.game_id));
    assert forall|p: Seq<char>| #[trigger] games_before(games, p, g.ts_ms) == earlier_games(
        games,
        p,
        g.ts_ms,
    ) by {
        assert(games_before(games, p, g.ts_ms) =~= earlier_games(games, p, g.ts_ms));
    }
    assert(games_before(games, g.puuids[x], g.ts_ms) == earlier_games(
        games,
        g.puuids[x],
        g.ts_ms,
    ));
    let row = rows[g.game_id];
    if g.duration_s >= 300 {
        assert(crate::samples::row_is_right(row, games, g));
        assert(row[x] == crate::tracking::up_to_required(
            earlier_games(games, g.puuids[x], g.ts_ms).len() as int,
        ));
        if forall|y: int|
            0 <= y < 10 ==> games_before(games, #[trigger] g.puuids[y], g.ts_ms).len() >= 20 {
            assert forall|y: int| 0 <= y < 10 implies #[trigger] row[y] >= 20 by {
                assert(games_before(games, g.puuids[y], g.ts_ms).len() >= 20);
            }
            assert(flagged(row));
        }
        if flagged(row) {
            assert forall|y: int| 0 <= y < 10 implies games_before(
                games,
                #[trigger] g.puuids[y],
                g.ts_ms,
            ).len() >= 20 by {
                assert(row[y] >= 20);
                assert(games_before(games, g.puuids[y], g.ts_ms) == earlier_games(
                    games,
                    g.puuids[y],
                    g.ts_ms,
                ));
            }
        }
    }
}

/// The games of a player, of five minutes and more, that were stored and began
/// before a time.
pub open spec fn games_before(games: Seq<GameV>, puuid: Seq<char>, ts_ms: u64) -> Set<u64> {
    Set::new(
        |id: u64|
            exists|k: int|
                0 <= k < games.len() && (#[trigger] games[k]).game_id == id && games[k].duration_s
                    >= 300 && games[k].puuids.contains(puuid) && games[k].ts_ms < ts_ms,
    )
}

// ---- where players are ----

/// A player's home is the first crawled platform that stored their latest game.
pub proof fn law_home_is_where_the_latest_game_was(
    s: StoreV,
    player: u32,
    regions: Seq<Region>,
    i: int,
)
    requires
        s.names.contains_key(player),
        games_of(s.played, player).len() > 0,
        0 <= i < regions.len(),
        s.progress.contains_key(regions[i].platform@),
        s.progress[regions[i].platform@].contains_key(games_of(s.played, player).last().game_id),
        forall|j: int|
            0 <= j < i ==> !rows_of(s, (#[trigger] regions[j]).platform@).contains_key(
                games_of(s.played, player).last().game_id,
            ),
    ensures
        home_of(s, player, regions) == Some(regions[i].platform@),
        stranded(s, player, regions) <==> s.cohort.contains_key(player)
            && !s.frontier.contains_key(player),
{
    lemma_platform(s, games_of(s.played, player).last().game_id, regions, i);
}

proof fn lemma_platform(s: StoreV, game_id: u64, regions: Seq<Region>, i: int)
    requires
        0 <= i < regions.len(),
        rows_of(s, regions[i].platform@).contains_key(game_id),
        forall|j: int|
            0 <= j < i ==> !rows_of(s, (#[trigger] regions[j]).platform@).contains_key(game_id),
    ensures
        crate::store::platform_of_game(s, game_id, regions) == Some(regions[i].platform@),
    decreases i,
{
    if i > 0 {
        assert(!rows_of(s, regions[0].platform@).contains_key(game_id));
        let rest = regions.skip(1);
        assert forall|j: int| 0 <= j < i - 1 implies !rows_of(
            s,
            (#[trigger] rest[j]).platform@,
        ).contains_key(game_id) by {
            assert(rest[j] == regions[j + 1]);
        }
        assert(rest[i - 1] == regions[i]);
        lemma_platform(s, game_id, rest, i - 1);
    }
}

// ---- small counts ----

/// Nodes are numbered from one on.
pub proof fn law_nodes_are_numbered_from_one(s: StoreV)
    ensures
        !s.meta.contains_key("next_node_id"@) ==> next_node_id(s) == 1,
        s.meta.contains_key("next_node_id"@) ==> next_node_id(s) == s.meta["next_node_id"@],
{
}

/// A slot is full from twenty games on.
pub proof fn law_twenty_games_fill_a_slot(row: Seq<u8>, k: int)
    requires
        0 <= k < row.len(),
    ensures
        row[k] >= 20 ==> full_slots(row, k + 1) == full_slots(row, k) + 1,
        row[k] < 20 ==> full_slots(row, k + 1) == full_slots(row, k),
        full_slots(row, 0) == 0,
{
}

// ---- starting up ----

/// A stored number is four or eight bytes, the lowest first; other bytes count as
/// zero.
pub proof fn law_stored_numbers(v: u32, w: u64, bytes: Seq<u8>)
    ensures
        stored_u32(le(v as int, 4)) == v,
        stored_u64(le(w as int, 8)) == w,
        bytes.len() != 4 ==> stored_u32(bytes) == 0,
        bytes.len() != 8 ==> stored_u64(bytes) == 0,
{
    lemma_le_bounds();
    lemma_le_roundtrip(v as int, 4);
    lemma_le_roundtrip(w as int, 8);
}

/// Stored players are known by name and by id, and the next id is above all of
/// theirs, from one on.
pub proof fn law_stored_players_are_known(rows: Seq<(String, u32)>, i: int)
    requires
        0 <= i < rows.len(),
        forall|a: int, b: int|
            0 <= a < b < rows.len() ==> (#[trigger] rows[a]).0@ != (#[trigger] rows[b]).0@
                && rows[a].1 != rows[b].1,
    ensures
        players_map(rows).contains_key(rows[i].0@),
        players_map(rows)[rows[i].0@] == rows[i].1,
        names_map(rows).contains_key(rows[i].1),
        names_map(rows)[rows[i].1] == rows[i].0@,
        id_above(rows) > rows[i].1,
        id_above(rows) >= 1,
        id_above(Seq::empty()) == 1,
    decreases rows.len(),
{
    let rest = rows.drop_last();
    if i < rest.len() {
        assert forall|a: int, b: int| 0 <= a < b < rest.len() implies (#[trigger] rest[a]).0@ != (
        #[trigger] rest[b]).0@ && rest[a].1 != rest[b].1 by {
            assert(rows[a].0@ != rows[b].0@);
        }
        law_stored_players_are_known(rest, i);
        assert(rest[i] == rows[i]);
        assert(rows[i].0@ != rows[rows.len() - 1].0@ && rows[i].1 != rows[rows.len() - 1].1);
    } else {
        lemma_id_above(rest);
    }
}

proof fn lemma_id_above(rows: Seq<(String, u32)>)
    ensures
        id_above(rows) >= 1,
    decreases rows.len(),
{
    if rows.len() > 0 {
        lemma_id_above(rows.drop_last());
    }
}

/// The last value stored under a name counts.
pub proof fn law_stored_cursors(rows: Seq<(String, Vec<u8>)>, name: String, bytes: Vec<u8>, n: Seq<
    char,
>)
    ensures
        meta_map(rows.push((name, bytes))).contains_key(name@),
        bytes@.len() == 4 ==> meta_map(rows.push((name, bytes)))[name@] == le_value(bytes@),
        n != name@ ==> meta_map(rows.push((name, bytes))).contains_key(n) == meta_map(
            rows,
        ).contains_key(n),
        n != name@ && meta_map(rows).contains_key(n) ==> meta_map(rows.push((name, bytes)))[n]
            == meta_map(rows)[n],
{
    assert(rows.push((name, bytes)).drop_last() =~= rows);
    if bytes@.len() == 4 {
        lemma_le_bounds();
        lemma_le_value_bound(bytes@);
    }
}

/// Every crawled region has the games of its own bitmap, and none without one.
pub proof fn law_bitmaps_are_loaded(
    seen: Map<Seq<char>, Set<u64>>,
    regions: Seq<Region>,
    rows: Seq<PlatformRows>,
    from: int,
    i: int,
)
    requires
        0 <= from <= i < regions.len(),
        forall|j: int|
            i < j < regions.len() ==> (#[trigger] regions[j]).platform@ != regions[i].platform@,
    ensures
        ({
            let after = seen_after(seen, regions, rows, from);
            let name = regions[i].platform@;
            &&& after.contains_key(name)
            &&& i >= rows.len() ==> after[name] == Set::<u64>::empty()
            &&& i < rows.len() && rows[i].bitmap is None ==> after[name] == Set::<u64>::empty()
            &&& i < rows.len() && rows[i].bitmap is Some && treemap_found(rows[i].bitmap->0@) is Some
                ==> after[name] == treemap_found(rows[i].bitmap->0@)->0
        }),
    decreases i - from,
{
    let games = match bitmap_at(rows, from) {
        Some(b) => treemap_found(b)->0,
        None => Set::empty(),
    };
    let next = seen.insert(regions[from].platform@, games);
    if from < i {
        law_bitmaps_are_loaded(next, regions, rows, from + 1, i);
    } else {
        lemma_later_regions(next, regions, rows, i + 1, regions[i].platform@);
    }
}

proof fn lemma_later_regions(
    seen: Map<Seq<char>, Set<u64>>,
    regions: Seq<Region>,
    rows: Seq<PlatformRows>,
    from: int,
    name: Seq<char>,
)
    requires
        0 <= from,
        seen.contains_key(name),
        forall|j: int| from <= j < regions.len() ==> (#[trigger] regions[j]).platform@ != name,
    ensures
        seen_after(seen, regions, rows, from).contains_key(name),
        seen_after(seen, regions, rows, from)[name] == seen[name],
    decreases regions.len() - from,
{
    if from < regions.len() {
        let games = match bitmap_at(rows, from) {
            Some(b) => treemap_found(b)->0,
            None => Set::empty(),
        };
        assert(regions[from].platform@ != name);
        lemma_later_regions(
            seen.insert(regions[from].platform@, games),
            regions,
            rows,
            from + 1,
            name,
        );
    }
}

// ---- figures ----

/// The figures of a store: who is queued where, and how many games have so many
/// full slots.
pub proof fn law_figures(
    s: StoreV,
    platform: Seq<char>,
    bucket: u8,
    player: u32,
    game_id: u64,
    k: int,
    n: nat,
)
    ensures
        queued_in(s, platform, bucket).contains(player) <==> s.frontier.contains_key(player)
            && s.frontier[player].platform == platform && s.frontier[player].bucket == bucket,
        ready_games(s, k).contains((platform, game_id)) <==> s.progress.contains_key(platform)
            && s.progress[platform].contains_key(game_id) && s.progress[platform][game_id].len()
            == 11 && full_slots(s.progress[platform][game_id], 10) == k,
        n <= u64::MAX ==> capped(n) == n,
        n > u64::MAX ==> capped(n) == u64::MAX,
{
}

/// Those who are not in the cohort yet are new, however often they are listed.
pub proof fn law_newcomers_are_outside(cohort: Map<u32, Member>, players: Seq<u32>, p: u32)
    ensures
        outside(cohort, players.push(p)) == (if cohort.contains_key(p) {
            outside(cohort, players)
        } else {
            outside(cohort, players).push(p)
        }),
        outside(cohort, Seq::empty()) == Seq::<u32>::empty(),
{
    assert(players.push(p).drop_last() =~= players);
}

/// Of two rows with one key the later counts.
pub proof fn law_later_rows_count(list: Seq<(u32, Member)>, key: u32, row: Member, other: u32)
    ensures
        rows_map(list.push((key, row))).contains_key(key),
        rows_map(list.push((key, row)))[key] == row,
        other != key ==> rows_map(list.push((key, row))).contains_key(other) == rows_map(
            list,
        ).contains_key(other),
        other != key && rows_map(list).contains_key(other) ==> rows_map(
            list.push((key, row)),
        )[other] == rows_map(list)[other],
        rows_map(Seq::<(u32, Member)>::empty()).dom() == Set::<u32>::empty(),
{
    assert(list.push((key, row)).drop_last() =~= list);
    assert(rows_map(Seq::<(u32, Member)>::empty()).dom() =~= Set::<u32>::empty());
}

/// There is room for a match if there are ids for its new players; one that was
/// counted before, or that is a remake, needs no more than that.
pub proof fn law_room_for_a_match(
    s: StoreV,
    platform: Seq<char>,
    game_id: u64,
    duration_s: u32,
    puuids: Seq<Seq<char>>,
    growth_paused: bool,
)
    ensures
        !has_ids(s, puuids) ==> !has_room(s, platform, game_id, duration_s, puuids, growth_paused),
        has_ids(s, puuids) && (rows_of(s, platform).contains_key(game_id) || duration_s < 300)
            ==> has_room(s, platform, game_id, duration_s, puuids, growth_paused),
        has_ids(s, Seq::empty()),
{
}

} // verus!
