//! What the sample rows say after any crawl: whatever the order in which
//! matches were stored, and however often.

use crate::config::{enabled_from, Region, REMAKE_MAX_DURATION_S};
use crate::history::{
    earlier, games_of, history_ok, in_order, lemma_placed, lemma_placed_others, placed, Played,
};
use crate::progress::{
    bumped, credited, flagged, full, opening, row_ok, rows_ok, slotted, valid_games,
    HISTORY_REQUIRED, SLOTS,
};
use crate::store::{
    counted, credited_all, has_ids, id_above, ids_in, ids_ok, names_map, played_by_all, played_map,
    players_map, progress_rows, rows_of, slot_counts, valid_after, valid_of, with_ids,
    PlatformRows, StoreRows, StoreV,
};
use crate::store_laws::{
    ids_unique, law_counted_match_is_stored, law_flags_mean_full_histories, law_ids_are_kept,
    law_known_players_change_nothing, law_valid_samples_count_flags, lemma_ids_frame,
    lemma_sighted_frame,
};
use crate::tracking::{
    entry, has_entry, law_slots_count_earlier_games, lemma_new_games, slots_count, up_to_required,
};
use vstd::prelude::*;

verus! {

/// A match that is stored.
pub struct GameV {
    pub game_id: u64,
    pub ts_ms: u64,
    pub duration_s: u32,
    pub puuids: Seq<Seq<char>>,
    pub growth_paused: bool,
}

/// A match that is no remake.
pub open spec fn is_real(g: GameV) -> bool {
    g.duration_s >= REMAKE_MAX_DURATION_S
}

/// A match was stored and other work may have followed, which left histories
/// and samples alone and took no id from any player.
pub open spec fn stores(a: StoreV, b: StoreV, platform: Seq<char>, g: GameV) -> bool {
    let c = counted(
        a,
        platform,
        g.game_id,
        g.duration_s,
        g.puuids,
        g.ts_ms,
        g.growth_paused,
    );
    &&& ids_ok(b.players, b.names, b.next_player_id)
    &&& ids_unique(b.players)
    &&& forall|p: Seq<char>| #[trigger]
        c.players.contains_key(p) ==> b.players.contains_key(p) && b.players[p] == c.players[p]
    &&& b.played == c.played
    &&& rows_of(b, platform) == rows_of(c, platform)
    &&& valid_of(b, platform) == valid_of(c, platform)
}

/// Storing a match is such a step: players, histories and samples are as
/// counted, whatever becomes of segments, bitmaps and the queue.
pub proof fn law_storing_is_a_step(a: StoreV, b: StoreV, platform: Seq<char>, g: GameV)
    requires
        ids_ok(a.players, a.names, a.next_player_id),
        ids_unique(a.players),
        has_ids(a, g.puuids),
        ({
            let c = counted(
                a,
                platform,
                g.game_id,
                g.duration_s,
                g.puuids,
                g.ts_ms,
                g.growth_paused,
            );
            b == (StoreV {
                seen: b.seen,
                seen_unsaved: b.seen_unsaved,
                writers: b.writers,
                frontier: b.frontier,
                ..c
            })
        }),
    ensures
        stores(a, b, platform, g),
{
    let t = with_ids(a, g.puuids);
    law_ids_are_kept(a, g.puuids);
    lemma_ids_frame(a, g.puuids);
    lemma_sighted_frame(t, ids_in(t, g.puuids), g.ts_ms, g.growth_paused);
}

/// Matches of ten different players each. One that is stored again is stored
/// as it was, and no two begin at the same time.
pub open spec fn games_ok(games: Seq<GameV>) -> bool {
    &&& forall|k: int|
        0 <= k < games.len() ==> (#[trigger] games[k]).puuids.len() == SLOTS
            && games[k].puuids.no_duplicates()
    &&& forall|k: int, l: int|
        0 <= k < games.len() && 0 <= l < games.len() && (#[trigger] games[k]).game_id == (
        #[trigger] games[l]).game_id ==> games[k].ts_ms == games[l].ts_ms && games[k].puuids
            == games[l].puuids && games[k].duration_s == games[l].duration_s
    &&& forall|k: int, l: int|
        0 <= k < games.len() && 0 <= l < games.len() && (#[trigger] games[k]).ts_ms == (
        #[trigger] games[l]).ts_ms ==> games[k].game_id == games[l].game_id
}

/// A game is among those stored.
pub open spec fn is_stored_game(games: Seq<GameV>, game_id: u64) -> bool {
    exists|k: int| 0 <= k < games.len() && (#[trigger] games[k]).game_id == game_id
}

/// The stored games of a player from before a time.
pub open spec fn earlier_games(games: Seq<GameV>, puuid: Seq<char>, ts_ms: u64) -> Set<u64> {
    Set::new(
        |id: u64|
            exists|k: int|
                0 <= k < games.len() && (#[trigger] games[k]).game_id == id && is_real(games[k])
                    && games[k].puuids.contains(puuid) && games[k].ts_ms < ts_ms,
    )
}

/// The entry of a game for the player in a slot.
spec fn entry_for(g: GameV, x: int) -> Played {
    Played { ts_ms: g.ts_ms, game_id: g.game_id, slot: x as u8 }
}

/// A game of the list stands for this entry of a player.
spec fn stands_for(
    players: Map<Seq<char>, u32>,
    games: Seq<GameV>,
    p: u32,
    e: Played,
    k: int,
    x: int,
) -> bool {
    &&& 0 <= k < games.len()
    &&& 0 <= x < SLOTS
    &&& is_real(games[k])
    &&& players[games[k].puuids[x]] == p
    &&& e == entry_for(games[k], x)
}

/// An entry of a player is of a stored game.
spec fn is_played(
    players: Map<Seq<char>, u32>,
    games: Seq<GameV>,
    p: u32,
    e: Played,
) -> bool {
    exists|k: int, x: int| #[trigger] stands_for(players, games, p, e, k, x)
}

/// The state is that after these games.
spec fn follows(s: StoreV, games: Seq<GameV>, platform: Seq<char>) -> bool {
    let rows = rows_of(s, platform);
    &&& ids_ok(s.players, s.names, s.next_player_id)
    &&& ids_unique(s.players)
    &&& forall|k: int, x: int|
        0 <= k < games.len() && 0 <= x < SLOTS ==> s.players.contains_key(
            #[trigger] games[k].puuids[x],
        )
    &&& history_ok(s.played)
    &&& forall|p: u32, e: Played| #[trigger]
        games_of(s.played, p).contains(e) <==> is_played(s.players, games, p, e)
    &&& forall|g: u64| #[trigger] rows.contains_key(g) <==> is_stored_game(games, g)
    &&& rows.dom().finite()
    &&& rows.dom().len() <= games.len()
    &&& forall|k: int|
        0 <= k < games.len() ==> slotted(rows[(#[trigger] games[k]).game_id]) == is_real(games[k])
    &&& slots_count(s.played, rows, Set::full())
    &&& rows_ok(rows)
    &&& valid_of(s, platform) == valid_games(rows).len()
}

// ---- one more game ----

proof fn lemma_credited_slotted(rows: Map<u64, Seq<u8>>, games: Seq<Played>, i: int)
    ensures
        forall|g: u64| #[trigger]
            rows.contains_key(g) ==> credited(rows, games, i).contains_key(g) && slotted(
                credited(rows, games, i)[g],
            ) == slotted(rows[g]),
    decreases games.len() - i,
{
    if 0 <= i < games.len() {
        let g0 = games[i].game_id;
        let slot = games[i].slot as int;
        if !rows.contains_key(g0) || !slotted(rows[g0]) || slot >= SLOTS {
            lemma_credited_slotted(rows, games, i + 1);
        } else if rows[g0][slot] < HISTORY_REQUIRED {
            let next = rows.insert(g0, bumped(rows[g0], slot));
            lemma_credited_slotted(next, games, i + 1);
            assert forall|g: u64| #[trigger] rows.contains_key(g) implies credited(
                rows,
                games,
                i,
            ).contains_key(g) && slotted(credited(rows, games, i)[g]) == slotted(rows[g]) by {
                assert(next.contains_key(g));
            }
        }
    }
}

proof fn lemma_credited_all_slotted(
    rows: Map<u64, Seq<u8>>,
    played: Map<u32, Seq<Played>>,
    ids: Seq<u32>,
    ts_ms: u64,
)
    ensures
        forall|g: u64| #[trigger]
            rows.contains_key(g) ==> credited_all(rows, played, ids, ts_ms).contains_key(g)
                && slotted(credited_all(rows, played, ids, ts_ms)[g]) == slotted(rows[g]),
    decreases ids.len(),
{
    if ids.len() > 0 {
        let mid = credited_all(rows, played, ids.drop_last(), ts_ms);
        let games = games_of(played, ids.last());
        lemma_credited_all_slotted(rows, played, ids.drop_last(), ts_ms);
        lemma_credited_slotted(mid, games, earlier(games, ts_ms + 1) as int);
        assert forall|g: u64| #[trigger] rows.contains_key(g) implies credited_all(
            rows,
            played,
            ids,
            ts_ms,
        ).contains_key(g) && slotted(credited_all(rows, played, ids, ts_ms)[g]) == slotted(
            rows[g],
        ) by {
            assert(mid.contains_key(g));
        }
    }
}

/// What counting does to the rows and the histories.
proof fn lemma_counted_parts(a: StoreV, platform: Seq<char>, g: GameV)
    ensures
        ({
            let t = with_ids(a, g.puuids);
            let ids = ids_in(t, g.puuids);
            let c = counted(
                a,
                platform,
                g.game_id,
                g.duration_s,
                g.puuids,
                g.ts_ms,
                g.growth_paused,
            );
            let rows = rows_of(a, platform);
            &&& rows.contains_key(g.game_id) ==> c == t
            &&& !rows.contains_key(g.game_id) ==> c.played == (if is_real(g) {
                played_by_all(a.played, ids, g.ts_ms, g.game_id)
            } else {
                a.played
            })
            &&& !rows.contains_key(g.game_id) ==> slotted(rows_of(c, platform)[g.game_id])
                == is_real(g)
            &&& forall|h: u64| #[trigger]
                rows.contains_key(h) ==> slotted(rows_of(c, platform)[h]) == slotted(rows[h])
        }),
{
    let t = with_ids(a, g.puuids);
    let ids = ids_in(t, g.puuids);
    lemma_ids_frame(a, g.puuids);
    lemma_sighted_frame(t, ids, g.ts_ms, g.growth_paused);
    let rows = rows_of(t, platform);
    if !rows.contains_key(g.game_id) && is_real(g) {
        let opened = rows.insert(g.game_id, opening(slot_counts(t.played, ids, g.ts_ms)));
        let played = played_by_all(t.played, ids, g.ts_ms, g.game_id);
        lemma_credited_all_slotted(opened, played, ids, g.ts_ms);
        assert(opened.contains_key(g.game_id));
        assert forall|h: u64| #[trigger] rows.contains_key(h) implies slotted(
            credited_all(opened, played, ids, g.ts_ms)[h],
        ) == slotted(rows[h]) by {
            assert(opened.contains_key(h));
        }
    }
}

/// Entries of the games so far are those after more players have ids.
proof fn lemma_played_kept(
    a: Map<Seq<char>, u32>,
    b: Map<Seq<char>, u32>,
    games: Seq<GameV>,
    p: u32,
    e: Played,
)
    requires
        forall|k: int, x: int|
            0 <= k < games.len() && 0 <= x < SLOTS ==> a.contains_key(
                #[trigger] games[k].puuids[x],
            ) && b[games[k].puuids[x]] == a[games[k].puuids[x]],
    ensures
        is_played(a, games, p, e) == is_played(b, games, p, e),
{
    if is_played(a, games, p, e) {
        let (k, x) = choose|k: int, x: int| #[trigger] stands_for(a, games, p, e, k, x);
        assert(a.contains_key(games[k].puuids[x]));
        assert(stands_for(b, games, p, e, k, x));
    }
    if is_played(b, games, p, e) {
        let (k, x) = choose|k: int, x: int| #[trigger] stands_for(b, games, p, e, k, x);
        assert(a.contains_key(games[k].puuids[x]));
        assert(stands_for(a, games, p, e, k, x));
    }
}

/// With one more game the entries are those of before and its own.
proof fn lemma_played_push(
    players: Map<Seq<char>, u32>,
    games: Seq<GameV>,
    g: GameV,
    p: u32,
    e: Played,
)
    ensures
        is_played(players, games.push(g), p, e) <==> is_played(players, games, p, e) || (is_real(g)
            && exists|x: int|
            0 <= x < SLOTS && players[#[trigger] g.puuids[x]] == p && e == entry_for(g, x)),
{
    let all = games.push(g);
    if is_played(players, all, p, e) {
        let (k, x) = choose|k: int, x: int| #[trigger] stands_for(players, all, p, e, k, x);
        if k < games.len() {
            assert(all[k] == games[k]);
            assert(stands_for(players, games, p, e, k, x));
        } else {
            assert(players[g.puuids[x]] == p);
        }
    }
    if is_played(players, games, p, e) {
        let (k, x) = choose|k: int, x: int| #[trigger] stands_for(players, games, p, e, k, x);
        assert(all[k] == games[k]);
        assert(stands_for(players, all, p, e, k, x));
    }
    if is_real(g) && exists|x: int|
        0 <= x < SLOTS && players[#[trigger] g.puuids[x]] == p && e == entry_for(g, x) {
        let x = choose|x: int|
            0 <= x < SLOTS && players[#[trigger] g.puuids[x]] == p && e == entry_for(g, x);
        assert(stands_for(players, all, p, e, games.len() as int, x));
    }
}

/// The ids of different players are different.
proof fn lemma_ids_differ(t: StoreV, puuids: Seq<Seq<char>>)
    requires
        ids_unique(t.players),
        puuids.no_duplicates(),
        forall|i: int| 0 <= i < puuids.len() ==> t.players.contains_key(#[trigger] puuids[i]),
    ensures
        ids_in(t, puuids).no_duplicates(),
{
    let ids = ids_in(t, puuids);
    assert forall|i: int, j: int| 0 <= i < ids.len() && 0 <= j < ids.len() && i != j implies ids[i]
        != ids[j] by {
        assert(t.players.contains_key(puuids[i]) && t.players.contains_key(puuids[j]));
        assert(puuids[i] != puuids[j]);
    }
}

/// The histories after a new game.
proof fn lemma_new_entries(
    a: StoreV,
    t: StoreV,
    games: Seq<GameV>,
    platform: Seq<char>,
    g: GameV,
    p: u32,
    e: Played,
)
    requires
        follows(a, games, platform),
        games_ok(games.push(g)),
        !is_stored_game(games, g.game_id),
        is_real(g),
        ids_in(t, g.puuids).no_duplicates(),
        forall|k: int, x: int|
            0 <= k < games.len() && 0 <= x < SLOTS ==> a.players.contains_key(
                #[trigger] games[k].puuids[x],
            ) && t.players[games[k].puuids[x]] == a.players[games[k].puuids[x]],
    ensures
        ({
            let ids = ids_in(t, g.puuids);
            let played = played_by_all(a.played, ids, g.ts_ms, g.game_id);
            games_of(played, p).contains(e) <==> is_played(t.players, games.push(g), p, e)
        }),
{
    let all = games.push(g);
    let ids = ids_in(t, g.puuids);
    assert(all[games.len() as int] == g);
    let had = games_of(a.played, p);
    assert(in_order(had));
    lemma_new_games(a.played, ids, g.ts_ms, g.game_id, p);
    lemma_played_kept(a.players, t.players, games, p, e);
    lemma_played_push(t.players, games, g, p, e);
    assert(had.contains(e) <==> is_played(a.players, games, p, e));
    if ids.contains(p) {
        let x = ids.index_of(p);
        assert(ids[x] == p);
        let new = entry_for(g, x);
        lemma_placed(had, new);
        assert(t.players[g.puuids[x]] == p);
        assert forall|y: int| 0 <= y < SLOTS && t.players[#[trigger] g.puuids[y]] == p implies y
            == x by {
            assert(ids[y] == p);
        }
        if had.contains(e) {
            lemma_other_times(a, games, platform, g, p, e);
            lemma_placed_others(had, new, e);
        }
        if placed(had, new).contains(e) && e != new {
            assert(had.contains(e));
        }
    } else {
        if exists|x: int|
            0 <= x < SLOTS && t.players[#[trigger] g.puuids[x]] == p && e == entry_for(g, x) {
            let x = choose|x: int|
                0 <= x < SLOTS && t.players[#[trigger] g.puuids[x]] == p && e == entry_for(g, x);
            assert(ids[x] == p);
        }
    }
}

/// No earlier entry is of the time of a new game.
proof fn lemma_other_times(
    a: StoreV,
    games: Seq<GameV>,
    platform: Seq<char>,
    g: GameV,
    p: u32,
    e: Played,
)
    requires
        follows(a, games, platform),
        games_ok(games.push(g)),
        !is_stored_game(games, g.game_id),
        games_of(a.played, p).contains(e),
    ensures
        e.ts_ms != g.ts_ms,
{
    let all = games.push(g);
    assert(is_played(a.players, games, p, e));
    let (k, x) = choose|k: int, x: int| #[trigger] stands_for(a.players, games, p, e, k, x);
    assert(all[k] == games[k] && all[games.len() as int] == g);
    assert(games[k].game_id != g.game_id);
}

#[verifier::spinoff_prover]
#[verifier::rlimit(40)]
proof fn lemma_new_game(a: StoreV, c: StoreV, games: Seq<GameV>, platform: Seq<char>, g: GameV)
    requires
        follows(a, games, platform),
        games_ok(games.push(g)),
        !is_stored_game(games, g.game_id),
        has_ids(a, g.puuids),
        games.len() < u64::MAX,
        c == counted(
            a,
            platform,
            g.game_id,
            g.duration_s,
            g.puuids,
            g.ts_ms,
            g.growth_paused,
        ),
    ensures
        follows(c, games.push(g), platform),
{
    let all = games.push(g);
    let t = with_ids(a, g.puuids);
    let ids = ids_in(t, g.puuids);
    let rows = rows_of(a, platform);
    let after = rows_of(c, platform);
    assert(all[games.len() as int] == g);
    assert(g.puuids.len() == SLOTS);
    law_ids_are_kept(a, g.puuids);
    lemma_ids_frame(a, g.puuids);
    law_counted_match_is_stored(
        a,
        platform,
        g.game_id,
        g.duration_s,
        g.puuids,
        g.ts_ms,
        g.growth_paused,
    );
    lemma_counted_parts(a, platform, g);
    lemma_ids_differ(t, g.puuids);
    assert(!rows.contains_key(g.game_id));
    assert(t.players == c.players);
    // The slots.
    assert forall|i: int, j: int|
        0 <= i < ids.len() && has_entry(t.played, ids[i], j) implies (#[trigger] entry(
        t.played,
        ids[i],
        j,
    )).ts_ms != g.ts_ms by {
        let e = entry(t.played, ids[i], j);
        assert(games_of(a.played, ids[i]).contains(e));
        lemma_other_times(a, games, platform, g, ids[i], e);
    }
    law_slots_count_earlier_games(
        t,
        platform,
        g.game_id,
        g.duration_s,
        ids,
        g.ts_ms,
        g.growth_paused,
        Set::full(),
    );
    // The flags, and how many there are.
    law_flags_mean_full_histories(
        a,
        platform,
        g.game_id,
        g.duration_s,
        g.puuids,
        g.ts_ms,
        g.growth_paused,
    );
    law_valid_samples_count_flags(
        a,
        platform,
        g.game_id,
        g.duration_s,
        g.puuids,
        g.ts_ms,
        g.growth_paused,
    );
    // The players.
    assert forall|k: int, x: int| 0 <= k < all.len() && 0 <= x < SLOTS implies
        c.players.contains_key(#[trigger] all[k].puuids[x]) by {
        if k < games.len() {
            assert(all[k] == games[k]);
            assert(a.players.contains_key(games[k].puuids[x]));
        } else {
            assert(t.players.contains_key(g.puuids[x]));
        }
    }
    assert forall|k: int, x: int| 0 <= k < games.len() && 0 <= x < SLOTS implies
        a.players.contains_key(#[trigger] games[k].puuids[x]) && t.players[games[k].puuids[x]]
        == a.players[games[k].puuids[x]] by {
        assert(a.players.contains_key(games[k].puuids[x]));
    }
    assert forall|p: u32, e: Played| #[trigger]
        games_of(c.played, p).contains(e) <==> is_played(c.players, all, p, e) by {
        if is_real(g) {
            lemma_new_entries(a, t, games, platform, g, p, e);
        } else {
            lemma_played_kept(a.players, t.players, games, p, e);
            lemma_played_push(t.players, games, g, p, e);
            assert(games_of(a.played, p).contains(e) <==> is_played(a.players, games, p, e));
        }
    }
    // The rows.
    assert forall|h: u64| #[trigger] after.contains_key(h) <==> is_stored_game(all, h) by {
        assert(after.contains_key(h) <==> after.dom().contains(h));
        assert(rows.contains_key(h) <==> rows.dom().contains(h));
        if is_stored_game(games, h) {
            let k = choose|k: int| 0 <= k < games.len() && (#[trigger] games[k]).game_id == h;
            assert(all[k].game_id == h);
        }
        if is_stored_game(all, h) && h != g.game_id {
            let k = choose|k: int| 0 <= k < all.len() && (#[trigger] all[k]).game_id == h;
            assert(games[k].game_id == h);
        }
        if h == g.game_id {
            assert(all[games.len() as int].game_id == h);
        }
    }
    assert forall|k: int| 0 <= k < all.len() implies slotted(
        after[(#[trigger] all[k]).game_id],
    ) == is_real(all[k]) by {
        if k < games.len() {
            assert(all[k] == games[k]);
            assert(is_stored_game(games, games[k].game_id));
            assert(rows.contains_key(games[k].game_id));
        }
    }
}

proof fn lemma_again(a: StoreV, c: StoreV, games: Seq<GameV>, platform: Seq<char>, g: GameV)
    requires
        follows(a, games, platform),
        games_ok(games.push(g)),
        is_stored_game(games, g.game_id),
        c == counted(
            a,
            platform,
            g.game_id,
            g.duration_s,
            g.puuids,
            g.ts_ms,
            g.growth_paused,
        ),
    ensures
        follows(a, games.push(g), platform),
        c == a,
{
    let all = games.push(g);
    let rows = rows_of(a, platform);
    let was = choose|k: int| 0 <= k < games.len() && (#[trigger] games[k]).game_id == g.game_id;
    assert(all[was] == games[was] && all[games.len() as int] == g);
    assert(games[was].puuids == g.puuids);
    assert forall|i: int| 0 <= i < g.puuids.len() implies a.players.contains_key(
        #[trigger] g.puuids[i],
    ) by {
        assert(a.players.contains_key(games[was].puuids[i]));
    }
    law_known_players_change_nothing(a, g.puuids);
    assert(rows.contains_key(g.game_id));
    lemma_counted_parts(a, platform, g);
    assert forall|k: int, x: int| 0 <= k < all.len() && 0 <= x < SLOTS implies
        a.players.contains_key(#[trigger] all[k].puuids[x]) by {
        if k < games.len() {
            assert(a.players.contains_key(games[k].puuids[x]));
        }
    }
    assert forall|p: u32, e: Played| #[trigger]
        games_of(a.played, p).contains(e) <==> is_played(a.players, all, p, e) by {
        lemma_played_push(a.players, games, g, p, e);
        assert(games_of(a.played, p).contains(e) <==> is_played(a.players, games, p, e));
        if is_real(g) && exists|x: int|
            0 <= x < SLOTS && a.players[#[trigger] g.puuids[x]] == p && e == entry_for(g, x) {
            let x = choose|x: int|
                0 <= x < SLOTS && a.players[#[trigger] g.puuids[x]] == p && e == entry_for(g, x);
            assert(stands_for(a.players, games, p, e, was, x));
        }
    }
    assert forall|h: u64| #[trigger] rows.contains_key(h) <==> is_stored_game(all, h) by {
        if is_stored_game(games, h) {
            let k = choose|k: int| 0 <= k < games.len() && (#[trigger] games[k]).game_id == h;
            assert(all[k].game_id == h);
        }
        if is_stored_game(all, h) {
            let k = choose|k: int| 0 <= k < all.len() && (#[trigger] all[k]).game_id == h;
            if k < games.len() {
                assert(games[k].game_id == h);
            } else {
                assert(games[was].game_id == h);
            }
        }
    }
    assert forall|k: int| 0 <= k < all.len() implies slotted(rows[(#[trigger] all[k]).game_id])
        == is_real(all[k]) by {
        if k < games.len() {
            assert(all[k] == games[k]);
        } else {
            assert(slotted(rows[games[was].game_id]) == is_real(games[was]));
        }
    }
}

proof fn lemma_other_work(c: StoreV, b: StoreV, games: Seq<GameV>, platform: Seq<char>)
    requires
        follows(c, games, platform),
        ids_ok(b.players, b.names, b.next_player_id),
        ids_unique(b.players),
        forall|p: Seq<char>| #[trigger]
            c.players.contains_key(p) ==> b.players.contains_key(p) && b.players[p]
                == c.players[p],
        b.played == c.played,
        rows_of(b, platform) == rows_of(c, platform),
        valid_of(b, platform) == valid_of(c, platform),
    ensures
        follows(b, games, platform),
{
    assert forall|k: int, x: int| 0 <= k < games.len() && 0 <= x < SLOTS implies
        c.players.contains_key(#[trigger] games[k].puuids[x]) && b.players[games[k].puuids[x]]
        == c.players[games[k].puuids[x]] && b.players.contains_key(games[k].puuids[x]) by {
        assert(c.players.contains_key(games[k].puuids[x]));
    }
    assert forall|p: u32, e: Played| #[trigger]
        games_of(b.played, p).contains(e) <==> is_played(b.players, games, p, e) by {
        lemma_played_kept(c.players, b.players, games, p, e);
        assert(games_of(c.played, p).contains(e) <==> is_played(c.players, games, p, e));
    }
}

// ---- what the rows say ----

/// A row says what the stored games are: each slot counts the stored earlier
/// games of its player, up to what is required, and the game is flagged as a
/// valid sample exactly if all ten slots are full.
pub open spec fn row_is_right(row: Seq<u8>, games: Seq<GameV>, g: GameV) -> bool {
    &&& slotted(row)
    &&& forall|x: int|
        0 <= x < SLOTS ==> #[trigger] row[x] == up_to_required(
            earlier_games(games, g.puuids[x], g.ts_ms).len() as int,
        )
    &&& row[SLOTS as int] == (if full(row) {
        1u8
    } else {
        0u8
    })
}

proof fn lemma_slot_is_right(
    s: StoreV,
    games: Seq<GameV>,
    platform: Seq<char>,
    k: int,
    x: int,
)
    requires
        follows(s, games, platform),
        games_ok(games),
        0 <= k < games.len(),
        is_real(games[k]),
        0 <= x < SLOTS,
    ensures
        rows_of(s, platform)[games[k].game_id][x] == up_to_required(
            earlier_games(games, games[k].puuids[x], games[k].ts_ms).len() as int,
        ),
{
    let g = games[k];
    let puuid = g.puuids[x];
    let p = s.players[puuid];
    let e = entry_for(g, x);
    let own = games_of(s.played, p);
    assert(s.players.contains_key(games[k].puuids[x]));
    assert(stands_for(s.players, games, p, e, k, x));
    assert(own.contains(e));
    let j = choose|j: int| 0 <= j < own.len() && own[j] == e;
    assert(in_order(own));
    assert(has_entry(s.played, p, j) && entry(s.played, p, j) == e);
    let before = Seq::new(j as nat, |i: int| own[i].game_id);
    let want = earlier_games(games, puuid, g.ts_ms);
    assert(before.no_duplicates()) by {
        assert forall|i: int, l: int| 0 <= i < before.len() && 0 <= l < before.len() && i
            != l implies before[i] != before[l] by {
            assert(has_entry(s.played, p, i) && has_entry(s.played, p, l));
            if before[i] == before[l] {
                assert(entry(s.played, p, i).game_id == entry(s.played, p, l).game_id);
            }
        }
    }
    assert forall|id: u64| want.contains(id) <==> #[trigger] before.to_set().contains(id) by {
        if want.contains(id) {
            let q = choose|q: int|
                0 <= q < games.len() && (#[trigger] games[q]).game_id == id && is_real(games[q])
                    && games[q].puuids.contains(puuid) && games[q].ts_ms < g.ts_ms;
            let y = choose|y: int| 0 <= y < games[q].puuids.len() && games[q].puuids[y] == puuid;
            let f = entry_for(games[q], y);
            assert(games[q].puuids.len() == SLOTS);
            assert(stands_for(s.players, games, p, f, q, y));
            assert(own.contains(f));
            let i = choose|i: int| 0 <= i < own.len() && own[i] == f;
            if i >= j {
                assert(own[j].ts_ms <= own[i].ts_ms);
            }
            assert(before[i] == id);
        }
        if before.to_set().contains(id) {
            let i = choose|i: int| 0 <= i < before.len() && before[i] == id;
            let f = own[i];
            assert(own.contains(f));
            assert(is_played(s.players, games, p, f));
            let (q, y) = choose|q: int, y: int| #[trigger]
                stands_for(s.players, games, p, f, q, y);
            assert(games[q].puuids.len() == SLOTS);
            assert(s.players.contains_key(games[q].puuids[y]));
            assert(games[q].puuids[y] == puuid);
            assert(games[q].puuids.contains(puuid));
            assert(own[i].ts_ms < own[j].ts_ms);
            assert(games[q].game_id == id);
        }
    }
    assert(want =~= before.to_set());
    before.unique_seq_to_set();
}

/// Nothing was stored yet on a platform, nor counted for anybody.
pub open spec fn is_fresh(s: StoreV, platform: Seq<char>) -> bool {
    &&& ids_ok(s.players, s.names, s.next_player_id)
    &&& ids_unique(s.players)
    &&& rows_of(s, platform) == Map::<u64, Seq<u8>>::empty()
    &&& s.played == Map::<u32, Seq<Played>>::empty()
    &&& valid_of(s, platform) == 0
}

proof fn lemma_no_totals(
    valid: Map<Seq<char>, u64>,
    regions: Seq<Region>,
    rows: Seq<PlatformRows>,
    i: int,
)
    requires
        forall|p: Seq<char>| #[trigger] valid.contains_key(p) ==> valid[p] == 0,
        forall|j: int| 0 <= j < rows.len() ==> (#[trigger] rows[j]).valid is None,
    ensures
        forall|p: Seq<char>| #[trigger]
            valid_after(valid, regions, rows, i).contains_key(p) ==> valid_after(
                valid,
                regions,
                rows,
                i,
            )[p] == 0,
    decreases regions.len() - i,
{
    if 0 <= i < regions.len() {
        let next = valid.insert(regions[i].platform@, 0);
        lemma_no_totals(next, regions, rows, i + 1);
        assert(i < rows.len() ==> rows[i].valid is None);
        assert(valid_after(valid, regions, rows, i) == valid_after(next, regions, rows, i + 1));
    }
}

/// A store opened on empty tables is fresh, on every platform.
pub proof fn law_first_start_is_fresh(rows: StoreRows, s: StoreV, platform: Seq<char>)
    requires
        rows.players@.len() == 0,
        rows.played@.len() == 0,
        rows.progress@.len() == 0,
        forall|j: int| 0 <= j < rows.platforms@.len() ==> (#[trigger] rows.platforms@[j]).valid
            is None,
        s.players == players_map(rows.players@),
        s.names == names_map(rows.players@),
        s.next_player_id == id_above(rows.players@),
        s.valid == valid_after(Map::empty(), enabled_from(0), rows.platforms@, 0),
        s.played == played_map(rows.played@),
        rows_of(s, platform) == progress_rows(rows.progress@, platform),
    ensures
        is_fresh(s, platform),
{
    lemma_no_totals(Map::empty(), enabled_from(0), rows.platforms@, 0);
}

proof fn lemma_fresh(s: StoreV, platform: Seq<char>)
    requires
        is_fresh(s, platform),
    ensures
        follows(s, Seq::empty(), platform),
{
    let none = Seq::<GameV>::empty();
    let rows = rows_of(s, platform);
    assert forall|p: u32, e: Played| #[trigger]
        games_of(s.played, p).contains(e) <==> is_played(s.players, none, p, e) by {
        assert(games_of(s.played, p) =~= Seq::empty());
        if is_played(s.players, none, p, e) {
            let (k, x) = choose|k: int, x: int| #[trigger]
                stands_for(s.players, none, p, e, k, x);
        }
    }
    assert(rows.dom() =~= Set::empty());
    assert(valid_games(rows) =~= Set::empty());
}

proof fn lemma_crawl(
    states: Seq<StoreV>,
    games: Seq<GameV>,
    platform: Seq<char>,
    n: int,
)
    requires
        states.len() == games.len() + 1,
        is_fresh(states[0], platform),
        games_ok(games),
        forall|i: int|
            0 <= i < games.len() ==> has_ids(states[i], (#[trigger] games[i]).puuids),
        games.len() <= u64::MAX,
        forall|i: int|
            0 <= i < games.len() ==> stores(
                states[i],
                states[i + 1],
                platform,
                #[trigger] games[i],
            ),
        0 <= n <= games.len(),
    ensures
        follows(states[n], games.take(n), platform),
    decreases n,
{
    if n == 0 {
        lemma_fresh(states[0], platform);
        assert(games.take(0) =~= Seq::empty());
    } else {
        lemma_crawl(states, games, platform, n - 1);
        let a = states[n - 1];
        let b = states[n];
        let g = games[n - 1];
        let before = games.take(n - 1);
        assert(stores(a, states[n - 1 + 1], platform, g));
        assert(games.take(n) =~= before.push(g));
        assert(games_ok(games.take(n))) by {
            assert forall|k: int| 0 <= k < n implies #[trigger] games.take(n)[k] == games[k] by {}
        }
        let c = counted(
            a,
            platform,
            g.game_id,
            g.duration_s,
            g.puuids,
            g.ts_ms,
            g.growth_paused,
        );
        if is_stored_game(before, g.game_id) {
            lemma_again(a, c, before, platform, g);
        } else {
            lemma_new_game(a, c, before, platform, g);
        }
        lemma_other_work(c, b, games.take(n), platform);
    }
}

/// After any crawl of a platform, in whatever order its matches were stored,
/// however often, and whatever other work came between them: the row of every
/// match counts for each of its players the stored earlier games, up to what
/// is required; a match is flagged exactly if all ten slots are full; and the
/// number of valid samples is the number of flagged matches.
pub proof fn law_samples_after_any_crawl(
    states: Seq<StoreV>,
    games: Seq<GameV>,
    platform: Seq<char>,
)
    requires
        states.len() == games.len() + 1,
        is_fresh(states[0], platform),
        games_ok(games),
        forall|i: int|
            0 <= i < games.len() ==> has_ids(states[i], (#[trigger] games[i]).puuids),
        games.len() <= u64::MAX,
        forall|i: int|
            0 <= i < games.len() ==> stores(
                states[i],
                states[i + 1],
                platform,
                #[trigger] games[i],
            ),
    ensures
        ({
            let s = states.last();
            let rows = rows_of(s, platform);
            &&& forall|g: u64| #[trigger] rows.contains_key(g) <==> is_stored_game(games, g)
            &&& forall|k: int|
                0 <= k < games.len() && is_real(games[k]) ==> row_is_right(
                    rows[(#[trigger] games[k]).game_id],
                    games,
                    games[k],
                )
            &&& forall|k: int|
                0 <= k < games.len() && !is_real(games[k]) ==> !flagged(
                    rows[(#[trigger] games[k]).game_id],
                )
            &&& valid_of(s, platform) == valid_games(rows).len()
        }),
{
    let s = states.last();
    let rows = rows_of(s, platform);
    lemma_crawl(states, games, platform, games.len() as int);
    assert(games.take(games.len() as int) =~= games);
    assert forall|k: int| 0 <= k < games.len() && is_real(games[k]) implies row_is_right(
        rows[(#[trigger] games[k]).game_id],
        games,
        games[k],
    ) by {
        let row = rows[games[k].game_id];
        assert(is_stored_game(games, games[k].game_id));
        assert(rows.contains_key(games[k].game_id));
        assert(row_ok(row));
        assert forall|x: int| 0 <= x < SLOTS implies #[trigger] row[x] == up_to_required(
            earlier_games(games, games[k].puuids[x], games[k].ts_ms).len() as int,
        ) by {
            lemma_slot_is_right(s, games, platform, k, x);
        }
    }
}

} // verus!
