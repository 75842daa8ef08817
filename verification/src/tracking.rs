//! What the slot counts mean: each counts the stored earlier games of its
//! player.

use crate::config::REMAKE_MAX_DURATION_S;
use crate::history::{
    earlier, games_of, history_ok, in_order, lemma_earlier, lemma_placed, placed, Played,
};
use crate::progress::{bumped, credited, opening, slotted, HISTORY_REQUIRED, SLOTS};
use crate::store::{counted_for, credited_all, played_by_all, rows_of, slot_counts, StoreV};
use vstd::prelude::*;

verus! {

/// A count up to what is required.
pub open spec fn up_to_required(n: int) -> int {
    if n < HISTORY_REQUIRED {
        n
    } else {
        HISTORY_REQUIRED as int
    }
}

/// The `j`-th stored game of a player.
pub open spec fn entry(played: Map<u32, Seq<Played>>, p: u32, j: int) -> Played {
    games_of(played, p)[j]
}

pub open spec fn has_entry(played: Map<u32, Seq<Played>>, p: u32, j: int) -> bool {
    0 <= j < games_of(played, p).len()
}

/// A player has a stored game at a time.
spec fn played_at(played: Map<u32, Seq<Played>>, p: u32, ts_ms: u64) -> bool {
    exists|j: int| has_entry(played, p, j) && (#[trigger] entry(played, p, j)).ts_ms == ts_ms
}

/// All games of some players are on a platform, and each of them that has slot
/// counts counts, in the slot of the player, the games before it.
pub open spec fn slots_count(
    played: Map<u32, Seq<Played>>,
    rows: Map<u64, Seq<u8>>,
    home: Set<u32>,
) -> bool {
    &&& forall|p: u32, j: int|
        home.contains(p) && has_entry(played, p, j) ==> {
            let e = #[trigger] entry(played, p, j);
            &&& e.slot < SLOTS
            &&& rows.contains_key(e.game_id)
            &&& slotted(rows[e.game_id]) ==> rows[e.game_id][e.slot as int] == up_to_required(j)
        }
    &&& apart(played, home)
}

/// No two entries are of one game and slot, nor two of one player of one game.
pub open spec fn apart(played: Map<u32, Seq<Played>>, home: Set<u32>) -> bool {
    forall|p: u32, j: int, q: u32, k: int|
        home.contains(p) && home.contains(q) && has_entry(played, p, j) && has_entry(played, q, k)
            && (#[trigger] entry(played, p, j)).game_id == (#[trigger] entry(
            played,
            q,
            k,
        )).game_id && (p == q || entry(played, p, j).slot == entry(played, q, k).slot) ==> p == q
            && j == k
}

/// One player's walk: the games from the `i`-th on, which count one too few,
/// count right afterwards; no other slot changes.
proof fn lemma_walk(rows: Map<u64, Seq<u8>>, games: Seq<Played>, i: int)
    requires
        1 <= i,
        forall|j: int|
            i <= j < games.len() ==> {
                let e = #[trigger] games[j];
                &&& e.slot < SLOTS
                &&& rows.contains_key(e.game_id)
                &&& slotted(rows[e.game_id]) ==> rows[e.game_id][e.slot as int]
                    == up_to_required(j - 1)
            },
        forall|j: int, k: int|
            i <= j < k < games.len() ==> (#[trigger] games[j]).game_id != (
            #[trigger] games[k]).game_id,
    ensures
        ({
            let after = credited(rows, games, i);
            &&& after.dom() == rows.dom()
            &&& forall|g: u64| #[trigger]
                rows.contains_key(g) ==> slotted(after[g]) == slotted(rows[g])
            &&& forall|j: int|
                i <= j < games.len() ==> {
                    let e = #[trigger] games[j];
                    slotted(after[e.game_id]) ==> after[e.game_id][e.slot as int]
                        == up_to_required(j)
                }
            &&& forall|g: u64, x: int|
                rows.contains_key(g) && slotted(rows[g]) && 0 <= x < SLOTS && (forall|j: int|
                    i <= j < games.len() ==> (#[trigger] games[j]).game_id != g || games[j].slot
                        != x) ==> #[trigger] after[g][x] == rows[g][x]
        }),
    decreases games.len() - i,
{
    if i < games.len() {
        let e = games[i];
        let g0 = e.game_id;
        let slot = e.slot as int;
        if !slotted(rows[g0]) {
            lemma_walk(rows, games, i + 1);
            let after = credited(rows, games, i);
            assert forall|g: u64, x: int|
                rows.contains_key(g) && slotted(rows[g]) && 0 <= x < SLOTS && (forall|j: int|
                    i <= j < games.len() ==> (#[trigger] games[j]).game_id != g || games[j].slot
                        != x) implies #[trigger] after[g][x] == rows[g][x] by {}
        } else if rows[g0][slot] >= HISTORY_REQUIRED {
            assert(i - 1 >= HISTORY_REQUIRED);
        } else {
            let row = bumped(rows[g0], slot);
            let next = rows.insert(g0, row);
            assert(next.dom() =~= rows.dom());
            assert(slotted(row));
            assert forall|x: int| 0 <= x < SLOTS && x != slot implies #[trigger] row[x]
                == rows[g0][x] by {}
            assert(row[slot] == rows[g0][slot] + 1);
            assert forall|j: int| i + 1 <= j < games.len() implies ({
                let e = #[trigger] games[j];
                &&& e.slot < SLOTS
                &&& next.contains_key(e.game_id)
                &&& slotted(next[e.game_id]) ==> next[e.game_id][e.slot as int]
                    == up_to_required(j - 1)
            }) by {
                assert(games[i].game_id != games[j].game_id);
            }
            lemma_walk(next, games, i + 1);
            let after = credited(rows, games, i);
            assert(after == credited(next, games, i + 1));
            assert(after[g0][slot] == next[g0][slot]) by {
                assert forall|j: int| i + 1 <= j < games.len() implies (
                #[trigger] games[j]).game_id != g0 || games[j].slot != slot by {
                    assert(games[i].game_id != games[j].game_id);
                }
            }
            assert(up_to_required(i - 1) + 1 == up_to_required(i));
            assert forall|g: u64| #[trigger] rows.contains_key(g) implies slotted(after[g])
                == slotted(rows[g]) by {
                assert(next.contains_key(g));
            }
            assert forall|g: u64, x: int|
                rows.contains_key(g) && slotted(rows[g]) && 0 <= x < SLOTS && (forall|j: int|
                    i <= j < games.len() ==> (#[trigger] games[j]).game_id != g || games[j].slot
                        != x) implies #[trigger] after[g][x] == rows[g][x] by {
                assert(games[i].game_id != g || games[i].slot != x);
                assert(after[g][x] == next[g][x]);
            }
        }
    }
}

/// The state between: the players from the `m`-th on have their new game, but
/// their later games do not count it yet.
spec fn half_counted(
    played: Map<u32, Seq<Played>>,
    rows: Map<u64, Seq<u8>>,
    home: Set<u32>,
    ids: Seq<u32>,
    m: int,
    ts_ms: u64,
) -> bool {
    &&& forall|p: u32, j: int|
        home.contains(p) && has_entry(played, p, j) ==> {
            let e = #[trigger] entry(played, p, j);
            &&& e.slot < SLOTS
            &&& rows.contains_key(e.game_id)
            &&& slotted(rows[e.game_id]) ==> rows[e.game_id][e.slot as int] == up_to_required(
                if ids.skip(m).contains(p) && e.ts_ms > ts_ms {
                    j - 1
                } else {
                    j
                },
            )
        }
    &&& apart(played, home)
}

proof fn lemma_credit_steps(
    played: Map<u32, Seq<Played>>,
    rows: Map<u64, Seq<u8>>,
    home: Set<u32>,
    ids: Seq<u32>,
    m: int,
    ts_ms: u64,
)
    requires
        history_ok(played),
        0 <= m <= ids.len(),
        ids.no_duplicates(),
        forall|i: int| 0 <= i < ids.len() ==> home.contains(#[trigger] ids[i]),
        forall|i: int| 0 <= i < ids.len() ==> played_at(played, #[trigger] ids[i], ts_ms),
        half_counted(played, rows, home, ids, 0, ts_ms),
    ensures
        half_counted(played, credited_all(rows, played, ids.take(m), ts_ms), home, ids, m, ts_ms),
    decreases m,
{
    if m == 0 {
        assert(ids.take(0) =~= Seq::empty());
    } else {
        lemma_credit_steps(played, rows, home, ids, m - 1, ts_ms);
        let now = ids.take(m);
        let before = ids.take(m - 1);
        assert(now.drop_last() =~= before);
        let x = ids[m - 1];
        let r = credited_all(rows, played, before, ts_ms);
        let games = games_of(played, x);
        assert(home.contains(x));
        assert(in_order(games));
        lemma_earlier(games, ts_ms + 1);
        let from = earlier(games, ts_ms + 1) as int;
        assert(played_at(played, x, ts_ms));
        let at = choose|j: int|
            has_entry(played, x, j) && (#[trigger] entry(played, x, j)).ts_ms == ts_ms;
        assert(games[at].ts_ms == ts_ms);
        assert(from >= 1);
        assert(ids.skip(m - 1)[0] == x);
        assert(ids.skip(m - 1).contains(x));
        assert forall|j: int| from <= j < games.len() implies ({
            let e = #[trigger] games[j];
            &&& e.slot < SLOTS
            &&& r.contains_key(e.game_id)
            &&& slotted(r[e.game_id]) ==> r[e.game_id][e.slot as int] == up_to_required(j - 1)
        }) by {
            assert(has_entry(played, x, j));
            assert(entry(played, x, j) == games[j]);
        }
        assert forall|j: int, k: int| from <= j < k < games.len() implies (
        #[trigger] games[j]).game_id != (#[trigger] games[k]).game_id by {
            assert(has_entry(played, x, j) && has_entry(played, x, k));
            assert(entry(played, x, j) == games[j] && entry(played, x, k) == games[k]);
        }
        lemma_walk(r, games, from);
        let after = credited(r, games, from);
        assert(after == credited_all(rows, played, now, ts_ms));
        assert forall|p: u32, j: int| home.contains(p) && has_entry(played, p, j) implies ({
            let e = #[trigger] entry(played, p, j);
            &&& e.slot < SLOTS
            &&& after.contains_key(e.game_id)
            &&& slotted(after[e.game_id]) ==> after[e.game_id][e.slot as int] == up_to_required(
                if ids.skip(m).contains(p) && e.ts_ms > ts_ms {
                    j - 1
                } else {
                    j
                },
            )
        }) by {
            let e = entry(played, p, j);
            assert(r.contains_key(e.game_id));
            if p == x && j >= from {
                assert(games[j] == e);
                assert(e.ts_ms > ts_ms);
                assert(!ids.skip(m).contains(x)) by {
                    if ids.skip(m).contains(x) {
                        let k = choose|k: int|
                            0 <= k < ids.skip(m).len() && ids.skip(m)[k] == x;
                        assert(ids[m + k] == ids[m - 1]);
                    }
                }
            } else {
                assert forall|k: int| from <= k < games.len() implies (
                #[trigger] games[k]).game_id != e.game_id || games[k].slot != e.slot by {
                    assert(has_entry(played, x, k));
                    assert(entry(played, x, k) == games[k]);
                    assert(entry(played, p, j).game_id != entry(played, x, k).game_id || !(p == x
                        || entry(played, p, j).slot == entry(played, x, k).slot));
                }
                if slotted(r[e.game_id]) {
                    assert(after[e.game_id][e.slot as int] == r[e.game_id][e.slot as int]);
                }
                if p == x {
                    assert(games[j] == e);
                    assert(e.ts_ms < ts_ms + 1);
                } else {
                    assert(ids.skip(m).contains(p) == ids.skip(m - 1).contains(p)) by {
                        if ids.skip(m).contains(p) {
                            let k = choose|k: int|
                                0 <= k < ids.skip(m).len() && ids.skip(m)[k] == p;
                            assert(ids.skip(m - 1)[k + 1] == p);
                        }
                        if ids.skip(m - 1).contains(p) {
                            let left = ids.skip(m - 1);
                            let k = choose|k: int| 0 <= k < left.len() && left[k] == p;
                            assert(ids.skip(m)[k - 1] == p);
                        }
                    }
                }
            }
        }
    }
}

/// The games of the players after the new game: those of a player of the match
/// have it in its place, and nobody else's changed.
pub proof fn lemma_new_games(
    played: Map<u32, Seq<Played>>,
    ids: Seq<u32>,
    ts_ms: u64,
    game_id: u64,
    p: u32,
)
    requires
        ids.no_duplicates(),
        ids.len() <= SLOTS,
    ensures
        games_of(played_by_all(played, ids, ts_ms, game_id), p) == (if ids.contains(p) {
            placed(
                games_of(played, p),
                Played { ts_ms, game_id, slot: ids.index_of(p) as u8 },
            )
        } else {
            games_of(played, p)
        }),
    decreases ids.len(),
{
    if ids.len() > 0 {
        let rest = ids.drop_last();
        lemma_new_games(played, rest, ts_ms, game_id, p);
        assert(rest.no_duplicates());
        if p == ids.last() {
            assert(ids[ids.len() - 1] == p);
            assert(!rest.contains(p)) by {
                if rest.contains(p) {
                    let k = choose|k: int| 0 <= k < rest.len() && rest[k] == p;
                    assert(ids[k] == ids[ids.len() - 1]);
                }
            }
            assert(ids.index_of(p) == ids.len() - 1) by {
                let k = ids.index_of(p);
                assert(ids[k] == p);
            }
        } else {
            assert(rest.contains(p) == ids.contains(p)) by {
                if ids.contains(p) {
                    let k = choose|k: int| 0 <= k < ids.len() && ids[k] == p;
                    assert(rest[k] == p);
                }
                if rest.contains(p) {
                    let k = choose|k: int| 0 <= k < rest.len() && rest[k] == p;
                    assert(ids[k] == p);
                }
            }
            if rest.contains(p) {
                let k = rest.index_of(p);
                assert(rest[k] == p);
                assert(ids[k] == p);
                let l = ids.index_of(p);
                assert(ids[l] == p);
                assert(k == l);
            }
        }
    }
}

proof fn lemma_history_after(
    played: Map<u32, Seq<Played>>,
    ids: Seq<u32>,
    ts_ms: u64,
    game_id: u64,
)
    requires
        history_ok(played),
        ids.no_duplicates(),
        ids.len() <= SLOTS,
    ensures
        history_ok(played_by_all(played, ids, ts_ms, game_id)),
{
    let out = played_by_all(played, ids, ts_ms, game_id);
    assert forall|p: u32| #[trigger] out.contains_key(p) implies in_order(out[p]) by {
        lemma_new_games(played, ids, ts_ms, game_id, p);
        let had = games_of(played, p);
        assert(in_order(had));
        assert(games_of(out, p) == out[p]);
        if ids.contains(p) {
            let k = ids.index_of(p);
            assert(ids[k] == p);
            lemma_placed(had, Played { ts_ms, game_id, slot: k as u8 });
        }
    }
}

/// Storing a match keeps the meaning of the slot counts: for players whose
/// games are all on its platform, each slot counts, up to what is required,
/// the stored earlier games of its player. The match is a new one, its players
/// are different people, and none of them has another game at that very time.
pub proof fn law_slots_count_earlier_games(
    t: StoreV,
    platform: Seq<char>,
    game_id: u64,
    duration_s: u32,
    ids: Seq<u32>,
    ts_ms: u64,
    growth_paused: bool,
    home: Set<u32>,
)
    requires
        history_ok(t.played),
        slots_count(t.played, rows_of(t, platform), home),
        !rows_of(t, platform).contains_key(game_id),
        ids.no_duplicates(),
        ids.len() <= SLOTS,
        forall|i: int| 0 <= i < ids.len() ==> home.contains(#[trigger] ids[i]),
        forall|i: int, j: int|
            0 <= i < ids.len() && has_entry(t.played, ids[i], j) ==> (#[trigger] entry(
                t.played,
                ids[i],
                j,
            )).ts_ms != ts_ms,
    ensures
        ({
            let s = counted_for(t, platform, game_id, duration_s, ids, ts_ms, growth_paused);
            slots_count(s.played, rows_of(s, platform), home)
        }),
{
    let rows = rows_of(t, platform);
    let s = counted_for(t, platform, game_id, duration_s, ids, ts_ms, growth_paused);
    if duration_s < REMAKE_MAX_DURATION_S {
        assert(s.played == t.played);
        assert forall|p: u32, j: int| home.contains(p) && has_entry(s.played, p, j) implies ({
            let e = #[trigger] entry(s.played, p, j);
            &&& e.slot < SLOTS
            &&& rows_of(s, platform).contains_key(e.game_id)
            &&& slotted(rows_of(s, platform)[e.game_id]) ==> rows_of(
                s,
                platform,
            )[e.game_id][e.slot as int] == up_to_required(j)
        }) by {
            assert(entry(t.played, p, j) == entry(s.played, p, j));
        }
    } else {
        let counts = slot_counts(t.played, ids, ts_ms);
        let opened = rows.insert(game_id, opening(counts));
        let played = played_by_all(t.played, ids, ts_ms, game_id);
        lemma_history_after(t.played, ids, ts_ms, game_id);
        lemma_opened(t.played, rows, home, ids, ts_ms, game_id);
        assert forall|i: int| 0 <= i < ids.len() implies played_at(
            played,
            #[trigger] ids[i],
            ts_ms,
        ) by {
            lemma_new_games(t.played, ids, ts_ms, game_id, ids[i]);
            assert(ids.contains(ids[i]));
            let e = Played { ts_ms, game_id, slot: ids.index_of(ids[i]) as u8 };
            let had = games_of(t.played, ids[i]);
            assert(in_order(had));
            lemma_placed(had, e);
            let j = choose|j: int| 0 <= j < placed(had, e).len() && placed(had, e)[j] == e;
            assert(has_entry(played, ids[i], j) && entry(played, ids[i], j).ts_ms == ts_ms);
        }
        lemma_credit_steps(played, opened, home, ids, ids.len() as int, ts_ms);
        assert(ids.take(ids.len() as int) =~= ids);
        let after = credited_all(opened, played, ids, ts_ms);
        assert(rows_of(s, platform) == after);
        assert forall|p: u32, j: int| home.contains(p) && has_entry(played, p, j) implies ({
            let e = #[trigger] entry(played, p, j);
            &&& e.slot < SLOTS
            &&& after.contains_key(e.game_id)
            &&& slotted(after[e.game_id]) ==> after[e.game_id][e.slot as int] == up_to_required(j)
        }) by {
            let e = entry(played, p, j);
            assert(!ids.skip(ids.len() as int).contains(p));
        }
    }
}

/// The new game opens with the right counts.
proof fn lemma_opened(
    played: Map<u32, Seq<Played>>,
    rows: Map<u64, Seq<u8>>,
    home: Set<u32>,
    ids: Seq<u32>,
    ts_ms: u64,
    game_id: u64,
)
    requires
        history_ok(played),
        slots_count(played, rows, home),
        !rows.contains_key(game_id),
        ids.no_duplicates(),
        ids.len() <= SLOTS,
        forall|i: int| 0 <= i < ids.len() ==> home.contains(#[trigger] ids[i]),
        forall|i: int, j: int|
            0 <= i < ids.len() && has_entry(played, ids[i], j) ==> (#[trigger] entry(
                played,
                ids[i],
                j,
            )).ts_ms != ts_ms,
    ensures
        half_counted(
            played_by_all(played, ids, ts_ms, game_id),
            rows.insert(game_id, opening(slot_counts(played, ids, ts_ms))),
            home,
            ids,
            0,
            ts_ms,
        ),
{
    let after = played_by_all(played, ids, ts_ms, game_id);
    let counts = slot_counts(played, ids, ts_ms);
    let opened = rows.insert(game_id, opening(counts));
    assert(ids.skip(0) =~= ids);
    assert forall|p: u32, j: int| home.contains(p) && has_entry(after, p, j) implies ({
        let e = #[trigger] entry(after, p, j);
        &&& e.slot < SLOTS
        &&& opened.contains_key(e.game_id)
        &&& slotted(opened[e.game_id]) ==> opened[e.game_id][e.slot as int] == up_to_required(
            if ids.skip(0).contains(p) && e.ts_ms > ts_ms {
                j - 1
            } else {
                j
            },
        )
        &&& origin(played, ids, ts_ms, game_id, p, j)
    }) by {
        lemma_origin(played, ids, ts_ms, game_id, p, j);
        let e = entry(after, p, j);
        if ids.contains(p) && e.game_id == game_id && e.ts_ms == ts_ms {
            let i = ids.index_of(p);
            assert(ids[i] == p);
            assert(opening(counts)[i] == counts[i]);
            lemma_earlier(games_of(played, p), ts_ms as int);
        } else {
            let oj = old_place(played, ids, ts_ms, p, j);
            assert(entry(played, p, oj) == e);
            assert(rows.contains_key(e.game_id));
        }
    }
    assert forall|p: u32, j: int, q: u32, k: int|
        home.contains(p) && home.contains(q) && has_entry(after, p, j) && has_entry(after, q, k)
            && (#[trigger] entry(after, p, j)).game_id == (#[trigger] entry(after, q, k)).game_id
            && (p == q || entry(after, p, j).slot == entry(after, q, k).slot) implies p == q && j
        == k by {
        lemma_origin(played, ids, ts_ms, game_id, p, j);
        lemma_origin(played, ids, ts_ms, game_id, q, k);
        let e = entry(after, p, j);
        let f = entry(after, q, k);
        let oj = old_place(played, ids, ts_ms, p, j);
        let ok = old_place(played, ids, ts_ms, q, k);
        if is_new(played, ids, ts_ms, p, j) {
            if is_new(played, ids, ts_ms, q, k) {
                assert(ids[ids.index_of(p)] == p);
                assert(ids[ids.index_of(q)] == q);
            } else {
                assert(entry(played, q, ok) == f);
                assert(rows.contains_key(f.game_id));
            }
        } else {
            assert(entry(played, p, oj) == e);
            assert(rows.contains_key(e.game_id));
            if !is_new(played, ids, ts_ms, q, k) {
                assert(entry(played, q, ok) == f);
                assert(p == q && oj == ok);
            }
        }
    }
}

/// The `j`-th game of a player is the new one.
spec fn is_new(played: Map<u32, Seq<Played>>, ids: Seq<u32>, ts_ms: u64, p: u32, j: int) -> bool {
    ids.contains(p) && j == earlier(games_of(played, p), ts_ms as int)
}

/// Where the `j`-th game of a player stood before the new one.
spec fn old_place(played: Map<u32, Seq<Played>>, ids: Seq<u32>, ts_ms: u64, p: u32, j: int) -> int {
    if ids.contains(p) && j > earlier(games_of(played, p), ts_ms as int) {
        j - 1
    } else {
        j
    }
}

spec fn origin(
    played: Map<u32, Seq<Played>>,
    ids: Seq<u32>,
    ts_ms: u64,
    game_id: u64,
    p: u32,
    j: int,
) -> bool {
    let e = entry(played_by_all(played, ids, ts_ms, game_id), p, j);
    if is_new(played, ids, ts_ms, p, j) {
        e == Played { ts_ms, game_id, slot: ids.index_of(p) as u8 }
    } else {
        let oj = old_place(played, ids, ts_ms, p, j);
        &&& has_entry(played, p, oj)
        &&& entry(played, p, oj) == e
        &&& ids.contains(p) ==> (e.ts_ms > ts_ms <==> oj == j - 1)
        &&& ids.contains(p) ==> e.ts_ms != ts_ms
    }
}

proof fn lemma_origin(
    played: Map<u32, Seq<Played>>,
    ids: Seq<u32>,
    ts_ms: u64,
    game_id: u64,
    p: u32,
    j: int,
)
    requires
        history_ok(played),
        ids.no_duplicates(),
        ids.len() <= SLOTS,
        forall|i: int, j: int|
            0 <= i < ids.len() && has_entry(played, ids[i], j) ==> (#[trigger] entry(
                played,
                ids[i],
                j,
            )).ts_ms != ts_ms,
        has_entry(played_by_all(played, ids, ts_ms, game_id), p, j),
    ensures
        origin(played, ids, ts_ms, game_id, p, j),
{
    lemma_new_games(played, ids, ts_ms, game_id, p);
    if ids.contains(p) {
        let i = ids.index_of(p);
        assert(ids[i] == p);
        let had = games_of(played, p);
        assert(in_order(had));
        lemma_earlier(had, ts_ms as int);
        let k = earlier(had, ts_ms as int) as int;
        if k < had.len() {
            assert(has_entry(played, ids[i], k));
            assert(entry(played, ids[i], k).ts_ms != ts_ms);
        }
        if j < k {
            assert(had[j].ts_ms < ts_ms);
        } else if j > k {
            assert(had[j - 1].ts_ms >= ts_ms);
            assert(has_entry(played, ids[i], j - 1));
            assert(entry(played, ids[i], j - 1).ts_ms != ts_ms);
        }
    }
}

} // verus!
