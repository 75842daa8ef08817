//! The crawl state: the player dictionary, the cohort, stored games and how
//! complete their players' histories are, the frontier, and the open segments.
//!
//! Everything is held in memory. Each table knows which of its rows are to be
//! written out.

use crate::config::{
    enabled_from, enabled_regions, Region, ADOPTION_THRESHOLD, REMAKE_MAX_DURATION_S,
};
use crate::frontier::{
    backfilled, is_due, is_first_due, is_next_due, overdue, pushed, pushed_batch, resets, Frontier,
    FrontierTask, Queued, QueuedV, TaskV, BUCKET_PRIORITY,
};
use crate::history::{
    count_earlier, earlier, games_of, history_ok, placed, same_game, History, Played,
};
use crate::le::{get_u32, get_u64, le_value};
use crate::named::Named;
use crate::progress::{
    credited, flagged, is_full, lemma_valid_after, opening, slotted, valid_games, Progress,
    HISTORY_REQUIRED, SLOTS,
};
use crate::record::{record_bytes, MatchRecord, Participant, RecordV};
use crate::seen::{treemap_bytes, treemap_found, SeenGames};
use crate::segment_write::{
    is_block_of, row_bytes, CompressFailed, Flushed, SegmentWriter, WriterV, BLOCK_TARGET_BYTES,
};
use crate::sorted::{
    has_text, insert_by_name, just_names, lists, name_sorted, names, sorted_names, tallies, tally,
    tally_sorted,
};
use crate::table::{lemma_count, rows_map, same_row, Table};
use crate::text::{same_text, texts};
use vstd::hash_map::StringHashMap;
use vstd::prelude::*;

verus! {

/// Where a cohort member came from: an apex league.
pub const COHORT_SRC_APEX: u8 = 0;

/// Seen often enough in stored matches.
pub const COHORT_SRC_ADOPTED: u8 = 1;

/// The ladder.
pub const COHORT_SRC_LADDER: u8 = 2;

/// When and why a player joined the cohort.
#[derive(Clone, Copy, Debug, PartialEq, Eq, Structural)]
pub struct Member {
    pub joined_ms: u64,
    pub source: u8,
}

/// An enrolled node. The token itself is not kept, only its hash.
#[derive(Clone, Debug, PartialEq, Eq)]
pub struct NodeRec {
    pub name: String,
    pub token_sha256_hex: String,
    pub created_ms: u64,
}

/// A player's rank at some time.
#[derive(Clone, Debug, PartialEq, Eq)]
pub struct RankSnap {
    pub tier: String,
    pub division: String,
    pub lp: i32,
    pub wins: i32,
    pub losses: i32,
}

/// The open segment of a platform: its day, and what is buffered for it.
pub struct DayWriter {
    pub date: String,
    pub writer: SegmentWriter,
}

#[verifier::ext_equal]
pub struct DayV {
    pub date: Seq<char>,
    pub writer: WriterV,
}

impl View for DayWriter {
    type V = DayV;

    open spec fn view(&self) -> DayV {
        DayV { date: self.date@, writer: self.writer@ }
    }
}

/// The crawl state.
#[verifier::ext_equal]
pub struct StoreV {
    pub players: Map<Seq<char>, u32>,
    pub names: Map<u32, Seq<char>>,
    pub next_player_id: u32,
    pub cohort: Map<u32, Member>,
    pub outsiders: Map<u32, u32>,
    pub valid: Map<Seq<char>, u64>,
    pub progress: Map<Seq<char>, Map<u64, Seq<u8>>>,
    pub played: Map<u32, Seq<Played>>,
    pub frontier: Map<u32, QueuedV>,
    pub seen: Map<Seq<char>, Set<u64>>,
    pub seen_unsaved: bool,
    pub writers: Map<Seq<char>, DayV>,
    pub ranks: Seq<(u32, u64, RankSnap)>,
    pub meta: Map<Seq<char>, u32>,
    pub meta_unsaved: Seq<Seq<char>>,
    pub nodes: Map<u32, NodeRec>,
}

pub struct Store {
    players: StringHashMap<u32>,
    names: Table<u32, String>,
    next_player_id: u32,
    cohort: Table<u32, Member>,
    /// Times each player outside the cohort was seen in stored matches.
    outsiders: Table<u32, u32>,
    /// Valid samples by platform.
    valid: Named<u64>,
    progress: Named<Progress>,
    played: History,
    frontier: Frontier,
    seen: Named<SeenGames>,
    seen_unsaved: bool,
    writers: Named<DayWriter>,
    /// Rank snapshots that are to be written out.
    ranks: Vec<(u32, u64, RankSnap)>,
    meta: Named<u32>,
    meta_unsaved: Vec<String>,
    nodes: Table<u32, NodeRec>,
}

impl View for Store {
    type V = StoreV;

    closed spec fn view(&self) -> StoreV {
        StoreV {
            players: self.players@,
            names: self.names@.map_values(|s: String| s@),
            next_player_id: self.next_player_id,
            cohort: self.cohort@,
            outsiders: self.outsiders@,
            valid: self.valid@,
            progress: self.progress@.map_values(|p: Progress| p@),
            played: self.played@,
            frontier: self.frontier@,
            seen: self.seen@.map_values(|s: SeenGames| s@),
            seen_unsaved: self.seen_unsaved,
            writers: self.writers@.map_values(|w: DayWriter| w@),
            ranks: self.ranks@,
            meta: self.meta@,
            meta_unsaved: texts(self.meta_unsaved@),
            nodes: self.nodes@,
        }
    }
}

/// Ids and names belong together, and every id is below the next one.
pub open spec fn ids_ok(
    players: Map<Seq<char>, u32>,
    names: Map<u32, Seq<char>>,
    next_player_id: u32,
) -> bool {
    &&& forall|p: Seq<char>| #[trigger]
        players.contains_key(p) ==> players[p] < next_player_id && names.contains_key(players[p])
    &&& forall|id: u32| #[trigger]
        names.contains_key(id) ==> id < next_player_id && players.contains_key(names[id])
            && players[names[id]] == id
}

/// What the tables held when they were last written out.
#[verifier::ext_equal]
pub struct SavedV {
    pub names: Map<u32, Seq<char>>,
    pub cohort: Map<u32, Member>,
    pub outsiders: Map<u32, u32>,
    /// Of every platform there could be.
    pub progress: spec_fn(Seq<char>) -> Map<u64, Seq<u8>>,
    pub played: Map<u32, Seq<Played>>,
    pub frontier: Map<u32, QueuedV>,
    pub nodes: Map<u32, NodeRec>,
}

impl Store {
    pub closed spec fn wf(&self) -> bool {
        &&& self.names.wf()
        &&& self.cohort.wf()
        &&& self.outsiders.wf()
        &&& self.valid.wf()
        &&& self.progress.wf()
        &&& self.played.wf()
        &&& self.frontier.wf()
        &&& self.seen.wf()
        &&& self.writers.wf()
        &&& self.meta.wf()
        &&& self.nodes.wf()
        &&& forall|n: Seq<char>| #[trigger]
            self.progress@.contains_key(n) ==> self.progress@[n].wf()
        &&& ids_ok(self@.players, self@.names, self@.next_player_id)
    }

    pub closed spec fn saved(&self) -> SavedV {
        SavedV {
            names: self.names.saved().map_values(|s: String| s@),
            cohort: self.cohort.saved(),
            outsiders: self.outsiders.saved(),
            progress: |n: Seq<char>|
                if self.progress@.contains_key(n) {
                    self.progress@[n].saved()
                } else {
                    Map::empty()
                },
            played: self.played.saved(),
            frontier: self.frontier.saved(),
            nodes: self.nodes.saved(),
        }
    }

    /// In every valid store the ids given to players lie below the next one,
    /// with a name for each, and every player's games are in order.
    pub proof fn law_valid_store_has_valid_tables(&self)
        requires
            self.wf(),
        ensures
            ids_ok(self@.players, self@.names, self@.next_player_id),
            history_ok(self@.played),
    {
    }
}

// ---- players ----

/// The state with an id for a player: the one that they have, or the next.
pub open spec fn with_id(s: StoreV, puuid: Seq<char>) -> StoreV {
    if s.players.contains_key(puuid) {
        s
    } else {
        StoreV {
            players: s.players.insert(puuid, s.next_player_id),
            names: s.names.insert(s.next_player_id, puuid),
            next_player_id: (s.next_player_id + 1) as u32,
            ..s
        }
    }
}

/// The state with an id for each of the players, assigned in order.
pub open spec fn with_ids(s: StoreV, puuids: Seq<Seq<char>>) -> StoreV
    decreases puuids.len(),
{
    if puuids.len() == 0 {
        s
    } else {
        with_id(with_ids(s, puuids.drop_last()), puuids.last())
    }
}

/// The ids of players in a state that has them.
pub open spec fn ids_in(s: StoreV, puuids: Seq<Seq<char>>) -> Seq<u32> {
    puuids.map_values(|p: Seq<char>| s.players[p])
}

/// How many of the players have no id yet. One who is listed twice counts once.
pub open spec fn strangers(players: Map<Seq<char>, u32>, puuids: Seq<Seq<char>>) -> nat
    decreases puuids.len(),
{
    if puuids.len() == 0 {
        0
    } else {
        let rest = puuids.drop_last();
        let new = !players.contains_key(puuids.last()) && !rest.contains(puuids.last());
        strangers(players, rest) + (if new {
            1nat
        } else {
            0nat
        })
    }
}

/// There are ids for all of the players who have none.
pub open spec fn has_ids(s: StoreV, puuids: Seq<Seq<char>>) -> bool {
    s.next_player_id + strangers(s.players, puuids) <= u32::MAX
}

/// There are no more strangers among some of the players than among all.
pub proof fn lemma_strangers(players: Map<Seq<char>, u32>, puuids: Seq<Seq<char>>, k: int)
    requires
        0 <= k <= puuids.len(),
    ensures
        strangers(players, puuids.take(k)) <= strangers(players, puuids),
        strangers(players, puuids) <= puuids.len(),
    decreases puuids.len(),
{
    if k == puuids.len() {
        assert(puuids.take(k) =~= puuids);
    }
    if puuids.len() > 0 {
        let rest = puuids.drop_last();
        if k < puuids.len() {
            assert(rest.take(k) =~= puuids.take(k));
            lemma_strangers(players, rest, k);
        } else {
            lemma_strangers(players, rest, rest.len() as int);
        }
    }
}

pub proof fn lemma_with_ids(s: StoreV, puuids: Seq<Seq<char>>)
    requires
        ids_ok(s.players, s.names, s.next_player_id),
        has_ids(s, puuids),
    ensures
        ({
            let t = with_ids(s, puuids);
            &&& ids_ok(t.players, t.names, t.next_player_id)
            &&& t.next_player_id == s.next_player_id + strangers(s.players, puuids)
            &&& forall|p: Seq<char>| #[trigger]
                t.players.contains_key(p) <==> s.players.contains_key(p) || puuids.contains(p)
            &&& forall|id: u32| #[trigger]
                s.names.contains_key(id) ==> t.names.contains_key(id) && t.names[id] == s.names[id]
            &&& forall|p: Seq<char>| #[trigger]
                s.players.contains_key(p) ==> t.players.contains_key(p) && t.players[p]
                    == s.players[p]
            &&& forall|i: int|
                0 <= i < puuids.len() ==> t.players.contains_key(#[trigger] puuids[i])
            &&& t == (StoreV {
                players: t.players,
                names: t.names,
                next_player_id: t.next_player_id,
                ..s
            })
        }),
    decreases puuids.len(),
{
    if puuids.len() > 0 {
        let rest = puuids.drop_last();
        lemma_with_ids(s, rest);
        let m = with_ids(s, rest);
        let t = with_ids(s, puuids);
        assert forall|p: Seq<char>| puuids.contains(p) <==> rest.contains(p) || p
            == puuids.last() by {
            if rest.contains(p) {
                assert(puuids[rest.index_of(p)] == p);
            }
            if puuids.contains(p) && p != puuids.last() {
                assert(rest[puuids.index_of(p)] == p);
            }
            assert(puuids[puuids.len() - 1] == puuids.last());
        }
        assert forall|i: int| 0 <= i < puuids.len() implies t.players.contains_key(
            #[trigger] puuids[i],
        ) by {
            if i < rest.len() {
                assert(rest[i] == puuids[i]);
            }
        }
    }
}

/// A player's id is settled by the time that they are reached: later players
/// do not change it.
proof fn lemma_ids_settled(s: StoreV, puuids: Seq<Seq<char>>, k: int)
    requires
        0 <= k <= puuids.len(),
    ensures
        forall|p: Seq<char>| #[trigger]
            with_ids(s, puuids.take(k)).players.contains_key(p) ==> with_ids(
                s,
                puuids,
            ).players.contains_key(p) && with_ids(s, puuids).players[p] == with_ids(
                s,
                puuids.take(k),
            ).players[p],
    decreases puuids.len() - k,
{
    if k == puuids.len() {
        assert(puuids.take(k) =~= puuids);
    } else {
        lemma_ids_settled(s, puuids, k + 1);
        let next = puuids.take(k + 1);
        assert(next.drop_last() =~= puuids.take(k));
        let now = with_ids(s, puuids.take(k));
        assert(with_ids(s, next) == with_id(now, puuids[k]));
        assert forall|p: Seq<char>| #[trigger] now.players.contains_key(p) implies with_ids(
            s,
            puuids,
        ).players.contains_key(p) && with_ids(s, puuids).players[p] == now.players[p] by {
            assert(with_ids(s, next).players.contains_key(p));
        }
    }
}

impl Store {
    /// The id of a player, a new one if they have none yet.
    fn id_for(&mut self, puuid: &String) -> (res: u32)
        requires
            old(self).wf(),
            old(self)@.players.contains_key(puuid@) || old(self)@.next_player_id < u32::MAX,
        ensures
            final(self).wf(),
            final(self)@ == with_id(old(self)@, puuid@),
            final(self).saved() == old(self).saved(),
            final(self)@.players.contains_key(puuid@),
            res == final(self)@.players[puuid@],
    {
        let ghost was = *self;
        match self.players.get(puuid.as_str()) {
            Some(id) => *id,
            None => {
                let id: u32 = self.next_player_id;
                self.next_player_id = id + 1;
                self.players.insert(puuid.clone(), id);
                let _ = self.names.put(id, puuid.clone());
                proof {
                    assert(self@.names =~= was@.names.insert(id, puuid@));
                    assert(self@ =~= with_id(was@, puuid@));
                    assert(self.saved() =~= was.saved());
                    assert forall|i: u32| #[trigger] self@.names.contains_key(i) implies i
                        < self@.next_player_id && self@.players.contains_key(self@.names[i])
                        && self@.players[self@.names[i]] == i by {
                        if i != id {
                            assert(was@.names.contains_key(i));
                        }
                    }
                    assert forall|p: Seq<char>| #[trigger] self@.players.contains_key(
                        p,
                    ) implies self@.players[p] < self@.next_player_id
                        && self@.names.contains_key(self@.players[p]) by {
                        if p != puuid@ {
                            assert(was@.players.contains_key(p));
                        }
                    }
                }
                id
            },
        }
    }

    /// Assigns ids to players who have none, and gives the ids of all.
    pub fn assign_player_ids(&mut self, puuids: &[String]) -> (res: Vec<u32>)
        requires
            old(self).wf(),
            has_ids(old(self)@, texts(puuids@)),
        ensures
            final(self).wf(),
            final(self)@ == with_ids(old(self)@, texts(puuids@)),
            final(self).saved() == old(self).saved(),
            res@ == ids_in(final(self)@, texts(puuids@)),
    {
        let ghost start = self@;
        let ghost all = texts(puuids@);
        let mut out: Vec<u32> = Vec::new();
        let mut i: usize = 0;
        assert(all.take(0) =~= Seq::empty());
        while i < puuids.len()
            invariant
                self.wf(),
                self.saved() == old(self).saved(),
                start == old(self)@,
                ids_ok(start.players, start.names, start.next_player_id),
                has_ids(start, all),
                all == texts(puuids@),
                i <= puuids@.len(),
                self@ == with_ids(start, all.take(i as int)),
                out@ == ids_in(with_ids(start, all), all).take(i as int),
            decreases puuids@.len() - i,
        {
            proof {
                lemma_strangers(start.players, all, i as int);
                lemma_strangers(start.players, all, i + 1);
                lemma_with_ids(start, all.take(i as int));
                assert(all.take(i + 1).drop_last() =~= all.take(i as int));
                assert(all.take(i + 1).last() == puuids@[i as int]@);
                lemma_ids_settled(start, all, i + 1);
            }
            let id: u32 = self.id_for(&puuids[i]);
            out.push(id);
            assert(all[i as int] == puuids@[i as int]@);
            assert(with_ids(start, all.take(i + 1)).players.contains_key(all[i as int]));
            assert(out@ =~= ids_in(with_ids(start, all), all).take(i + 1));
            i = i + 1;
        }
        assert(all.take(i as int) =~= all);
        assert(out@ =~= ids_in(with_ids(start, all), all));
        out
    }
}

// ---- stored matches ----

/// How often a player outside the cohort was seen.
pub open spec fn sightings(s: StoreV, player: u32) -> int {
    if s.outsiders.contains_key(player) {
        s.outsiders[player] as int
    } else {
        0
    }
}

/// A sighting now makes the player a member of the cohort.
pub open spec fn crosses(s: StoreV, player: u32, growth_paused: bool) -> bool {
    !s.cohort.contains_key(player) && !growth_paused && sightings(s, player) + 1
        >= ADOPTION_THRESHOLD
}

/// The state after a player was seen in a stored match.
pub open spec fn sighted(s: StoreV, player: u32, ts_ms: u64, growth_paused: bool) -> StoreV {
    if s.cohort.contains_key(player) {
        s
    } else if crosses(s, player, growth_paused) {
        StoreV {
            outsiders: s.outsiders.remove(player),
            cohort: s.cohort.insert(
                player,
                Member { joined_ms: ts_ms, source: COHORT_SRC_ADOPTED },
            ),
            ..s
        }
    } else {
        StoreV { outsiders: s.outsiders.insert(player, (sightings(s, player) + 1) as u32), ..s }
    }
}

/// The state after all of the players were seen, in order.
pub open spec fn sighted_all(
    s: StoreV,
    players: Seq<u32>,
    ts_ms: u64,
    growth_paused: bool,
) -> StoreV
    decreases players.len(),
{
    if players.len() == 0 {
        s
    } else {
        sighted(
            sighted_all(s, players.drop_last(), ts_ms, growth_paused),
            players.last(),
            ts_ms,
            growth_paused,
        )
    }
}

/// Which of the players join the cohort when all of them are seen, by their
/// places.
pub open spec fn newcomers(
    s: StoreV,
    players: Seq<u32>,
    ts_ms: u64,
    growth_paused: bool,
) -> Seq<int>
    decreases players.len(),
{
    if players.len() == 0 {
        Seq::empty()
    } else {
        let rest = players.drop_last();
        let before = newcomers(s, rest, ts_ms, growth_paused);
        if crosses(sighted_all(s, rest, ts_ms, growth_paused), players.last(), growth_paused) {
            before.push(rest.len() as int)
        } else {
            before
        }
    }
}

/// Newcomers have places among the players.
pub proof fn lemma_newcomers(s: StoreV, players: Seq<u32>, ts_ms: u64, growth_paused: bool)
    ensures
        forall|j: int|
            0 <= j < newcomers(s, players, ts_ms, growth_paused).len() ==> 0 <= (
            #[trigger] newcomers(s, players, ts_ms, growth_paused)[j]) < players.len(),
    decreases players.len(),
{
    if players.len() > 0 {
        let rest = players.drop_last();
        lemma_newcomers(s, rest, ts_ms, growth_paused);
        let before = newcomers(s, rest, ts_ms, growth_paused);
        let all = newcomers(s, players, ts_ms, growth_paused);
        assert forall|j: int| 0 <= j < all.len() implies 0 <= (#[trigger] all[j]) < players.len() by {
            if j < before.len() {
                assert(all[j] == before[j]);
            }
        }
    }
}

/// The slot counts of a match at `ts_ms`: stored earlier games of each player,
/// up to what is required.
pub open spec fn slot_counts(played: Map<u32, Seq<Played>>, players: Seq<u32>, ts_ms: u64) -> Seq<
    u8,
> {
    Seq::new(
        SLOTS as nat,
        |i: int|
            if i < players.len() {
                let n = earlier(games_of(played, players[i]), ts_ms as int);
                if n < HISTORY_REQUIRED {
                    n as u8
                } else {
                    HISTORY_REQUIRED
                }
            } else {
                0u8
            },
    )
}

/// The games of every player after a match was stored for all of its players.
pub open spec fn played_by_all(
    played: Map<u32, Seq<Played>>,
    players: Seq<u32>,
    ts_ms: u64,
    game_id: u64,
) -> Map<u32, Seq<Played>>
    decreases players.len(),
{
    if players.len() == 0 {
        played
    } else {
        let rest = players.drop_last();
        let before = played_by_all(played, rest, ts_ms, game_id);
        let e = Played { ts_ms, game_id, slot: rest.len() as u8 };
        before.insert(players.last(), placed(games_of(before, players.last()), e))
    }
}

/// The rows of a platform after the later games of all of the players have one
/// more earlier game.
pub open spec fn credited_all(
    rows: Map<u64, Seq<u8>>,
    played: Map<u32, Seq<Played>>,
    players: Seq<u32>,
    ts_ms: u64,
) -> Map<u64, Seq<u8>>
    decreases players.len(),
{
    if players.len() == 0 {
        rows
    } else {
        let games = games_of(played, players.last());
        credited(
            credited_all(rows, played, players.drop_last(), ts_ms),
            games,
            earlier(games, ts_ms + 1) as int,
        )
    }
}

/// The rows of a platform.
pub open spec fn rows_of(s: StoreV, platform: Seq<char>) -> Map<u64, Seq<u8>> {
    if s.progress.contains_key(platform) {
        s.progress[platform]
    } else {
        Map::empty()
    }
}

/// The valid samples of a platform.
pub open spec fn valid_of(s: StoreV, platform: Seq<char>) -> int {
    if s.valid.contains_key(platform) {
        s.valid[platform] as int
    } else {
        0
    }
}

/// The derived state after a match was counted for the players with these
/// ids: unless it was counted before, a remake is marked as stored, and any
/// other match is credited to its players.
pub open spec fn counted_for(
    t: StoreV,
    platform: Seq<char>,
    game_id: u64,
    duration_s: u32,
    ids: Seq<u32>,
    ts_ms: u64,
    growth_paused: bool,
) -> StoreV {
    let rows = rows_of(t, platform);
    if rows.contains_key(game_id) {
        t
    } else if duration_s < REMAKE_MAX_DURATION_S {
        StoreV { progress: t.progress.insert(platform, rows.insert(game_id, Seq::empty())), ..t }
    } else {
        let u = sighted_all(t, ids, ts_ms, growth_paused);
        let opened = rows.insert(game_id, opening(slot_counts(t.played, ids, ts_ms)));
        let played = played_by_all(t.played, ids, ts_ms, game_id);
        let after = credited_all(opened, played, ids, ts_ms);
        let newly = valid_games(after).len() - valid_games(rows).len();
        StoreV {
            progress: t.progress.insert(platform, after),
            played,
            valid: if newly > 0 {
                t.valid.insert(platform, (valid_of(t, platform) + newly) as u64)
            } else {
                t.valid
            },
            ..u
        }
    }
}

/// The derived state after a match was counted. Its players have ids then.
pub open spec fn counted(
    s: StoreV,
    platform: Seq<char>,
    game_id: u64,
    duration_s: u32,
    puuids: Seq<Seq<char>>,
    ts_ms: u64,
    growth_paused: bool,
) -> StoreV {
    let t = with_ids(s, puuids);
    counted_for(t, platform, game_id, duration_s, ids_in(t, puuids), ts_ms, growth_paused)
}

/// Which players join the cohort when a match is counted, by their places.
pub open spec fn adopted_by(
    s: StoreV,
    platform: Seq<char>,
    game_id: u64,
    duration_s: u32,
    puuids: Seq<Seq<char>>,
    ts_ms: u64,
    growth_paused: bool,
) -> Seq<int> {
    let t = with_ids(s, puuids);
    if rows_of(t, platform).contains_key(game_id) || duration_s < REMAKE_MAX_DURATION_S {
        Seq::empty()
    } else {
        newcomers(t, ids_in(t, puuids), ts_ms, growth_paused)
    }
}

/// How often a player is listed.
pub open spec fn times(players: Seq<u32>, player: u32) -> nat
    decreases players.len(),
{
    if players.len() == 0 {
        0
    } else {
        times(players.drop_last(), player) + (if players.last() == player {
            1nat
        } else {
            0nat
        })
    }
}

/// One more sighting of each player can be counted. Those of the cohort are not
/// counted, and while growth is not paused a player who was seen often joins it.
pub open spec fn sightings_fit(s: StoreV, players: Seq<u32>, growth_paused: bool) -> bool {
    forall|i: int|
        0 <= i < players.len() ==> s.cohort.contains_key(#[trigger] players[i]) || sightings(
            s,
            players[i],
        ) + (if growth_paused {
            times(players.take(i), players[i])
        } else {
            0
        }) < u32::MAX
}

/// A match counts for its players: it was not counted before, and is no remake.
pub open spec fn counts_anew(
    s: StoreV,
    platform: Seq<char>,
    game_id: u64,
    duration_s: u32,
) -> bool {
    !rows_of(s, platform).contains_key(game_id) && duration_s >= REMAKE_MAX_DURATION_S
}

/// The counters have room for one more match: an id for each player who has
/// none, and, if it counts, a sighting for each player and a valid sample for
/// each stored game.
pub open spec fn has_room(
    s: StoreV,
    platform: Seq<char>,
    game_id: u64,
    duration_s: u32,
    puuids: Seq<Seq<char>>,
    growth_paused: bool,
) -> bool {
    let t = with_ids(s, puuids);
    &&& has_ids(s, puuids)
    &&& counts_anew(s, platform, game_id, duration_s) ==> {
        &&& sightings_fit(t, ids_in(t, puuids), growth_paused)
        &&& valid_of(s, platform) + rows_of(s, platform).dom().len() < u64::MAX
    }
}

/// How far the sightings of a player can rise.
proof fn lemma_sightings(
    s: StoreV,
    players: Seq<u32>,
    ts_ms: u64,
    growth_paused: bool,
    player: u32,
)
    requires
        sightings_fit(s, players, growth_paused),
    ensures
        ({
            let m = sighted_all(s, players, ts_ms, growth_paused);
            &&& s.cohort.contains_key(player) ==> m.cohort.contains_key(player)
            &&& !m.cohort.contains_key(player) ==> sightings(m, player) <= (if growth_paused {
                sightings(s, player) + times(players, player)
            } else if sightings(s, player) < ADOPTION_THRESHOLD {
                ADOPTION_THRESHOLD as int
            } else {
                sightings(s, player)
            })
        }),
    decreases players.len(),
{
    if players.len() > 0 {
        let rest = players.drop_last();
        lemma_fit_before(s, players, growth_paused, players.len() - 1);
        assert(players.take(players.len() - 1) =~= rest);
        lemma_sightings(s, rest, ts_ms, growth_paused, player);
        let m = sighted_all(s, rest, ts_ms, growth_paused);
        assert(players[players.len() - 1] == players.last());
        if player == players.last() && !m.cohort.contains_key(player) && !crosses(
            m,
            player,
            growth_paused,
        ) {
            assert(sightings(m, player) < u32::MAX);
        }
    }
}

/// What fits fits for the first of the players too.
proof fn lemma_fit_before(s: StoreV, players: Seq<u32>, growth_paused: bool, k: int)
    requires
        sightings_fit(s, players, growth_paused),
        0 <= k <= players.len(),
    ensures
        sightings_fit(s, players.take(k), growth_paused),
{
    let first = players.take(k);
    assert forall|i: int| 0 <= i < first.len() implies s.cohort.contains_key(#[trigger] first[i])
        || sightings(s, first[i]) + (if growth_paused {
        times(first.take(i), first[i])
    } else {
        0
    }) < u32::MAX by {
        assert(first[i] == players[i]);
        assert(first.take(i) =~= players.take(i));
    }
}

impl Store {
    /// Counts a sighting of a player, and says whether they join the cohort.
    fn sight(&mut self, player: u32, ts_ms: u64, growth_paused: bool) -> (res: bool)
        requires
            old(self).wf(),
            old(self)@.cohort.contains_key(player) || sightings(old(self)@, player) < u32::MAX,
        ensures
            final(self).wf(),
            final(self)@ == sighted(old(self)@, player, ts_ms, growth_paused),
            final(self).saved() == old(self).saved(),
            res == crosses(old(self)@, player, growth_paused),
    {
        let ghost was = *self;
        if self.cohort.contains(player) {
            return false;
        }
        let seen: u32 = match self.outsiders.get(player) {
            Some(n) => *n,
            None => 0,
        };
        let count: u32 = seen + 1;
        if !growth_paused && count >= ADOPTION_THRESHOLD {
            let _ = self.outsiders.take(player);
            let _ = self.cohort.put(
                player,
                Member { joined_ms: ts_ms, source: COHORT_SRC_ADOPTED },
            );
            assert(self@ =~= sighted(was@, player, ts_ms, growth_paused));
            assert(self.saved() =~= was.saved());
            true
        } else {
            let _ = self.outsiders.put(player, count);
            assert(self@ =~= sighted(was@, player, ts_ms, growth_paused));
            assert(self.saved() =~= was.saved());
            false
        }
    }

    /// Counts a sighting of each player, and gives those who join the cohort.
    fn sight_all(
        &mut self,
        ids: &Vec<u32>,
        puuids: &[String],
        ts_ms: u64,
        growth_paused: bool,
    ) -> (res: Vec<(u32, String)>)
        requires
            old(self).wf(),
            ids@.len() == puuids@.len(),
            sightings_fit(old(self)@, ids@, growth_paused),
        ensures
            final(self).wf(),
            final(self)@ == sighted_all(old(self)@, ids@, ts_ms, growth_paused),
            final(self).saved() == old(self).saved(),
            lists_places(res@, newcomers(old(self)@, ids@, ts_ms, growth_paused), ids@, puuids@),
    {
        let ghost start = self@;
        let mut out: Vec<(u32, String)> = Vec::new();
        let mut i: usize = 0;
        assert(ids@.take(0) =~= Seq::empty());
        while i < ids.len()
            invariant
                self.wf(),
                self.saved() == old(self).saved(),
                start == old(self)@,
                i <= ids@.len(),
                ids@.len() == puuids@.len(),
                sightings_fit(start, ids@, growth_paused),
                self@ == sighted_all(start, ids@.take(i as int), ts_ms, growth_paused),
                lists_places(
                    out@,
                    newcomers(start, ids@.take(i as int), ts_ms, growth_paused),
                    ids@,
                    puuids@,
                ),
            decreases ids@.len() - i,
        {
            let ghost done = ids@.take(i as int);
            let ghost next = ids@.take(i + 1);
            proof {
                assert(next.drop_last() =~= done);
                lemma_fit_before(start, ids@, growth_paused, i as int);
                lemma_sightings(start, done, ts_ms, growth_paused, ids@[i as int]);
            }
            let player: u32 = ids[i];
            if self.sight(player, ts_ms, growth_paused) {
                out.push((player, puuids[i].clone()));
            }
            i = i + 1;
        }
        assert(ids@.take(i as int) =~= ids@);
        out
    }

    fn counts(&self, ids: &Vec<u32>, ts_ms: u64) -> (res: Vec<u8>)
        requires
            self.wf(),
            ids@.len() <= SLOTS,
        ensures
            res@ == slot_counts(self@.played, ids@, ts_ms),
    {
        let mut out: Vec<u8> = Vec::new();
        let mut i: usize = 0;
        while i < SLOTS
            invariant
                self.wf(),
                i <= SLOTS,
                ids@.len() <= SLOTS,
                out@ == slot_counts(self@.played, ids@, ts_ms).take(i as int),
            decreases SLOTS - i,
        {
            let mut count: u8 = 0;
            if i < ids.len() {
                match self.played.get(ids[i]) {
                    Some(games) => {
                        let n: usize = count_earlier(games, ts_ms);
                        count = if n < HISTORY_REQUIRED as usize {
                            n as u8
                        } else {
                            HISTORY_REQUIRED
                        };
                    },
                    None => {},
                }
            }
            out.push(count);
            assert(out@ =~= slot_counts(self@.played, ids@, ts_ms).take(i + 1));
            i = i + 1;
        }
        assert(slot_counts(self@.played, ids@, ts_ms).take(SLOTS as int) =~= slot_counts(
            self@.played,
            ids@,
            ts_ms,
        ));
        out
    }

    /// Adds a match to the games of each of its players.
    fn play_all(&mut self, ids: &Vec<u32>, ts_ms: u64, game_id: u64)
        requires
            old(self).wf(),
            ids@.len() <= SLOTS,
        ensures
            final(self).wf(),
            final(self)@ == (StoreV {
                played: played_by_all(old(self)@.played, ids@, ts_ms, game_id),
                ..old(self)@
            }),
            final(self).saved() == old(self).saved(),
    {
        let ghost start = self@;
        let mut i: usize = 0;
        assert(ids@.take(0) =~= Seq::empty());
        while i < ids.len()
            invariant
                self.wf(),
                self.saved() == old(self).saved(),
                start == old(self)@,
                i <= ids@.len() <= SLOTS,
                self@ == (StoreV {
                    played: played_by_all(start.played, ids@.take(i as int), ts_ms, game_id),
                    ..start
                }),
            decreases ids@.len() - i,
        {
            let ghost was = *self;
            let player: u32 = ids[i];
            self.played.add(player, Played { ts_ms, game_id, slot: i as u8 });
            proof {
                assert(ids@.take(i + 1).drop_last() =~= ids@.take(i as int));
                assert(self.saved() =~= was.saved());
            }
            i = i + 1;
        }
        assert(ids@.take(i as int) =~= ids@);
    }

    /// Gives the later games of each player one more earlier game, and says
    /// how many games became valid samples.
    fn credit_all(&self, rows: &mut Progress, ids: &Vec<u32>, ts_ms: u64) -> (res: u64)
        requires
            self.wf(),
            old(rows).wf(),
            ts_ms < u64::MAX,
        ensures
            final(rows).wf(),
            final(rows)@ == credited_all(old(rows)@, self@.played, ids@, ts_ms),
            final(rows)@.dom() == old(rows)@.dom(),
            final(rows).saved() == old(rows).saved(),
            res + valid_games(old(rows)@).len() == valid_games(final(rows)@).len(),
    {
        let ghost start = rows@;
        let mut newly: u64 = 0;
        let mut i: usize = 0;
        assert(ids@.take(0) =~= Seq::empty());
        while i < ids.len()
            invariant
                self.wf(),
                rows.wf(),
                ts_ms < u64::MAX,
                start == old(rows)@,
                rows.saved() == old(rows).saved(),
                rows@.dom() == start.dom(),
                i <= ids@.len(),
                rows@ == credited_all(start, self@.played, ids@.take(i as int), ts_ms),
                newly + valid_games(start).len() == valid_games(rows@).len(),
            decreases ids@.len() - i,
        {
            proof {
                assert(ids@.take(i + 1).drop_last() =~= ids@.take(i as int));
            }
            let ghost was = rows@;
            match self.played.get(ids[i]) {
                Some(games) => {
                    let from: usize = count_earlier(games, ts_ms + 1);
                    let more: u64 = rows.credit(games, from);
                    let len: usize = rows.len();
                    proof {
                        rows.lemma_finite();
                        lemma_valid_bound(rows@);
                        assert(newly + more <= len);
                    }
                    newly = newly + more;
                },
                None => {
                    assert(games_of(self@.played, ids@[i as int]) =~= Seq::empty());
                    assert(credited(was, Seq::empty(), 0) == was);
                },
            }
            i = i + 1;
        }
        assert(ids@.take(i as int) =~= ids@);
        newly
    }
}

proof fn lemma_valid_bound(rows: Map<u64, Seq<u8>>)
    requires
        rows.dom().finite(),
    ensures
        valid_games(rows).len() <= rows.dom().len(),
{
    rows.dom().lemma_len_filter(|h: u64| flagged(rows[h]));
}

/// A list of players, by their places among the players of a match.
pub open spec fn lists_places(
    out: Seq<(u32, String)>,
    places: Seq<int>,
    ids: Seq<u32>,
    puuids: Seq<String>,
) -> bool {
    &&& out.len() == places.len()
    &&& forall|j: int|
        0 <= j < out.len() ==> (#[trigger] out[j]).0 == ids[places[j]] && out[j].1@
            == puuids[places[j]]@
}

/// The participants with the ids of their players filled in.
pub open spec fn identified(parts: Seq<Participant>, ids: Seq<u32>) -> Seq<Participant> {
    Seq::new(
        parts.len(),
        |i: int|
            if i < ids.len() {
                Participant { player_id: ids[i], ..parts[i] }
            } else {
                parts[i]
            },
    )
}

fn identify(rec: &mut MatchRecord, ids: &Vec<u32>)
    ensures
        final(rec).participants@ == identified(old(rec).participants@, ids@),
        *final(rec) == (MatchRecord { participants: final(rec).participants, ..*old(rec) }),
{
    let ghost parts = rec.participants@;
    let mut i: usize = 0;
    while i < rec.participants.len() && i < ids.len()
        invariant
            i <= parts.len(),
            i <= ids@.len(),
            parts == old(rec).participants@,
            rec.participants@.len() == parts.len(),
            forall|j: int|
                0 <= j < i ==> #[trigger] rec.participants@[j] == identified(parts, ids@)[j],
            forall|j: int| i <= j < parts.len() ==> #[trigger] rec.participants@[j] == parts[j],
            *rec == (MatchRecord { participants: rec.participants, ..*old(rec) }),
        decreases parts.len() - i,
    {
        rec.participants[i].player_id = ids[i];
        i = i + 1;
    }
    assert(rec.participants@ =~= identified(parts, ids@));
}

/// Where a player is listed before, if so.
fn first_listed(puuids: &[String], i: usize) -> (res: Option<usize>)
    requires
        i < puuids@.len(),
    ensures
        match res {
            Some(j) => j < i && puuids@[j as int]@ == puuids@[i as int]@,
            None => !texts(puuids@).take(i as int).contains(puuids@[i as int]@),
        },
{
    let ghost before = texts(puuids@).take(i as int);
    let mut j: usize = 0;
    while j < i
        invariant
            j <= i < puuids@.len(),
            before == texts(puuids@).take(i as int),
            forall|k: int| 0 <= k < j ==> #[trigger] before[k] != puuids@[i as int]@,
        decreases i - j,
    {
        assert(before[j as int] == puuids@[j as int]@);
        if same_text(puuids[j].as_str(), puuids[i].as_str()) {
            return Some(j);
        }
        j = j + 1;
    }
    None
}

/// How often the `i`-th player is listed before.
fn times_listed(ids: &Vec<u32>, i: usize) -> (res: usize)
    requires
        i < ids@.len(),
    ensures
        res == times(ids@.take(i as int), ids@[i as int]),
{
    let mut n: usize = 0;
    let mut j: usize = 0;
    assert(ids@.take(0) =~= Seq::empty());
    while j < i
        invariant
            n <= j <= i < ids@.len(),
            n == times(ids@.take(j as int), ids@[i as int]),
        decreases i - j,
    {
        assert(ids@.take(j + 1).drop_last() =~= ids@.take(j as int));
        if ids[j] == ids[i] {
            n = n + 1;
        }
        j = j + 1;
    }
    n
}

impl Store {
    /// The ids that the players would have, if there are enough.
    fn ids_for(&self, puuids: &[String]) -> (res: Option<Vec<u32>>)
        requires
            self.wf(),
        ensures
            match res {
                Some(ids) => has_ids(self@, texts(puuids@)) && ids@ == ids_in(
                    with_ids(self@, texts(puuids@)),
                    texts(puuids@),
                ),
                None => !has_ids(self@, texts(puuids@)),
            },
    {
        let ghost s = self@;
        let ghost all = texts(puuids@);
        let left: u32 = u32::MAX - self.next_player_id;
        let mut fresh: u32 = 0;
        let mut out: Vec<u32> = Vec::new();
        let mut i: usize = 0;
        assert(all.take(0) =~= Seq::empty());
        while i < puuids.len()
            invariant
                self.wf(),
                s == self@,
                all == texts(puuids@),
                left == u32::MAX - s.next_player_id,
                i <= puuids@.len(),
                out@.len() == i,
                fresh == strangers(s.players, all.take(i as int)),
                fresh <= left,
                forall|j: int|
                    0 <= j < i ==> #[trigger] out@[j] == with_ids(
                        s,
                        all.take(i as int),
                    ).players[all[j]],
            decreases puuids@.len() - i,
        {
            let ghost done = all.take(i as int);
            let ghost now = with_ids(s, done);
            let ghost name = all[i as int];
            proof {
                lemma_with_ids(s, done);
                assert(all.take(i + 1).drop_last() =~= done);
                assert(all.take(i + 1).last() == name);
                assert(name == puuids@[i as int]@);
                assert forall|j: int| 0 <= j < i implies done.contains(#[trigger] all[j]) by {
                    assert(done[j] == all[j]);
                }
            }
            let id: u32 = match self.players.get(puuids[i].as_str()) {
                Some(id) => *id,
                None => match first_listed(puuids, i) {
                    Some(j) => {
                        assert(done[j as int] == name);
                        out[j]
                    },
                    None => {
                        if fresh == left {
                            proof {
                                lemma_strangers(s.players, all, i + 1);
                            }
                            return None;
                        }
                        fresh = fresh + 1;
                        self.next_player_id + (fresh - 1)
                    },
                },
            };
            out.push(id);
            i = i + 1;
        }
        assert(all.take(i as int) =~= all);
        assert(out@ =~= ids_in(with_ids(s, all), all));
        Some(out)
    }

    /// Whether there are ids for all of the players who have none.
    pub fn has_ids_for(&self, puuids: &[String]) -> (res: bool)
        requires
            self.wf(),
        ensures
            res == has_ids(self@, texts(puuids@)),
    {
        let left: u32 = u32::MAX - self.next_player_id;
        proof {
            lemma_strangers(self@.players, texts(puuids@), 0);
        }
        if puuids.len() as u64 <= left as u64 {
            return true;
        }
        self.ids_for(puuids).is_some()
    }

    /// Whether one more sighting of each player can be counted.
    fn fits(&self, ids: &Vec<u32>, growth_paused: bool) -> (res: bool)
        requires
            self.wf(),
        ensures
            res == sightings_fit(self@, ids@, growth_paused),
    {
        let mut i: usize = 0;
        while i < ids.len()
            invariant
                self.wf(),
                i <= ids@.len(),
                forall|j: int|
                    0 <= j < i ==> self@.cohort.contains_key(#[trigger] ids@[j]) || sightings(
                        self@,
                        ids@[j],
                    ) + (if growth_paused {
                        times(ids@.take(j), ids@[j])
                    } else {
                        0
                    }) < u32::MAX,
            decreases ids@.len() - i,
        {
            let id: u32 = ids[i];
            let seen: u32 = match self.outsiders.get(id) {
                Some(n) => *n,
                None => 0,
            };
            let more: usize = if growth_paused {
                times_listed(ids, i)
            } else {
                0
            };
            if !self.cohort.contains(id) && more as u64 >= (u32::MAX - seen) as u64 {
                assert(!(self@.cohort.contains_key(ids@[i as int]) || sightings(
                    self@,
                    ids@[i as int],
                ) + (if growth_paused {
                    times(ids@.take(i as int), ids@[i as int])
                } else {
                    0
                }) < u32::MAX));
                return false;
            }
            i = i + 1;
        }
        true
    }

    /// Whether the counters have room for one more match.
    pub fn room_for(
        &self,
        platform: &str,
        game_id: u64,
        duration_s: u32,
        puuids: &[String],
        growth_paused: bool,
    ) -> (res: bool)
        requires
            self.wf(),
        ensures
            res == has_room(
                self@,
                platform@,
                game_id,
                duration_s,
                texts(puuids@),
                growth_paused,
            ),
    {
        let ids = match self.ids_for(puuids) {
            Some(ids) => ids,
            None => {
                return false;
            },
        };
        let already = match self.progress.get(platform) {
            Some(rows) => rows.get(game_id).is_some(),
            None => false,
        };
        assert(already == rows_of(self@, platform@).contains_key(game_id));
        if already || duration_s < REMAKE_MAX_DURATION_S {
            return true;
        }
        let valid: u64 = match self.valid.get(platform) {
            Some(n) => *n,
            None => 0,
        };
        let rows: usize = match self.progress.get(platform) {
            Some(rows) => rows.len(),
            None => 0,
        };
        proof {
            let t = with_ids(self@, texts(puuids@));
            lemma_with_ids(self@, texts(puuids@));
            assert(sightings_fit(t, ids@, growth_paused) == sightings_fit(
                self@,
                ids@,
                growth_paused,
            )) by {
                assert(forall|p: u32| sightings(t, p) == #[trigger] sightings(self@, p));
            }
            assert(valid == valid_of(self@, platform@));
            if !self.progress@.contains_key(platform@) {
                assert(rows_of(self@, platform@).dom() =~= Set::empty());
            }
            assert(rows == rows_of(self@, platform@).dom().len());
        }
        if valid == u64::MAX || rows as u64 >= u64::MAX - valid {
            return false;
        }
        self.fits(&ids, growth_paused)
    }

    /// Counts a match for its players: credits their histories and the
    /// cohort, and tracks which samples are valid. Gives those who join the
    /// cohort.
    fn count_match(
        &mut self,
        platform: &str,
        game_id: u64,
        duration_s: u32,
        ids: &Vec<u32>,
        puuids: &[String],
        ts_ms: u64,
        growth_paused: bool,
    ) -> (res: Vec<(u32, String)>)
        requires
            old(self).wf(),
            ts_ms < u64::MAX,
            ids@.len() == puuids@.len(),
            ids@.len() <= SLOTS,
            counts_anew(old(self)@, platform@, game_id, duration_s) ==> sightings_fit(
                old(self)@,
                ids@,
                growth_paused,
            ) && valid_of(old(self)@, platform@) + rows_of(old(self)@, platform@).dom().len()
                < u64::MAX,
        ensures
            final(self).wf(),
            final(self)@ == counted_for(
                old(self)@,
                platform@,
                game_id,
                duration_s,
                ids@,
                ts_ms,
                growth_paused,
            ),
            final(self).saved() == old(self).saved(),
            lists_places(
                res@,
                if rows_of(old(self)@, platform@).contains_key(game_id) || duration_s
                    < REMAKE_MAX_DURATION_S {
                    Seq::empty()
                } else {
                    newcomers(old(self)@, ids@, ts_ms, growth_paused)
                },
                ids@,
                puuids@,
            ),
    {
        let ghost start = *self;
        let ghost rows0 = rows_of(start@, platform@);
        let already = match self.progress.get(platform) {
            Some(rows) => match rows.get(game_id) {
                Some(_) => true,
                None => false,
            },
            None => false,
        };
        assert(already == rows0.contains_key(game_id));
        if already {
            return Vec::new();
        }
        if duration_s < REMAKE_MAX_DURATION_S {
            let mut rows = match self.progress.take(platform) {
                Some(rows) => rows,
                None => Progress::new(),
            };
            rows.put(game_id, Vec::new());
            self.progress.put(platform.to_string(), rows);
            proof {
                assert(self@.progress =~= start@.progress.insert(
                    platform@,
                    rows0.insert(game_id, Seq::empty()),
                ));
                assert(self.saved().progress =~= start.saved().progress);
                assert(self.saved() =~= start.saved());
            }
            return Vec::new();
        }
        let mut row = self.counts(ids, ts_ms);
        let ghost counts = row@;
        let flag: u8 = if is_full(&row) {
            1
        } else {
            0
        };
        row.push(flag);
        assert(row@ =~= opening(counts));
        let ghost first = row@;
        let adopted = self.sight_all(ids, puuids, ts_ms, growth_paused);
        proof {
            lemma_sighted_frame(start@, ids@, ts_ms, growth_paused);
        }
        self.play_all(ids, ts_ms, game_id);
        let ghost mid = *self;
        let mut rows = match self.progress.take(platform) {
            Some(rows) => rows,
            None => Progress::new(),
        };
        proof {
            assert(rows@ =~= rows0);
            rows.lemma_finite();
            lemma_valid_after(rows0, game_id, first);
            lemma_valid_bound(rows0);
        }
        rows.put(game_id, row);
        let ghost opened = rows@;
        let credit: u64 = self.credit_all(&mut rows, ids, ts_ms);
        let len: usize = rows.len();
        let ghost after = rows@;
        proof {
            rows.lemma_finite();
            lemma_valid_bound(after);
            assert(opened.dom() =~= rows0.dom().insert(game_id));
            assert(flagged(first) == (flag != 0));
            assert(credit + flag <= len);
        }
        let newly: u64 = credit + flag as u64;
        self.progress.put(platform.to_string(), rows);
        if newly > 0 {
            let had: u64 = match self.valid.get(platform) {
                Some(n) => *n,
                None => 0,
            };
            assert(had == valid_of(start@, platform@));
            self.valid.put(platform.to_string(), had + newly);
        }
        proof {
            assert(self@.progress =~= start@.progress.insert(platform@, after));
            assert(self@ =~= counted_for(
                start@,
                platform@,
                game_id,
                duration_s,
                ids@,
                ts_ms,
                growth_paused,
            ));
            assert(self.saved().progress =~= start.saved().progress);
            assert(self.saved() =~= start.saved());
        }
        adopted
    }
}

// ---- dedup ----

/// The games of a platform that were already fetched.
pub open spec fn seen_of(s: StoreV, platform: Seq<char>) -> Set<u64> {
    if s.seen.contains_key(platform) {
        s.seen[platform]
    } else {
        Set::empty()
    }
}

/// A game was added to those of a platform; the other platforms are as they
/// were.
pub open spec fn marks(a: StoreV, b: StoreV, platform: Seq<char>, game_id: u64) -> bool {
    &&& b.seen.dom() == a.seen.dom().insert(platform)
    &&& forall|n: Seq<char>|
        n != platform && a.seen.contains_key(n) ==> #[trigger] b.seen[n] == a.seen[n]
    &&& b.seen[platform] == seen_of(a, platform).insert(game_id)
}

impl Store {
    /// Whether a game was already fetched.
    pub fn is_seen(&self, platform: &str, game_id: u64) -> (res: bool)
        requires
            self.wf(),
        ensures
            res == seen_of(self@, platform@).contains(game_id),
    {
        match self.seen.get(platform) {
            Some(seen) => seen.contains(game_id),
            None => false,
        }
    }

    /// Notes that a game was fetched.
    pub fn mark_seen(&mut self, platform: &str, game_id: u64)
        requires
            old(self).wf(),
        ensures
            final(self).wf(),
            final(self).saved() == old(self).saved(),
            final(self)@ == (StoreV { seen: final(self)@.seen, seen_unsaved: true, ..old(self)@ }),
            marks(old(self)@, final(self)@, platform@, game_id),
    {
        let ghost was = *self;
        let mut seen = match self.seen.take(platform) {
            Some(seen) => seen,
            None => SeenGames::new(),
        };
        assert(seen@ == seen_of(was@, platform@));
        seen.insert(game_id);
        self.seen.put(platform.to_string(), seen);
        self.seen_unsaved = true;
        proof {
            assert(self@.seen.dom() =~= was@.seen.dom().insert(platform@));
            assert(self.saved() =~= was.saved());
        }
    }
}

// ---- match log ----

/// The open segment of a platform is of a day that is over, and holds records
/// that were not written yet.
#[derive(Clone, Copy, Debug, PartialEq, Eq, Structural)]
pub struct DayOver;

pub struct StoreMatchOutcome {
    /// Players who just joined the cohort, by id and puuid: their rank is to
    /// be looked up, and they are to be queued.
    pub adopted: Vec<(u32, String)>,
}

/// The open segment of a platform is of another day.
pub open spec fn rolls(s: StoreV, platform: Seq<char>, today: Seq<char>) -> bool {
    s.writers.contains_key(platform) && s.writers[platform].date != today
}

/// The segment of a platform for today: the open one, or a new one.
pub open spec fn segment_for(s: StoreV, platform: Seq<char>, today: Seq<char>) -> DayV {
    if s.writers.contains_key(platform) && s.writers[platform].date == today {
        s.writers[platform]
    } else {
        DayV { date: today, writer: WriterV { buf: Seq::empty(), pending: Seq::empty() } }
    }
}

/// A segment with one more record.
pub open spec fn logged(day: DayV, rec: RecordV) -> DayV {
    DayV {
        date: day.date,
        writer: WriterV {
            buf: day.writer.buf + row_bytes(record_bytes(rec)),
            pending: day.writer.pending.push((rec.game_id, day.writer.buf.len() as u32)),
        },
    }
}

/// The open segment of a platform is of another day, and what is buffered for
/// it is to be written before the next record comes.
pub open spec fn unwritten(s: StoreV, platform: Seq<char>, today: Seq<char>) -> bool {
    rolls(s, platform, today) && s.writers[platform].writer.pending.len() > 0
}

impl Store {
    /// Whether the open segment of a platform is of another day than today.
    pub fn needs_roll(&self, platform: &str, today: &str) -> (res: bool)
        requires
            self.wf(),
        ensures
            res == rolls(self@, platform@, today@),
    {
        match self.writers.get(platform) {
            Some(day) => !same_text(day.date.as_str(), today),
            None => false,
        }
    }

    /// Stores a match: fills in the ids of its players, counts it for them,
    /// and appends it to the segment of its platform. A match that was counted
    /// before is only appended: a record twice is better than none.
    ///
    /// The first match of a day is not taken while records of an earlier day
    /// are buffered: they are to be written first, after a checkpoint, so that
    /// a segment never refers to ids that could be lost. They stay buffered
    /// until `segment_written` says that they are on disk.
    ///
    /// While growth is paused sightings are counted, but nobody joins the
    /// cohort.
    pub fn store_match(
        &mut self,
        rec: &mut MatchRecord,
        puuids: &[String],
        ts_ms: u64,
        growth_paused: bool,
        today: &str,
    ) -> (res: Result<StoreMatchOutcome, DayOver>)
        requires
            old(self).wf(),
            puuids@.len() <= SLOTS,
            ts_ms < u64::MAX,
            has_room(
                old(self)@,
                old(rec).platform@,
                old(rec).game_id,
                old(rec).duration_s,
                texts(puuids@),
                growth_paused,
            ),
        ensures
            final(self).wf(),
            final(self).saved() == old(self).saved(),
            res is Err <==> unwritten(old(self)@, old(rec).platform@, today@),
            res is Err ==> *final(rec) == *old(rec) && final(self)@ == old(self)@,
            res is Ok ==> final(rec).participants@ == identified(
                old(rec).participants@,
                ids_in(with_ids(old(self)@, texts(puuids@)), texts(puuids@)),
            ) && *final(rec) == (MatchRecord {
                participants: final(rec).participants,
                ..*old(rec)
            }),
            ({
                let platform = old(rec).platform@;
                let names = texts(puuids@);
                let s = counted(
                    old(self)@,
                    platform,
                    old(rec).game_id,
                    old(rec).duration_s,
                    names,
                    ts_ms,
                    growth_paused,
                );
                match res {
                    Err(_) => true,
                    Ok(out) => {
                        &&& final(self)@ == (StoreV {
                            seen: final(self)@.seen,
                            seen_unsaved: true,
                            writers: old(self)@.writers.insert(
                                platform,
                                logged(segment_for(old(self)@, platform, today@), final(rec)@),
                            ),
                            ..s
                        })
                        &&& marks(s, final(self)@, platform, old(rec).game_id)
                        &&& lists_places(
                            out.adopted@,
                            adopted_by(
                                old(self)@,
                                platform,
                                old(rec).game_id,
                                old(rec).duration_s,
                                names,
                                ts_ms,
                                growth_paused,
                            ),
                            ids_in(with_ids(old(self)@, names), names),
                            puuids@,
                        )
                    },
                }
            }),
    {
        let ghost start = self@;
        let ghost names = texts(puuids@);
        if self.needs_roll(rec.platform.as_str(), today) {
            if let Some(open) = self.writers.get(rec.platform.as_str()) {
                if !open.writer.is_empty() {
                    return Err(DayOver);
                }
            }
        }
        proof {
            lemma_with_ids(start, names);
        }
        let ids = self.assign_player_ids(puuids);
        let ghost t = self@;
        identify(rec, &ids);
        let platform = rec.platform.clone();
        let game_id: u64 = rec.game_id;
        let adopted = self.count_match(
            platform.as_str(),
            game_id,
            rec.duration_s,
            &ids,
            puuids,
            ts_ms,
            growth_paused,
        );
        let ghost s = self@;
        let ghost c = *self;
        proof {
            lemma_counted_frame(t, platform@, game_id, rec.duration_s, ids@, ts_ms, growth_paused);
        }
        let mut day = DayWriter { date: today.to_string(), writer: SegmentWriter::new() };
        let over = self.needs_roll(platform.as_str(), today);
        if let Some(open) = self.writers.take(platform.as_str()) {
            if !over {
                day = open;
            }
        }
        assert(day@ == segment_for(start, platform@, today@));
        day.writer.append(rec);
        let ghost appended = day@;
        self.writers.put(platform.clone(), day);
        proof {
            assert(appended == logged(segment_for(start, platform@, today@), rec@));
            assert(self@.writers =~= s.writers.insert(platform@, appended));
            assert(self.saved() =~= c.saved());
        }
        self.mark_seen(platform.as_str(), game_id);
        Ok(StoreMatchOutcome { adopted })
    }
}

/// Counting a match leaves the players, the frontier, the bitmaps and the
/// segments alone.
proof fn lemma_counted_frame(
    t: StoreV,
    platform: Seq<char>,
    game_id: u64,
    duration_s: u32,
    ids: Seq<u32>,
    ts_ms: u64,
    growth_paused: bool,
)
    ensures
        ({
            let s = counted_for(t, platform, game_id, duration_s, ids, ts_ms, growth_paused);
            s == (StoreV {
                cohort: s.cohort,
                outsiders: s.outsiders,
                valid: s.valid,
                progress: s.progress,
                played: s.played,
                ..t
            })
        }),
{
    lemma_sighted_frame(t, ids, ts_ms, growth_paused);
}

proof fn lemma_sighted_frame(t: StoreV, ids: Seq<u32>, ts_ms: u64, growth_paused: bool)
    ensures
        ({
            let s = sighted_all(t, ids, ts_ms, growth_paused);
            s == (StoreV { cohort: s.cohort, outsiders: s.outsiders, ..t })
        }),
    decreases ids.len(),
{
    if ids.len() > 0 {
        lemma_sighted_frame(t, ids.drop_last(), ts_ms, growth_paused);
    }
}

// ---- cohort ----

/// The players who are not in the cohort, in order; one who is listed twice
/// comes twice.
pub open spec fn outside(cohort: Map<u32, Member>, players: Seq<u32>) -> Seq<u32>
    decreases players.len(),
{
    if players.len() == 0 {
        Seq::empty()
    } else {
        let before = outside(cohort, players.drop_last());
        if cohort.contains_key(players.last()) {
            before
        } else {
            before.push(players.last())
        }
    }
}

/// The state after players joined the cohort; those who are in it already stay
/// as they are.
pub open spec fn joined(s: StoreV, players: Set<u32>, member: Member) -> StoreV {
    StoreV {
        cohort: Map::new(
            |p: u32| s.cohort.contains_key(p) || players.contains(p),
            |p: u32|
                if s.cohort.contains_key(p) {
                    s.cohort[p]
                } else {
                    member
                },
        ),
        outsiders: s.outsiders.remove_keys(players.difference(s.cohort.dom())),
        ..s
    }
}

proof fn lemma_outside(cohort: Map<u32, Member>, players: Seq<u32>)
    ensures
        forall|p: u32| #[trigger]
            outside(cohort, players).contains(p) <==> players.contains(p) && !cohort.contains_key(
                p,
            ),
    decreases players.len(),
{
    if players.len() > 0 {
        let rest = players.drop_last();
        lemma_outside(cohort, rest);
        let out = outside(cohort, players);
        let before = outside(cohort, rest);
        assert forall|p: u32| #[trigger] out.contains(p) <==> players.contains(p)
            && !cohort.contains_key(p) by {
            if out.contains(p) {
                let i = choose|i: int| 0 <= i < out.len() && out[i] == p;
                if i < before.len() {
                    assert(before[i] == p);
                    assert(before.contains(p));
                    let j = choose|j: int| 0 <= j < rest.len() && rest[j] == p;
                    assert(players[j] == p);
                } else {
                    assert(players[players.len() - 1] == p);
                }
            }
            if players.contains(p) && !cohort.contains_key(p) {
                let j = choose|j: int| 0 <= j < players.len() && players[j] == p;
                if j < rest.len() {
                    assert(rest[j] == p);
                    assert(before.contains(p));
                    let i = choose|i: int| 0 <= i < before.len() && before[i] == p;
                    assert(out[i] == p);
                } else {
                    assert(out[before.len() as int] == p);
                }
            }
        }
    }
}

impl Store {
    pub fn is_cohort(&self, player_id: u32) -> (res: bool)
        requires
            self.wf(),
        ensures
            res == self@.cohort.contains_key(player_id),
    {
        self.cohort.contains(player_id)
    }

    /// How often a player outside the cohort was seen.
    pub fn outsider_count(&self, player_id: u32) -> (res: u32)
        requires
            self.wf(),
        ensures
            res == sightings(self@, player_id),
    {
        match self.outsiders.get(player_id) {
            Some(n) => *n,
            None => 0,
        }
    }

    /// Adds players to the cohort, and gives those who were not in it.
    pub fn cohort_add_batch(&mut self, players: &[u32], source: u8, now_ms: u64) -> (res: Vec<u32>)
        requires
            old(self).wf(),
        ensures
            final(self).wf(),
            final(self).saved() == old(self).saved(),
            final(self)@ == joined(
                old(self)@,
                players@.to_set(),
                Member { joined_ms: now_ms, source },
            ),
            res@ == outside(old(self)@.cohort, players@),
    {
        let ghost start = *self;
        let mut fresh: Vec<u32> = Vec::new();
        let mut i: usize = 0;
        assert(players@.take(0) =~= Seq::empty());
        while i < players.len()
            invariant
                self.wf(),
                *self == start,
                i <= players@.len(),
                fresh@ == outside(start@.cohort, players@.take(i as int)),
            decreases players@.len() - i,
        {
            assert(players@.take(i + 1).drop_last() =~= players@.take(i as int));
            if !self.cohort.contains(players[i]) {
                fresh.push(players[i]);
            }
            i = i + 1;
        }
        assert(players@.take(i as int) =~= players@);
        proof {
            lemma_outside(start@.cohort, players@);
        }
        let member = Member { joined_ms: now_ms, source };
        let mut k: usize = 0;
        proof {
            assert(fresh@.take(0).to_set() =~= Set::empty());
            assert(self@ =~= joined(start@, Set::empty(), member));
            assert forall|j: int| 0 <= j < fresh@.len() implies !start@.cohort.contains_key(
                #[trigger] fresh@[j],
            ) by {
                assert(fresh@.contains(fresh@[j]));
            }
        }
        while k < fresh.len()
            invariant
                self.wf(),
                self.saved() == start.saved(),
                k <= fresh@.len(),
                member == (Member { joined_ms: now_ms, source }),
                forall|j: int|
                    0 <= j < fresh@.len() ==> !start@.cohort.contains_key(#[trigger] fresh@[j]),
                self@ == joined(start@, fresh@.take(k as int).to_set(), member),
            decreases fresh@.len() - k,
        {
            let ghost was = *self;
            let p: u32 = fresh[k];
            let _ = self.cohort.put(p, member);
            let _ = self.outsiders.take(p);
            proof {
                let done = fresh@.take(k as int);
                let next = fresh@.take(k + 1);
                assert(next =~= done.push(p));
                assert(next.to_set() =~= done.to_set().insert(p)) by {
                    assert forall|x: u32| #[trigger] next.to_set().contains(x)
                        == done.to_set().insert(p).contains(x) by {
                        if next.to_set().contains(x) {
                            let j = choose|j: int| 0 <= j < next.len() && next[j] == x;
                            if j < k {
                                assert(done[j] == x);
                            }
                        }
                        if done.to_set().contains(x) {
                            let j = choose|j: int| 0 <= j < done.len() && done[j] == x;
                            assert(next[j] == x);
                        }
                        if x == p {
                            assert(next[k as int] == x);
                        }
                    }
                }
                assert(self@ =~= joined(start@, next.to_set(), member));
                assert(self.saved() =~= was.saved());
            }
            k = k + 1;
        }
        proof {
            assert(fresh@.take(k as int) =~= fresh@);
            assert forall|p: u32| fresh@.to_set().contains(p) == players@.to_set().difference(
                start@.cohort.dom(),
            ).contains(p) by {
                assert(fresh@.contains(p) <==> players@.contains(p) && !start@.cohort.contains_key(
                    p,
                ));
            }
            assert(self@ =~= joined(start@, players@.to_set(), member));
        }
        fresh
    }

    // ---- frontier ----

    /// Queues a crawl task. A player who is queued in the same or a better
    /// bucket keeps their task.
    pub fn frontier_push(
        &mut self,
        platform: &str,
        bucket: u8,
        due_ms: u64,
        player_id: u32,
        task: &FrontierTask,
    )
        requires
            old(self).wf(),
        ensures
            final(self).wf(),
            final(self).saved() == old(self).saved(),
            final(self)@ == (StoreV {
                frontier: pushed(
                    old(self)@.frontier,
                    player_id,
                    QueuedV { platform: platform@, bucket, due_ms, task: task@ },
                ),
                ..old(self)@
            }),
    {
        let ghost was = *self;
        self.frontier.push(platform, bucket, due_ms, player_id, task);
        assert(self.saved() =~= was.saved());
    }

    /// Queues a batch of crawl tasks.
    pub fn frontier_push_batch(
        &mut self,
        platform: &str,
        bucket: u8,
        due_ms: u64,
        items: &Vec<(u32, FrontierTask)>,
    )
        requires
            old(self).wf(),
        ensures
            final(self).wf(),
            final(self).saved() == old(self).saved(),
            final(self)@ == (StoreV {
                frontier: pushed_batch(
                    old(self)@.frontier,
                    platform@,
                    bucket,
                    due_ms,
                    items@.map_values(|it: (u32, FrontierTask)| (it.0, it.1@)),
                ),
                ..old(self)@
            }),
    {
        let ghost was = *self;
        self.frontier.push_batch(platform, bucket, due_ms, items);
        assert(self.saved() =~= was.saved());
    }

    /// Takes out the first task that is due on a platform: the better bucket
    /// first, within a bucket the earliest.
    pub fn frontier_pop_due(&mut self, platform: &str, now_ms: u64) -> (res: Option<
        (u8, u32, FrontierTask),
    >)
        requires
            old(self).wf(),
        ensures
            final(self).wf(),
            final(self).saved() == old(self).saved(),
            match res {
                Some((bucket, player, task)) => {
                    &&& is_first_due(old(self)@.frontier, platform@, now_ms, player)
                    &&& bucket == old(self)@.frontier[player].bucket
                    &&& task@ == old(self)@.frontier[player].task
                    &&& final(self)@ == (StoreV {
                        frontier: old(self)@.frontier.remove(player),
                        ..old(self)@
                    })
                },
                None => {
                    &&& forall|p: u32| !#[trigger] is_due(old(self)@.frontier, platform@, now_ms, p)
                    &&& final(self)@ == old(self)@
                },
            },
    {
        let ghost was = *self;
        let res = self.frontier.pop_due(platform, now_ms);
        assert(self.saved() =~= was.saved());
        res
    }

    /// Priority tasks of a platform that are overdue by more than `grace_ms`,
    /// counted up to `cap`.
    pub fn frontier_overdue_count(
        &self,
        platform: &str,
        now_ms: u64,
        grace_ms: u64,
        cap: u64,
    ) -> (res: u64)
        requires
            self.wf(),
        ensures
            ({
                let n = overdue(self@.frontier, platform@, now_ms, grace_ms).len();
                res == (if n <= cap {
                    n
                } else {
                    cap as nat
                })
            }),
    {
        self.frontier.overdue_count(platform, now_ms, grace_ms, cap)
    }

    /// When the next task of a platform is due.
    pub fn frontier_next_due(&self, platform: &str) -> (res: Option<u64>)
        requires
            self.wf(),
        ensures
            is_next_due(self@.frontier, platform@, res),
    {
        self.frontier.next_due(platform)
    }

    /// Makes every queued priority task of a cohort member a deep visit that
    /// is due at once, and says how many there were.
    pub fn frontier_backfill_reset(&mut self, now_ms: u64) -> (res: u64)
        requires
            old(self).wf(),
        ensures
            final(self).wf(),
            final(self).saved() == old(self).saved(),
            final(self)@ == (StoreV {
                frontier: backfilled(old(self)@.frontier, old(self)@.cohort.dom(), now_ms),
                ..old(self)@
            }),
            res == old(self)@.frontier.dom().filter(
                |p: u32| resets(old(self)@.frontier, old(self)@.cohort.dom(), p),
            ).len(),
    {
        let ghost was = *self;
        let res = self.frontier.backfill_reset(&self.cohort, now_ms);
        assert(self.saved() =~= was.saved());
        res
    }
}

// ---- startup repair ----

/// The first of the regions on which a game is stored.
pub open spec fn platform_of_game(s: StoreV, game_id: u64, regions: Seq<Region>) -> Option<
    Seq<char>,
>
    decreases regions.len(),
{
    if regions.len() == 0 {
        None
    } else if rows_of(s, regions[0].platform@).contains_key(game_id) {
        Some(regions[0].platform@)
    } else {
        platform_of_game(s, game_id, regions.skip(1))
    }
}

/// The platform on which a player's latest stored game was played, if there is
/// one and it is crawled.
pub open spec fn home_of(s: StoreV, player: u32, regions: Seq<Region>) -> Option<Seq<char>> {
    let games = games_of(s.played, player);
    if s.names.contains_key(player) && games.len() > 0 {
        platform_of_game(s, games.last().game_id, regions)
    } else {
        None
    }
}

/// A cohort member who is not queued, though it is known where they play.
pub open spec fn stranded(s: StoreV, player: u32, regions: Seq<Region>) -> bool {
    s.cohort.contains_key(player) && !s.frontier.contains_key(player) && home_of(
        s,
        player,
        regions,
    ) is Some
}

/// The queue with those of the players who are stranded queued for `now_ms`.
pub open spec fn requeued(s: StoreV, players: Set<u32>, regions: Seq<Region>, now_ms: u64) -> Map<
    u32,
    QueuedV,
> {
    Map::new(
        |p: u32| s.frontier.contains_key(p) || (players.contains(p) && stranded(s, p, regions)),
        |p: u32|
            if s.frontier.contains_key(p) {
                s.frontier[p]
            } else {
                QueuedV {
                    platform: home_of(s, p, regions)->0,
                    bucket: BUCKET_PRIORITY,
                    due_ms: now_ms,
                    task: TaskV { puuid: s.names[p], last_visit_ms: 0 },
                }
            },
    )
}

impl Store {
    fn find_platform(&self, game_id: u64, regions: &Vec<Region>) -> (res: Option<&'static str>)
        requires
            self.wf(),
        ensures
            match res {
                Some(p) => platform_of_game(self@, game_id, regions@) == Some(p@),
                None => platform_of_game(self@, game_id, regions@) is None,
            },
    {
        let mut i: usize = 0;
        assert(regions@.skip(0) =~= regions@);
        while i < regions.len()
            invariant
                self.wf(),
                i <= regions@.len(),
                platform_of_game(self@, game_id, regions@.skip(i as int)) == platform_of_game(
                    self@,
                    game_id,
                    regions@,
                ),
            decreases regions@.len() - i,
        {
            let platform = regions[i].platform;
            let found = match self.progress.get(platform) {
                Some(rows) => match rows.get(game_id) {
                    Some(_) => true,
                    None => false,
                },
                None => false,
            };
            assert(regions@.skip(i as int)[0] == regions@[i as int]);
            assert(regions@.skip(i as int).skip(1) =~= regions@.skip(i + 1));
            if found {
                return Some(platform);
            }
            i = i + 1;
        }
        None
    }

    fn find_home(&self, player: u32, regions: &Vec<Region>) -> (res: Option<
        (&'static str, FrontierTask),
    >)
        requires
            self.wf(),
        ensures
            match res {
                Some((platform, task)) => {
                    &&& home_of(self@, player, regions@) == Some(platform@)
                    &&& task@ == (TaskV { puuid: self@.names[player], last_visit_ms: 0 })
                },
                None => home_of(self@, player, regions@) is None,
            },
    {
        let name = match self.names.get(player) {
            Some(name) => name,
            None => {
                return None;
            },
        };
        let games = match self.played.get(player) {
            Some(games) => games,
            None => {
                return None;
            },
        };
        if games.len() == 0 {
            return None;
        }
        match self.find_platform(games[games.len() - 1].game_id, regions) {
            Some(platform) => Some(
                (platform, FrontierTask { puuid: name.clone(), last_visit_ms: 0 }),
            ),
            None => None,
        }
    }

    /// Queues the cohort members who have no task, on the platform of their
    /// latest stored game, and says how many there were. Members without
    /// stored games are left alone: the next seeding queues them.
    pub fn frontier_reconcile(&mut self, now_ms: u64) -> (res: usize)
        requires
            old(self).wf(),
        ensures
            final(self).wf(),
            final(self).saved() == old(self).saved(),
            final(self)@ == (StoreV {
                frontier: requeued(
                    old(self)@,
                    old(self)@.cohort.dom(),
                    enabled_from(0),
                    now_ms,
                ),
                ..old(self)@
            }),
            res == old(self)@.cohort.dom().filter(
                |p: u32| stranded(old(self)@, p, enabled_from(0)),
            ).len(),
    {
        let regions = enabled_regions();
        let members = self.cohort.keys();
        let ghost start = *self;
        let ghost regs = regions@;
        let ghost f = |p: u32| stranded(start@, p, regs);
        let mut n: usize = 0;
        let mut i: usize = 0;
        proof {
            assert(members@.take(0).to_set() =~= Set::empty());
            assert(members@.take(0).to_set().filter(f) =~= Set::empty());
            assert(members@.take(members@.len() as int) =~= members@);
            assert(self@ =~= StoreV {
                frontier: requeued(start@, Set::empty(), regs, now_ms),
                ..start@
            });
        }
        while i < members.len()
            invariant
                self.wf(),
                self.saved() == start.saved(),
                regs == regions@,
                i <= members@.len(),
                members@.no_duplicates(),
                members@.to_set() == start@.cohort.dom(),
                f == (|p: u32| stranded(start@, p, regs)),
                self@ == (StoreV {
                    frontier: requeued(start@, members@.take(i as int).to_set(), regs, now_ms),
                    ..start@
                }),
                n == members@.take(i as int).to_set().filter(f).len(),
                n <= i,
            decreases members@.len() - i,
        {
            let ghost was = *self;
            let p: u32 = members[i];
            proof {
                lemma_count(members@, f, i as int);
                assert(members@.to_set().contains(p));
                lemma_home(start@, self@, p, regs);
                let done = members@.take(i as int);
                if done.to_set().contains(p) {
                    let j = choose|j: int| 0 <= j < done.len() && done[j] == p;
                    assert(members@[j] == members@[i as int]);
                }
                lemma_take_set(members@, i as int);
            }
            let queued = match self.frontier.get(p) {
                Some(_) => true,
                None => false,
            };
            assert(queued == start@.frontier.contains_key(p));
            if !queued {
                if let Some((platform, task)) = self.find_home(p, &regions) {
                    assert(f(p));
                    self.frontier.push(platform, BUCKET_PRIORITY, now_ms, p, &task);
                    n = n + 1;
                }
            }
            proof {
                let next = members@.take(i + 1).to_set();
                assert(self@.frontier =~= requeued(start@, next, regs, now_ms));
                assert(self.saved() =~= was.saved());
            }
            i = i + 1;
        }
        n
    }
}

proof fn lemma_take_set(keys: Seq<u32>, k: int)
    requires
        0 <= k < keys.len(),
    ensures
        keys.take(k + 1).to_set() == keys.take(k).to_set().insert(keys[k]),
{
    let now = keys.take(k + 1);
    let was = keys.take(k);
    assert forall|x: u32| #[trigger] now.to_set().contains(x) == was.to_set().insert(
        keys[k],
    ).contains(x) by {
        if now.to_set().contains(x) {
            let i = choose|i: int| 0 <= i < now.len() && now[i] == x;
            if i < k {
                assert(was[i] == x);
            }
        }
        if was.to_set().contains(x) {
            let i = choose|i: int| 0 <= i < was.len() && was[i] == x;
            assert(now[i] == x);
        }
        if x == keys[k] {
            assert(now[k] == x);
        }
    }
    assert(now.to_set() =~= was.to_set().insert(keys[k]));
}

/// Where a player plays does not depend on the queue.
proof fn lemma_home(a: StoreV, b: StoreV, player: u32, regions: Seq<Region>)
    requires
        b == (StoreV { frontier: b.frontier, ..a }),
    ensures
        home_of(a, player, regions) == home_of(b, player, regions),
{
    let games = games_of(a.played, player);
    lemma_platform_of_game(a, b, games.last().game_id, regions);
}

proof fn lemma_platform_of_game(a: StoreV, b: StoreV, game_id: u64, regions: Seq<Region>)
    requires
        a.progress == b.progress,
    ensures
        platform_of_game(a, game_id, regions) == platform_of_game(b, game_id, regions),
    decreases regions.len(),
{
    if regions.len() > 0 {
        lemma_platform_of_game(a, b, game_id, regions.skip(1));
    }
}

// ---- rank snapshots, nodes, cursors ----

/// The key under which the next node id is kept.
pub const NEXT_NODE_ID: &'static str = "next_node_id";

/// The id that the next node gets.
pub open spec fn next_node_id(s: StoreV) -> u32 {
    if s.meta.contains_key(NEXT_NODE_ID@) {
        s.meta[NEXT_NODE_ID@]
    } else {
        1
    }
}

impl Store {
    /// Keeps a rank snapshot for the next checkpoint.
    pub fn add_rank_snapshot(&mut self, player_id: u32, ts_ms: u64, snap: RankSnap)
        requires
            old(self).wf(),
        ensures
            final(self).wf(),
            final(self).saved() == old(self).saved(),
            final(self)@ == (StoreV {
                ranks: old(self)@.ranks.push((player_id, ts_ms, snap)),
                ..old(self)@
            }),
    {
        let ghost was = *self;
        self.ranks.push((player_id, ts_ms, snap));
        assert(self.saved() =~= was.saved());
    }

    /// A cursor, if it was ever set.
    pub fn meta_get_u32(&self, key: &str) -> (res: Option<u32>)
        requires
            self.wf(),
        ensures
            res == (if self@.meta.contains_key(key@) {
                Some(self@.meta[key@])
            } else {
                None::<u32>
            }),
    {
        match self.meta.get(key) {
            Some(v) => Some(*v),
            None => None,
        }
    }

    /// Sets a cursor.
    pub fn meta_set_u32(&mut self, key: &str, val: u32)
        requires
            old(self).wf(),
        ensures
            final(self).wf(),
            final(self).saved() == old(self).saved(),
            final(self)@ == (StoreV {
                meta: old(self)@.meta.insert(key@, val),
                meta_unsaved: old(self)@.meta_unsaved.push(key@),
                ..old(self)@
            }),
    {
        let ghost was = *self;
        self.meta.put(key.to_string(), val);
        self.meta_unsaved.push(key.to_string());
        proof {
            assert(self@.meta_unsaved =~= was@.meta_unsaved.push(key@));
            assert(self.saved() =~= was.saved());
        }
    }

    /// Enrols a node, and gives its id.
    pub fn node_add(&mut self, name: &str, token_sha256_hex: &str, now_ms: u64) -> (res: u32)
        requires
            old(self).wf(),
            next_node_id(old(self)@) < u32::MAX,
        ensures
            final(self).wf(),
            final(self).saved() == old(self).saved(),
            res == next_node_id(old(self)@),
            is_enrolment(old(self)@, final(self)@, res, name@, token_sha256_hex@, now_ms),
    {
        let id: u32 = match self.meta_get_u32(NEXT_NODE_ID) {
            Some(id) => id,
            None => 1,
        };
        let rec = NodeRec {
            name: name.to_string(),
            token_sha256_hex: token_sha256_hex.to_string(),
            created_ms: now_ms,
        };
        let ghost was = *self;
        let _ = self.nodes.put(id, rec);
        assert(self.saved() =~= was.saved());
        self.meta_set_u32(NEXT_NODE_ID, id + 1);
        id
    }

    /// Every enrolled node, once.
    pub fn nodes_all(&self) -> (res: Vec<(u32, NodeRec)>)
        requires
            self.wf(),
        ensures
            forall|i: int|
                0 <= i < res@.len() ==> self@.nodes.contains_key((#[trigger] res@[i]).0)
                    && same_node(res@[i].1, self@.nodes[res@[i].0]),
            forall|i: int, j: int|
                0 <= i < j < res@.len() ==> (#[trigger] res@[i]).0 != (#[trigger] res@[j]).0,
            forall|id: u32| #[trigger]
                self@.nodes.contains_key(id) ==> exists|i: int|
                    0 <= i < res@.len() && (#[trigger] res@[i]).0 == id,
    {
        let ids = self.nodes.keys();
        let mut out: Vec<(u32, NodeRec)> = Vec::new();
        let mut i: usize = 0;
        while i < ids.len()
            invariant
                self.wf(),
                i <= ids@.len(),
                ids@.to_set() == self@.nodes.dom(),
                ids@.no_duplicates(),
                out@.len() == i,
                forall|j: int|
                    0 <= j < i ==> (#[trigger] out@[j]).0 == ids@[j] && same_node(
                        out@[j].1,
                        self@.nodes[ids@[j]],
                    ),
            decreases ids@.len() - i,
        {
            let id: u32 = ids[i];
            assert(ids@.to_set().contains(id));
            match self.nodes.get(id) {
                Some(rec) => {
                    out.push(
                        (
                            id,
                            NodeRec {
                                name: rec.name.clone(),
                                token_sha256_hex: rec.token_sha256_hex.clone(),
                                created_ms: rec.created_ms,
                            },
                        ),
                    );
                },
                None => {
                    assert(false);
                },
            }
            i = i + 1;
        }
        proof {
            assert forall|j: int| 0 <= j < out@.len() implies self@.nodes.contains_key(
                (#[trigger] out@[j]).0,
            ) by {
                assert(ids@.to_set().contains(ids@[j]));
            }
            assert forall|id: u32| #[trigger] self@.nodes.contains_key(id) implies exists|i: int|
                0 <= i < out@.len() && (#[trigger] out@[i]).0 == id by {
                assert(ids@.to_set().contains(id));
                let j = choose|j: int| 0 <= j < ids@.len() && ids@[j] == id;
                assert(out@[j].0 == id);
            }
        }
        out
    }
}

/// A node was enrolled under an id.
pub open spec fn is_enrolment(
    before: StoreV,
    after: StoreV,
    id: u32,
    name: Seq<char>,
    token_sha256_hex: Seq<char>,
    now_ms: u64,
) -> bool {
    let rec = after.nodes[id];
    &&& rec.name@ == name
    &&& rec.token_sha256_hex@ == token_sha256_hex
    &&& rec.created_ms == now_ms
    &&& after == (StoreV {
        nodes: before.nodes.insert(id, rec),
        meta: before.meta.insert(NEXT_NODE_ID@, (id + 1) as u32),
        meta_unsaved: before.meta_unsaved.push(NEXT_NODE_ID@),
        ..before
    })
}

/// So much is buffered that a commit is worthwhile.
pub open spec fn wants_commit(s: StoreV) -> bool {
    s.ranks.len() > 5_000 || exists|p: Seq<char>| #[trigger]
        s.writers.contains_key(p) && s.writers[p].writer.buf.len() >= BLOCK_TARGET_BYTES
}

/// Two node records say the same.
pub open spec fn same_node(a: NodeRec, b: NodeRec) -> bool {
    a.name@ == b.name@ && a.token_sha256_hex@ == b.token_sha256_hex@ && a.created_ms
        == b.created_ms
}

// ---- writing out ----

/// What a checkpoint writes: the rows to bring up to date, by their keys, and
/// the rank snapshots to add.
pub struct Checkpoint {
    pub players: Vec<u32>,
    pub cohort: Vec<u32>,
    pub outsiders: Vec<u32>,
    pub progress: Vec<(String, u64)>,
    pub played: Vec<(u32, u64)>,
    pub frontier: Vec<u32>,
    pub nodes: Vec<u32>,
    pub meta: Vec<String>,
    pub ranks: Vec<(u32, u64, RankSnap)>,
}

/// What the tables of a state hold.
pub open spec fn tables_of(s: StoreV) -> SavedV {
    SavedV {
        names: s.names,
        cohort: s.cohort,
        outsiders: s.outsiders,
        progress: |n: Seq<char>| rows_of(s, n),
        played: s.played,
        frontier: s.frontier,
        nodes: s.nodes,
    }
}

pub open spec fn names_row(rows: Seq<(String, u64)>, platform: Seq<char>, game_id: u64) -> bool {
    exists|i: int|
        0 <= i < rows.len() && (#[trigger] rows[i]).0@ == platform && rows[i].1 == game_id
}

/// Every row in which two states of the tables differ is named.
pub open spec fn covers(cp: Checkpoint, a: SavedV, b: SavedV) -> bool {
    &&& forall|k: u32| !cp.players@.contains(k) ==> #[trigger] same_row(a.names, b.names, k)
    &&& forall|k: u32| !cp.cohort@.contains(k) ==> #[trigger] same_row(a.cohort, b.cohort, k)
    &&& forall|k: u32|
        !cp.outsiders@.contains(k) ==> #[trigger] same_row(a.outsiders, b.outsiders, k)
    &&& forall|n: Seq<char>, g: u64|
        !names_row(cp.progress@, n, g) ==> #[trigger] same_row(
            (a.progress)(n),
            (b.progress)(n),
            g,
        )
    &&& forall|p: u32, e: Played|
        !cp.played@.contains((p, e.ts_ms)) ==> #[trigger] same_game(a.played, b.played, p, e)
    &&& forall|k: u32| !cp.frontier@.contains(k) ==> #[trigger] same_row(a.frontier, b.frontier, k)
    &&& forall|k: u32| !cp.nodes@.contains(k) ==> #[trigger] same_row(a.nodes, b.nodes, k)
}

/// A step of a commit. The steps are done in the order in which they are
/// listed, and none after one that fails.
pub enum CommitStep {
    /// Write the checkpoint, and wait until it is durable.
    Checkpoint,
    /// Write the block of a platform's open segment, and wait likewise.
    Flush(String),
    /// Write the bitmaps of the games seen.
    Bitmaps,
}

impl Store {
    /// The games whose rows were touched, on all platforms.
    fn take_progress(&mut self) -> (res: Vec<(String, u64)>)
        requires
            old(self).wf(),
        ensures
            final(self).wf(),
            final(self)@ == old(self)@,
            final(self).saved() == (SavedV {
                progress: tables_of(old(self)@).progress,
                ..old(self).saved()
            }),
            forall|n: Seq<char>, g: u64|
                !names_row(res@, n, g) ==> #[trigger] same_row(
                    (old(self).saved().progress)(n),
                    (tables_of(old(self)@).progress)(n),
                    g,
                ),
    {
        let ghost start = *self;
        let mut platforms: Vec<String> = Vec::new();
        let mut i: usize = 0;
        let len: usize = self.progress.len();
        while i < len
            invariant
                *self == start,
                self.wf(),
                len == self.progress.names().len(),
                i <= len,
                platforms@.len() == i,
                forall|j: int|
                    0 <= j < i ==> (#[trigger] platforms@[j])@ == self.progress.names()[j],
            decreases len - i,
        {
            let (name, _) = self.progress.entry(i);
            platforms.push(name.clone());
            i = i + 1;
        }
        let ghost names = start.progress.names();
        proof {
            start.progress.lemma_names();
        }
        let mut out: Vec<(String, u64)> = Vec::new();
        let mut k: usize = 0;
        while k < platforms.len()
            invariant
                self.wf(),
                start.wf(),
                self@ == start@,
                names == start.progress.names(),
                names.no_duplicates(),
                forall|n: Seq<char>| #[trigger]
                    start.progress@.contains_key(n) <==> names.contains(n),
                platforms@.len() == names.len(),
                forall|j: int| 0 <= j < names.len() ==> (#[trigger] platforms@[j])@ == names[j],
                k <= names.len(),
                self.saved() == (SavedV { progress: self.saved().progress, ..start.saved() }),
                forall|j: int|
                    0 <= j < k ==> self.progress@[#[trigger] names[j]].saved()
                        == start@.progress[names[j]],
                forall|j: int|
                    k <= j < names.len() ==> self.progress@[#[trigger] names[j]]
                        == start.progress@[names[j]],
                forall|j: int, g: u64|
                    0 <= j < k && !names_row(out@, names[j], g) ==> #[trigger] same_row(
                        start.progress@[names[j]].saved(),
                        start@.progress[names[j]],
                        g,
                    ),
            decreases names.len() - k,
        {
            let ghost before = *self;
            let ghost out0 = out@;
            let ghost n = names[k as int];
            let name = &platforms[k];
            assert(names.contains(n));
            assert(start.progress@.contains_key(n));
            assert(start@.progress.contains_key(n));
            assert(self@.progress.contains_key(n));
            match self.progress.take(name.as_str()) {
                Some(mut rows) => {
                    let ghost r0 = rows;
                    let games = rows.take_touched();
                    push_rows(&mut out, name, &games);
                    self.progress.put(name.clone(), rows);
                    proof {
                        assert(self@.progress =~= start@.progress);
                        assert(self@ =~= start@);
                        assert forall|j: int| k < j < names.len() implies self.progress@[
                            #[trigger] names[j]
                        ] == start.progress@[names[j]] by {
                            assert(names[j] != names[k as int]);
                        }
                        assert forall|j: int| 0 <= j < k + 1 implies self.progress@[
                            #[trigger] names[j]
                        ].saved() == start@.progress[names[j]] by {
                            if j < k {
                                assert(names[j] != names[k as int]);
                            }
                        }
                        assert forall|j: int, g: u64|
                            0 <= j < k + 1 && !names_row(out@, names[j], g) implies
                            #[trigger] same_row(
                            start.progress@[names[j]].saved(),
                            start@.progress[names[j]],
                            g,
                        ) by {
                            if j < k {
                                if names_row(out0, names[j], g) {
                                    let x = choose|x: int|
                                        0 <= x < out0.len() && (#[trigger] out0[x]).0@ == names[j]
                                            && out0[x].1 == g;
                                    assert(out@[x] == out0[x]);
                                }
                                assert(same_row(
                                    start.progress@[names[j]].saved(),
                                    start@.progress[names[j]],
                                    g,
                                ));
                            } else {
                                if games@.contains(g) {
                                    let x = choose|x: int|
                                        0 <= x < games@.len() && games@[x] == g;
                                    assert(out@[out0.len() + x].0@ == n && out@[out0.len()
                                        + x].1 == g);
                                }
                                r0.lemma_unsaved(g);
                            }
                        }
                        assert(self.saved() =~= SavedV {
                            progress: self.saved().progress,
                            ..start.saved()
                        });
                    }
                },
                None => {
                    assert(false);
                },
            }
            k = k + 1;
        }
        proof {
            assert forall|n: Seq<char>| #[trigger] (self.saved().progress)(n) == rows_of(
                start@,
                n,
            ) by {
                if start@.progress.contains_key(n) {
                    assert(start.progress@.contains_key(n));
                    let j = choose|j: int| 0 <= j < names.len() && names[j] == n;
                    assert(self.progress@[names[j]].saved() == start@.progress[names[j]]);
                    assert(self@.progress.contains_key(n));
                } else {
                    assert(!self@.progress.contains_key(n));
                }
            }
            assert(self.saved().progress =~= tables_of(start@).progress);
            assert forall|n: Seq<char>, g: u64| !names_row(out@, n, g) implies #[trigger] same_row(
                (start.saved().progress)(n),
                (tables_of(start@).progress)(n),
                g,
            ) by {
                if start@.progress.contains_key(n) {
                    assert(start.progress@.contains_key(n));
                    let j = choose|j: int| 0 <= j < names.len() && names[j] == n;
                    assert(same_row(
                        start.progress@[names[j]].saved(),
                        start@.progress[names[j]],
                        g,
                    ));
                } else {
                    assert(!start.progress@.contains_key(n));
                }
            }
        }
        out
    }

    /// What is to be written to bring the stored tables up to date. It counts
    /// as written after this call.
    pub fn checkpoint(&mut self) -> (res: Checkpoint)
        requires
            old(self).wf(),
        ensures
            final(self).wf(),
            final(self)@ == (StoreV {
                ranks: Seq::empty(),
                meta_unsaved: Seq::empty(),
                ..old(self)@
            }),
            final(self).saved() == tables_of(old(self)@),
            covers(res, old(self).saved(), tables_of(old(self)@)),
            texts(res.meta@) == old(self)@.meta_unsaved,
            res.ranks@ == old(self)@.ranks,
    {
        let ghost start = *self;
        let progress = self.take_progress();
        let ghost mid = *self;
        let players = self.names.take_touched();
        let cohort = self.cohort.take_touched();
        let outsiders = self.outsiders.take_touched();
        let played = self.played.take_touched();
        let frontier = self.frontier.take_touched();
        let nodes = self.nodes.take_touched();
        let mut meta: Vec<String> = Vec::new();
        std::mem::swap(&mut meta, &mut self.meta_unsaved);
        let mut ranks: Vec<(u32, u64, RankSnap)> = Vec::new();
        std::mem::swap(&mut ranks, &mut self.ranks);
        let res = Checkpoint {
            players,
            cohort,
            outsiders,
            progress,
            played,
            frontier,
            nodes,
            meta,
            ranks,
        };
        proof {
            assert(self@.meta_unsaved =~= Seq::empty());
            assert(self@ =~= StoreV {
                ranks: Seq::empty(),
                meta_unsaved: Seq::empty(),
                ..start@
            });
            assert(self.saved().progress =~= mid.saved().progress);
            assert(self.saved() =~= tables_of(start@));
            let a = start.saved();
            let b = tables_of(start@);
            assert(a == SavedV { progress: a.progress, ..mid.saved() });
            assert forall|k: u32| !res.players@.contains(k) implies #[trigger] same_row(
                a.names,
                b.names,
                k,
            ) by {
                mid.names.lemma_unsaved(k);
            }
            assert forall|k: u32| !res.cohort@.contains(k) implies #[trigger] same_row(
                a.cohort,
                b.cohort,
                k,
            ) by {
                mid.cohort.lemma_unsaved(k);
            }
            assert forall|k: u32| !res.outsiders@.contains(k) implies #[trigger] same_row(
                a.outsiders,
                b.outsiders,
                k,
            ) by {
                mid.outsiders.lemma_unsaved(k);
            }
            assert forall|k: u32| !res.frontier@.contains(k) implies #[trigger] same_row(
                a.frontier,
                b.frontier,
                k,
            ) by {
                mid.frontier.lemma_unsaved(k);
            }
            assert forall|k: u32| !res.nodes@.contains(k) implies #[trigger] same_row(
                a.nodes,
                b.nodes,
                k,
            ) by {
                mid.nodes.lemma_unsaved(k);
            }
            assert forall|p: u32, e: Played|
                !res.played@.contains((p, e.ts_ms)) implies #[trigger] same_game(
                a.played,
                b.played,
                p,
                e,
            ) by {
                assert(same_game(mid.played.saved(), mid.played@, p, e)
                    || mid.played.touched().contains((p, e.ts_ms)));
            }
        }
        res
    }
}

fn push_rows(out: &mut Vec<(String, u64)>, name: &String, games: &Vec<u64>)
    ensures
        final(out)@.len() == old(out)@.len() + games@.len(),
        forall|i: int|
            0 <= i < old(out)@.len() ==> #[trigger] final(out)@[i] == old(out)@[i],
        forall|x: int|
            0 <= x < games@.len() ==> (#[trigger] final(out)@[old(out)@.len() + x]).0@ == name@
                && final(out)@[old(out)@.len() + x].1 == games@[x],
{
    let ghost was = out@;
    let mut i: usize = 0;
    while i < games.len()
        invariant
            i <= games@.len(),
            was == old(out)@,
            out@.len() == was.len() + i,
            forall|j: int| 0 <= j < was.len() ==> #[trigger] out@[j] == was[j],
            forall|x: int|
                0 <= x < i ==> (#[trigger] out@[was.len() + x]).0@ == name@ && out@[was.len()
                    + x].1 == games@[x],
        decreases games@.len() - i,
    {
        out.push((name.clone(), games[i]));
        i = i + 1;
    }
}

/// The steps of a commit of a state: the checkpoint, a flush for each open
/// segment, and the bitmaps if they changed.
pub open spec fn are_commit_steps(steps: Seq<CommitStep>, s: StoreV) -> bool {
    let n = steps.len() - (if s.seen_unsaved {
        2int
    } else {
        1int
    });
    &&& n >= 0
    &&& steps[0] is Checkpoint
    &&& forall|i: int| 1 <= i <= n ==> #[trigger] steps[i] is Flush
    &&& forall|i: int, j: int|
        1 <= i < j <= n ==> (#[trigger] steps[i])->0@ != (#[trigger] steps[j])->0@
    &&& forall|i: int| 1 <= i <= n ==> s.writers.contains_key((#[trigger] steps[i])->0@)
    &&& forall|p: Seq<char>| #[trigger]
        s.writers.contains_key(p) ==> exists|i: int|
            1 <= i <= n && (#[trigger] steps[i])->0@ == p
    &&& s.seen_unsaved ==> steps[n + 1] is Bitmaps
}

impl Store {
    /// The steps of a commit: first the checkpoint, so that no segment refers
    /// to ids that could be lost; then the segments; and last the bitmaps, so
    /// that none claims a match whose bytes were not written.
    pub fn commit(&self) -> (res: Vec<CommitStep>)
        requires
            self.wf(),
        ensures
            are_commit_steps(res@, self@),
    {
        let mut out: Vec<CommitStep> = Vec::new();
        out.push(CommitStep::Checkpoint);
        let len: usize = self.writers.len();
        let ghost names = self.writers.names();
        proof {
            self.writers.lemma_names();
        }
        let mut i: usize = 0;
        while i < len
            invariant
                self.wf(),
                names == self.writers.names(),
                len == names.len(),
                i <= len,
                out@.len() == i + 1,
                out@[0] is Checkpoint,
                forall|j: int|
                    1 <= j <= i ==> #[trigger] out@[j] is Flush && out@[j]->0@ == names[j - 1],
            decreases len - i,
        {
            let (name, _) = self.writers.entry(i);
            out.push(CommitStep::Flush(name.clone()));
            i = i + 1;
        }
        let ghost steps = out@;
        if self.seen_unsaved {
            out.push(CommitStep::Bitmaps);
        }
        let ghost n = len as int;
        proof {
            assert forall|j: int| 1 <= j <= n implies #[trigger] out@[j] is Flush && out@[j]->0@
                == names[j - 1] by {
                assert(out@[j] == steps[j]);
            }
            assert forall|j: int, k: int| 1 <= j < k <= n implies (#[trigger] out@[j])->0@ != (
            #[trigger] out@[k])->0@ by {
                assert(names[j - 1] != names[k - 1]);
            }
            assert forall|j: int| 1 <= j <= n implies self@.writers.contains_key(
                (#[trigger] out@[j])->0@,
            ) by {
                assert(names.contains(names[j - 1]));
                assert(self.writers@.contains_key(names[j - 1]));
            }
            assert forall|p: Seq<char>| #[trigger] self@.writers.contains_key(
                p,
            ) implies exists|i: int| 1 <= i <= n && (#[trigger] out@[i])->0@ == p by {
                assert(self.writers@.contains_key(p));
                let j = choose|j: int| 0 <= j < names.len() && names[j] == p;
                assert(out@[j + 1]->0@ == p);
            }
        }
        out
    }

    /// The block of a platform's open segment of length `seg_len`, if anything
    /// is buffered for it, with the day of the segment. The records stay
    /// buffered until the block is written.
    pub fn segment_block(&self, platform: &str, seg_len: u64) -> (res: Result<
        Option<(String, Flushed)>,
        CompressFailed,
    >)
        requires
            self.wf(),
        ensures
            ({
                let open = self@.writers.contains_key(platform@);
                let day = self@.writers[platform@];
                match res {
                    Err(_) => open && day.writer.pending.len() > 0,
                    Ok(None) => !open || day.writer.pending.len() == 0,
                    Ok(Some((date, block))) => {
                        &&& open
                        &&& day.writer.pending.len() > 0
                        &&& date@ == day.date
                        &&& is_block_of(block, day.writer, seg_len)
                    },
                }
            }),
    {
        match self.writers.get(platform) {
            Some(day) => match day.writer.block(seg_len) {
                Ok(Some(block)) => Ok(Some((day.date.clone(), block))),
                Ok(None) => Ok(None),
                Err(e) => Err(e),
            },
            None => Ok(None),
        }
    }

    /// Notes that the block of a platform's open segment was written.
    pub fn segment_written(&mut self, platform: &str)
        requires
            old(self).wf(),
        ensures
            final(self).wf(),
            final(self).saved() == old(self).saved(),
            final(self)@ == (StoreV {
                writers: if old(self)@.writers.contains_key(platform@) {
                    old(self)@.writers.insert(
                        platform@,
                        DayV {
                            date: old(self)@.writers[platform@].date,
                            writer: WriterV { buf: Seq::empty(), pending: Seq::empty() },
                        },
                    )
                } else {
                    old(self)@.writers
                },
                ..old(self)@
            }),
    {
        let ghost was = *self;
        if let Some(mut day) = self.writers.take(platform) {
            day.writer.clear();
            let ghost value = day@;
            self.writers.put(platform.to_string(), day);
            assert(self@.writers =~= was@.writers.insert(platform@, value));
        } else {
            assert(self@.writers =~= was@.writers);
        }
        assert(self.saved() =~= was.saved());
    }

    /// The bitmap of a platform, as bytes.
    pub fn bitmap(&self, platform: &str) -> (res: Option<Vec<u8>>)
        requires
            self.wf(),
        ensures
            match res {
                Some(bytes) => self@.seen.contains_key(platform@) && bytes@ == treemap_bytes(
                    self@.seen[platform@],
                ),
                None => !self@.seen.contains_key(platform@),
            },
    {
        match self.seen.get(platform) {
            Some(seen) => Some(seen.to_bytes()),
            None => None,
        }
    }

    /// The platforms that have a bitmap, in order.
    pub fn bitmap_platforms(&self) -> (res: Vec<String>)
        requires
            self.wf(),
        ensures
            sorted_names(res@),
            forall|n: Seq<char>| #[trigger] has_text(res@, n) <==> self@.seen.contains_key(n),
    {
        let mut out: Vec<(String, ())> = Vec::new();
        let len: usize = self.seen.len();
        let ghost all = self.seen.names();
        proof {
            self.seen.lemma_names();
        }
        let mut i: usize = 0;
        assert(forall|n: Seq<char>| !all.take(0).contains(n));
        while i < len
            invariant
                self.wf(),
                all == self.seen.names(),
                len == all.len(),
                i <= len,
                name_sorted(out@),
                forall|n: Seq<char>| #[trigger]
                    names(out@, n) <==> all.take(i as int).contains(n),
            decreases len - i,
        {
            let (name, _) = self.seen.entry(i);
            insert_by_name(&mut out, name.clone(), ());
            proof {
                lemma_take_contains(all, i as int);
            }
            i = i + 1;
        }
        proof {
            assert(all.take(i as int) =~= all);
            assert forall|n: Seq<char>| #[trigger] names(out@, n) <==> self@.seen.contains_key(
                n,
            ) by {
                assert(self.seen@.contains_key(n) <==> all.contains(n));
            }
        }
        just_names(&out)
    }

    /// Notes that the bitmaps were written.
    pub fn bitmaps_written(&mut self)
        requires
            old(self).wf(),
        ensures
            final(self).wf(),
            final(self).saved() == old(self).saved(),
            final(self)@ == (StoreV { seen_unsaved: false, ..old(self)@ }),
    {
        let ghost was = *self;
        self.seen_unsaved = false;
        assert(self.saved() =~= was.saved());
    }

    /// Whether so much is buffered that a commit is worthwhile.
    pub fn should_commit(&self) -> (res: bool)
        requires
            self.wf(),
        ensures
            res == wants_commit(self@),
    {
        let len: usize = self.writers.len();
        let ghost all = self.writers.names();
        proof {
            self.writers.lemma_names();
        }
        let mut i: usize = 0;
        while i < len
            invariant
                self.wf(),
                all == self.writers.names(),
                len == all.len(),
                i <= len,
                forall|j: int|
                    0 <= j < i ==> self@.writers[#[trigger] all[j]].writer.buf.len()
                        < BLOCK_TARGET_BYTES,
            decreases len - i,
        {
            let (_, day) = self.writers.entry(i);
            if day.writer.should_flush() {
                assert(self@.writers.contains_key(all[i as int]));
                return true;
            }
            i = i + 1;
        }
        proof {
            assert forall|p: Seq<char>| #[trigger] self@.writers.contains_key(p) implies
                self@.writers[p].writer.buf.len() < BLOCK_TARGET_BYTES by {
                assert(self.writers@.contains_key(p));
                let j = choose|j: int| 0 <= j < all.len() && all[j] == p;
                assert(all[j] == p);
            }
        }
        self.ranks.len() > 5_000
    }

    /// The days of the open segments, in order, each once.
    pub fn open_writer_dates(&self) -> (res: Vec<String>)
        requires
            self.wf(),
        ensures
            sorted_names(res@),
            forall|d: Seq<char>| #[trigger]
                has_text(res@, d) <==> exists|p: Seq<char>| #[trigger]
                    self@.writers.contains_key(p) && self@.writers[p].date == d,
    {
        let mut out: Vec<(String, ())> = Vec::new();
        let len: usize = self.writers.len();
        let ghost all = self.writers.names();
        proof {
            self.writers.lemma_names();
        }
        let mut i: usize = 0;
        while i < len
            invariant
                self.wf(),
                all == self.writers.names(),
                len == all.len(),
                i <= len,
                name_sorted(out@),
                forall|d: Seq<char>| #[trigger]
                    names(out@, d) <==> exists|j: int|
                        0 <= j < i && self@.writers[#[trigger] all[j]].date == d,
            decreases len - i,
        {
            let (_, day) = self.writers.entry(i);
            let ghost was = out@;
            insert_by_name(&mut out, day.date.clone(), ());
            proof {
                assert(self@.writers[all[i as int]].date == day.date@);
                assert forall|d: Seq<char>| #[trigger] names(out@, d) <==> exists|j: int|
                    0 <= j < i + 1 && self@.writers[#[trigger] all[j]].date == d by {
                    if names(was, d) {
                        let j = choose|j: int|
                            0 <= j < i && self@.writers[#[trigger] all[j]].date == d;
                        assert(0 <= j < i + 1 && self@.writers[all[j]].date == d);
                    }
                    if exists|j: int| 0 <= j < i + 1 && self@.writers[#[trigger] all[j]].date
                        == d {
                        let j = choose|j: int|
                            0 <= j < i + 1 && self@.writers[#[trigger] all[j]].date == d;
                        if j < i {
                            assert(names(was, d));
                        }
                    }
                }
            }
            i = i + 1;
        }
        proof {
            assert forall|d: Seq<char>| #[trigger] names(out@, d) <==> exists|p: Seq<char>|
                #[trigger] self@.writers.contains_key(p) && self@.writers[p].date == d by {
                if names(out@, d) {
                    let j = choose|j: int|
                        0 <= j < len && self@.writers[#[trigger] all[j]].date == d;
                    assert(all.contains(all[j]));
                    assert(self.writers@.contains_key(all[j]));
                    assert(self@.writers.contains_key(all[j]));
                }
                if exists|p: Seq<char>| #[trigger] self@.writers.contains_key(p)
                    && self@.writers[p].date == d {
                    let p = choose|p: Seq<char>| #[trigger] self@.writers.contains_key(p)
                        && self@.writers[p].date == d;
                    assert(self.writers@.contains_key(p));
                    let j = choose|j: int| 0 <= j < all.len() && all[j] == p;
                    assert(self@.writers[all[j]].date == d);
                }
            }
        }
        just_names(&out)
    }

    /// The valid samples of each platform, in the order of the platforms.
    pub fn valid_sample_totals(&self) -> (res: Vec<(String, u64)>)
        requires
            self.wf(),
        ensures
            name_sorted(res@),
            forall|n: Seq<char>, v: u64| #[trigger]
                lists(res@, n, v) <==> self@.valid.contains_key(n) && self@.valid[n] == v,
    {
        let mut out: Vec<(String, u64)> = Vec::new();
        let len: usize = self.valid.len();
        let ghost all = self.valid.names();
        proof {
            self.valid.lemma_names();
        }
        let mut i: usize = 0;
        while i < len
            invariant
                self.wf(),
                all == self.valid.names(),
                all.no_duplicates(),
                len == all.len(),
                i <= len,
                name_sorted(out@),
                forall|n: Seq<char>| #[trigger]
                    names(out@, n) <==> all.take(i as int).contains(n),
                forall|n: Seq<char>, v: u64| #[trigger]
                    lists(out@, n, v) <==> all.take(i as int).contains(n) && self@.valid[n] == v,
            decreases len - i,
        {
            let (name, n) = self.valid.entry(i);
            insert_by_name(&mut out, name.clone(), *n);
            proof {
                lemma_take_contains(all, i as int);
                assert(!all.take(i as int).contains(all[i as int])) by {
                    if all.take(i as int).contains(all[i as int]) {
                        let sub = all.take(i as int);
                        let j = choose|j: int| 0 <= j < sub.len() && sub[j] == all[i as int];
                        assert(all[j] == all[i as int]);
                    }
                }
            }
            i = i + 1;
        }
        proof {
            assert(all.take(i as int) =~= all);
            assert forall|n: Seq<char>, v: u64| #[trigger] lists(out@, n, v) <==>
                self@.valid.contains_key(n) && self@.valid[n] == v by {
                assert(self.valid@.contains_key(n) <==> all.contains(n));
            }
        }
        out
    }
}

proof fn lemma_take_contains(all: Seq<Seq<char>>, k: int)
    requires
        0 <= k < all.len(),
    ensures
        forall|n: Seq<char>| #[trigger]
            all.take(k + 1).contains(n) <==> all.take(k).contains(n) || n == all[k],
{
    let now = all.take(k + 1);
    let was = all.take(k);
    assert forall|n: Seq<char>| #[trigger] now.contains(n) <==> was.contains(n) || n == all[k] by {
        if now.contains(n) {
            let i = choose|i: int| 0 <= i < now.len() && now[i] == n;
            if i < k {
                assert(was[i] == n);
            }
        }
        if was.contains(n) {
            let i = choose|i: int| 0 <= i < was.len() && was[i] == n;
            assert(now[i] == n);
        }
        if n == all[k] {
            assert(now[k] == n);
        }
    }
}

// ---- statistics ----

#[derive(Debug)]
pub struct StoreStats {
    pub players: u64,
    pub rank_snapshots: u64,
    pub player_timeline_entries: u64,
    /// Queued tasks by platform and bucket.
    pub frontier: Vec<(String, u8, u64)>,
    /// Games seen by platform.
    pub seen: Vec<(String, u64)>,
    pub cohort: u64,
    pub outsiders_tracked: u64,
    /// Valid samples by platform.
    pub valid_samples: Vec<(String, u64)>,
    /// Stored matches by how many of their players have a full history.
    pub readiness_histogram: [u64; 11],
}

/// How many slots of a row are full.
pub open spec fn full_slots(row: Seq<u8>, k: int) -> int
    decreases k,
{
    if k <= 0 {
        0
    } else {
        full_slots(row, k - 1) + (if row[k - 1] >= HISTORY_REQUIRED {
            1int
        } else {
            0int
        })
    }
}

/// The players with a task of a bucket on a platform.
pub open spec fn queued_in(s: StoreV, platform: Seq<char>, bucket: u8) -> Set<u32> {
    s.frontier.dom().filter(
        |p: u32| s.frontier[p].platform == platform && s.frontier[p].bucket == bucket,
    )
}

/// The stored games, with their platforms, of which `k` players have a full
/// history.
pub open spec fn ready_games(s: StoreV, k: int) -> Set<(Seq<char>, u64)> {
    Set::new(
        |g: (Seq<char>, u64)|
            s.progress.contains_key(g.0) && s.progress[g.0].contains_key(g.1) && slotted(
                s.progress[g.0][g.1],
            ) && full_slots(s.progress[g.0][g.1], SLOTS as int) == k,
    )
}

/// A count that stops at the largest number of 64 bits.
pub open spec fn capped(n: nat) -> int {
    if n <= u64::MAX {
        n as int
    } else {
        u64::MAX as int
    }
}

fn count_full(row: &Vec<u8>) -> (res: usize)
    requires
        slotted(row@),
    ensures
        res == full_slots(row@, SLOTS as int),
        res <= SLOTS,
{
    let mut n: usize = 0;
    let mut i: usize = 0;
    while i < SLOTS
        invariant
            slotted(row@),
            i <= SLOTS,
            n <= i,
            n == full_slots(row@, i as int),
        decreases SLOTS - i,
    {
        if row[i] >= HISTORY_REQUIRED {
            n = n + 1;
        }
        i = i + 1;
    }
    n
}

impl Store {
    /// The queued tasks by platform and bucket.
    fn frontier_tallies(&self) -> (res: Vec<(String, u8, u64)>)
        requires
            self.wf(),
        ensures
            tally_sorted(res@),
            forall|n: Seq<char>, b: u8, c: int| #[trigger]
                tallies(res@, n, b, c) <==> c > 0 && c == queued_in(self@, n, b).len(),
    {
        let players = self.frontier.players();
        let mut out: Vec<(String, u8, u64)> = Vec::new();
        let mut i: usize = 0;
        proof {
            assert forall|n: Seq<char>, b: u8| #[trigger]
                tally_of(self@, players@.take(0), n, b) == 0 by {
                assert(players@.take(0).to_set().filter(
                    |p: u32| self@.frontier[p].platform == n && self@.frontier[p].bucket == b,
                ) =~= Set::empty());
            }
        }
        while i < players.len()
            invariant
                self.wf(),
                i <= players@.len(),
                players@.no_duplicates(),
                players@.to_set() == self@.frontier.dom(),
                tally_sorted(out@),
                forall|n: Seq<char>, b: u8| #[trigger]
                    tally_of(self@, players@.take(i as int), n, b) <= i,
                forall|n: Seq<char>, b: u8, c: int| #[trigger]
                    tallies(out@, n, b, c) <==> c > 0 && c == tally_of(
                        self@,
                        players@.take(i as int),
                        n,
                        b,
                    ),
            decreases players@.len() - i,
        {
            let p: u32 = players[i];
            let ghost was = out@;
            let ghost done = players@.take(i as int);
            let ghost next = players@.take(i + 1);
            proof {
                assert(players@.to_set().contains(p));
                assert forall|n: Seq<char>, b: u8| #[trigger]
                    tally_of(self@, next, n, b) == tally_of(self@, done, n, b) + (if
                    self@.frontier[p].platform == n && self@.frontier[p].bucket == b {
                        1int
                    } else {
                        0int
                    }) && tally_of(self@, next, n, b) <= i + 1 by {
                    let f = |q: u32|
                        self@.frontier[q].platform == n && self@.frontier[q].bucket == b;
                    lemma_count(players@, f, i as int);
                }
                assert forall|j: int| 0 <= j < out@.len() implies (#[trigger] out@[j]).2
                    < u64::MAX by {
                    assert(tallies(out@, out@[j].0@, out@[j].1, out@[j].2 as int));
                }
            }
            match self.frontier.get(p) {
                Some(q) => {
                    tally(&mut out, q.platform.as_str(), q.bucket);
                    proof {
                        let name = q.platform@;
                        let bucket = q.bucket;
                        assert forall|n: Seq<char>, b: u8, c: int| #[trigger]
                            tallies(out@, n, b, c) <==> c > 0 && c == tally_of(
                            self@,
                            next,
                            n,
                            b,
                        ) by {
                            let t = tally_of(self@, done, n, b);
                            if n == name && b == bucket {
                                assert(tallies(was, n, b, t) <==> t > 0);
                                assert(tallies(was, n, b, c - 1) <==> c - 1 > 0 && c - 1 == t);
                                if t == 0 {
                                    assert forall|d: int| !#[trigger] tallies(was, n, b, d) by {}
                                }
                            } else {
                                assert(tallies(was, n, b, c) <==> c > 0 && c == t);
                            }
                        }
                    }
                },
                None => {
                    assert(false);
                },
            }
            i = i + 1;
        }
        proof {
            assert(players@.take(i as int) =~= players@);
            assert forall|n: Seq<char>, b: u8, c: int| #[trigger] tallies(out@, n, b, c) <==> c > 0
                && c == queued_in(self@, n, b).len() by {
                assert(tally_of(self@, players@, n, b) == queued_in(self@, n, b).len());
            }
        }
        out
    }

    /// The games seen by platform.
    fn seen_totals(&self) -> (res: Vec<(String, u64)>)
        requires
            self.wf(),
        ensures
            name_sorted(res@),
            forall|n: Seq<char>| #[trigger] names(res@, n) <==> self@.seen.contains_key(n),
            forall|n: Seq<char>, v: u64| #[trigger]
                lists(res@, n, v) && self@.seen[n].len() <= u64::MAX ==> v == self@.seen[n].len(),
    {
        let mut out: Vec<(String, u64)> = Vec::new();
        let len: usize = self.seen.len();
        let ghost all = self.seen.names();
        proof {
            self.seen.lemma_names();
        }
        let mut i: usize = 0;
        assert(forall|n: Seq<char>| !all.take(0).contains(n));
        while i < len
            invariant
                self.wf(),
                all == self.seen.names(),
                len == all.len(),
                i <= len,
                name_sorted(out@),
                forall|n: Seq<char>| #[trigger]
                    names(out@, n) <==> all.take(i as int).contains(n),
                forall|n: Seq<char>, v: u64| #[trigger]
                    lists(out@, n, v) && self@.seen[n].len() <= u64::MAX ==> v
                        == self@.seen[n].len(),
            decreases len - i,
        {
            let (name, seen) = self.seen.entry(i);
            insert_by_name(&mut out, name.clone(), seen.len());
            proof {
                lemma_take_contains(all, i as int);
            }
            i = i + 1;
        }
        proof {
            assert(all.take(i as int) =~= all);
            assert forall|n: Seq<char>| #[trigger] names(out@, n) <==> self@.seen.contains_key(
                n,
            ) by {
                assert(self.seen@.contains_key(n) <==> all.contains(n));
            }
        }
        out
    }

    /// Stored matches by how many of their players have a full history.
    fn readiness(&self) -> (res: Vec<u64>)
        requires
            self.wf(),
        ensures
            res@.len() == 11,
            forall|k: int| 0 <= k < 11 ==> #[trigger] res@[k] == capped(ready_games(self@, k).len()),
    {
        let mut hist: Vec<u64> = vec![0, 0, 0, 0, 0, 0, 0, 0, 0, 0, 0];
        let len: usize = self.progress.len();
        let ghost all = self.progress.names();
        let ghost mut done: Set<(Seq<char>, u64)> = Set::empty();
        proof {
            self.progress.lemma_names();
            assert forall|k: int| 0 <= k < 11 implies #[trigger] hist@[k] == capped(
                done.intersect(ready_games(self@, k)).len(),
            ) by {
                assert(done.intersect(ready_games(self@, k)) =~= Set::empty());
            }
        }
        let mut i: usize = 0;
        while i < len
            invariant
                self.wf(),
                all == self.progress.names(),
                all.no_duplicates(),
                forall|n: Seq<char>| #[trigger]
                    self.progress@.contains_key(n) <==> all.contains(n),
                len == all.len(),
                i <= len,
                hist@.len() == 11,
                done.finite(),
                forall|g: (Seq<char>, u64)| #[trigger]
                    done.contains(g) <==> all.take(i as int).contains(g.0)
                        && self@.progress[g.0].contains_key(g.1),
                forall|k: int|
                    0 <= k < 11 ==> #[trigger] hist@[k] == capped(
                        done.intersect(ready_games(self@, k)).len(),
                    ),
            decreases len - i,
        {
            let (name, rows) = self.progress.entry(i);
            let ghost n = all[i as int];
            assert(all.contains(n));
            assert(self.progress@.contains_key(n));
            assert(rows.wf());
            assert(self@.progress[n] == rows@);
            proof {
                lemma_take_contains(all, i as int);
                assert(!all.take(i as int).contains(n)) by {
                    if all.take(i as int).contains(n) {
                        let sub = all.take(i as int);
                        let j = choose|j: int| 0 <= j < sub.len() && sub[j] == n;
                        assert(all[j] == all[i as int]);
                    }
                }
            }
            let games = rows.keys();
            let ghost base = done;
            let mut j: usize = 0;
            while j < games.len()
                invariant
                    self.wf(),
                    rows.wf(),
                    self@.progress.contains_key(n),
                    self@.progress[n] == rows@,
                    j <= games@.len(),
                    games@.no_duplicates(),
                    games@.to_set() == rows@.dom(),
                    hist@.len() == 11,
                    done.finite(),
                    forall|g: u64| !base.contains((n, g)),
                    forall|g: (Seq<char>, u64)| #[trigger]
                        done.contains(g) <==> base.contains(g) || (g.0 == n && games@.take(
                            j as int,
                        ).contains(g.1)),
                    forall|k: int|
                        0 <= k < 11 ==> #[trigger] hist@[k] == capped(
                            done.intersect(ready_games(self@, k)).len(),
                        ),
                decreases games@.len() - j,
            {
                let game: u64 = games[j];
                let ghost g = (n, game);
                let ghost h0 = hist@;
                let ghost d0 = done;
                proof {
                    assert(games@.to_set().contains(game));
                    assert(!d0.contains(g)) by {
                        if games@.take(j as int).contains(game) {
                            let sub = games@.take(j as int);
                            let x = choose|x: int| 0 <= x < sub.len() && sub[x] == game;
                            assert(games@[x] == games@[j as int]);
                        }
                    }
                }
                match rows.get(game) {
                    Some(row) => {
                        if row.len() == SLOTS + 1 {
                            let k: usize = count_full(row);
                            let n1: u64 = hist[k];
                            hist.set(
                                k,
                                if n1 == u64::MAX {
                                    n1
                                } else {
                                    n1 + 1
                                },
                            );
                        }
                    },
                    None => {
                        assert(false);
                    },
                }
                proof {
                    done = d0.insert(g);
                    let row = rows@[game];
                    assert forall|k: int| 0 <= k < 11 implies #[trigger] hist@[k] == capped(
                        done.intersect(ready_games(self@, k)).len(),
                    ) by {
                        let part = d0.intersect(ready_games(self@, k));
                        assert(h0[k] == capped(part.len()));
                        if slotted(row) && full_slots(row, SLOTS as int) == k {
                            assert(ready_games(self@, k).contains(g));
                            assert(done.intersect(ready_games(self@, k)) =~= part.insert(g));
                        } else {
                            assert(!ready_games(self@, k).contains(g));
                            assert(done.intersect(ready_games(self@, k)) =~= part);
                        }
                    }
                    assert forall|x: (Seq<char>, u64)| #[trigger] done.contains(x) <==>
                        base.contains(x) || (x.0 == n && games@.take(j + 1).contains(x.1)) by {
                        lemma_take_has(games@, j as int);
                    }
                }
                j = j + 1;
            }
            proof {
                assert(games@.take(j as int) =~= games@);
                assert forall|g: (Seq<char>, u64)| #[trigger] done.contains(g) <==> all.take(
                    i + 1,
                ).contains(g.0) && self@.progress[g.0].contains_key(g.1) by {
                    assert(games@.contains(g.1) <==> games@.to_set().contains(g.1));
                }
            }
            i = i + 1;
        }
        proof {
            assert(all.take(i as int) =~= all);
            assert forall|k: int| 0 <= k < 11 implies #[trigger] hist@[k] == capped(
                ready_games(self@, k).len(),
            ) by {
                assert forall|g: (Seq<char>, u64)| ready_games(self@, k).contains(
                    g,
                ) implies done.contains(g) by {
                    assert(self.progress@.contains_key(g.0));
                }
                assert(done.intersect(ready_games(self@, k)) =~= ready_games(self@, k));
            }
        }
        hist
    }

    /// What the store holds, in numbers. How many rank snapshots and games by
    /// player are stored is given.
    pub fn debug_stats(&self, rank_snapshots: u64, player_timeline_entries: u64) -> (res:
        StoreStats)
        requires
            self.wf(),
        ensures
            res.players == self@.players.len(),
            res.rank_snapshots == rank_snapshots,
            res.player_timeline_entries == player_timeline_entries,
            tally_sorted(res.frontier@),
            forall|n: Seq<char>, b: u8, c: int| #[trigger]
                tallies(res.frontier@, n, b, c) <==> c > 0 && c == queued_in(self@, n, b).len(),
            name_sorted(res.seen@),
            forall|n: Seq<char>| #[trigger] names(res.seen@, n) <==> self@.seen.contains_key(n),
            forall|n: Seq<char>, v: u64| #[trigger]
                lists(res.seen@, n, v) && self@.seen[n].len() <= u64::MAX ==> v
                    == self@.seen[n].len(),
            res.cohort == self@.cohort.dom().len(),
            res.outsiders_tracked == self@.outsiders.dom().len(),
            name_sorted(res.valid_samples@),
            forall|n: Seq<char>, v: u64| #[trigger]
                lists(res.valid_samples@, n, v) <==> self@.valid.contains_key(n) && self@.valid[n]
                    == v,
            forall|k: int|
                0 <= k < 11 ==> #[trigger] res.readiness_histogram@[k] == capped(
                    ready_games(self@, k).len(),
                ),
    {
        let h = self.readiness();
        StoreStats {
            players: self.players.len() as u64,
            rank_snapshots,
            player_timeline_entries,
            frontier: self.frontier_tallies(),
            seen: self.seen_totals(),
            cohort: self.cohort.len() as u64,
            outsiders_tracked: self.outsiders.len() as u64,
            valid_samples: self.valid_sample_totals(),
            readiness_histogram: [
                h[0],
                h[1],
                h[2],
                h[3],
                h[4],
                h[5],
                h[6],
                h[7],
                h[8],
                h[9],
                h[10],
            ],
        }
    }
}

/// How many of the players have a task of a bucket on a platform.
spec fn tally_of(s: StoreV, players: Seq<u32>, platform: Seq<char>, bucket: u8) -> int {
    players.to_set().filter(
        |p: u32| s.frontier[p].platform == platform && s.frontier[p].bucket == bucket,
    ).len() as int
}

proof fn lemma_take_has(keys: Seq<u64>, k: int)
    requires
        0 <= k < keys.len(),
    ensures
        forall|n: u64| #[trigger]
            keys.take(k + 1).contains(n) <==> keys.take(k).contains(n) || n == keys[k],
{
    let now = keys.take(k + 1);
    let was = keys.take(k);
    assert forall|n: u64| #[trigger] now.contains(n) <==> was.contains(n) || n == keys[k] by {
        if now.contains(n) {
            let i = choose|i: int| 0 <= i < now.len() && now[i] == n;
            if i < k {
                assert(was[i] == n);
            }
        }
        if was.contains(n) {
            let i = choose|i: int| 0 <= i < was.len() && was[i] == n;
            assert(now[i] == n);
        }
        if n == keys[k] {
            assert(now[k] == n);
        }
    }
}

// ---- opening ----

/// What is stored of a crawled platform beside its games.
pub struct PlatformRows {
    pub bitmap: Option<Vec<u8>>,
    pub valid: Option<Vec<u8>>,
}

/// The stored tables, row by row.
pub struct StoreRows {
    pub players: Vec<(String, u32)>,
    pub cohort: Vec<(u32, Member)>,
    pub outsiders: Vec<(u32, u32)>,
    pub progress: Vec<(String, u64, Vec<u8>)>,
    pub played: Vec<(u32, Played)>,
    pub frontier: Vec<(u32, Queued)>,
    pub nodes: Vec<(u32, NodeRec)>,
    pub meta: Vec<(String, Vec<u8>)>,
    /// One for each crawled region, in the order of the region table.
    pub platforms: Vec<PlatformRows>,
}

#[derive(Clone, Copy, Debug, PartialEq, Eq, Structural)]
pub enum OpenError {
    /// A bitmap that cannot be read.
    Bitmap,
}

impl OpenError {
    pub fn message(&self) -> (res: String)
        ensures
            res@ == (match *self {
                OpenError::Bitmap => "unreadable seen bitmap"@,
            }),
    {
        match *self {
            OpenError::Bitmap => "unreadable seen bitmap".to_string(),
        }
    }
}

/// A stored 32-bit number; other bytes count as zero.
pub open spec fn stored_u32(bytes: Seq<u8>) -> u32 {
    if bytes.len() == 4 {
        le_value(bytes) as u32
    } else {
        0
    }
}

/// A stored 64-bit number; other bytes count as zero.
pub open spec fn stored_u64(bytes: Seq<u8>) -> u64 {
    if bytes.len() == 8 {
        le_value(bytes) as u64
    } else {
        0
    }
}

/// The ids of the stored players.
pub open spec fn players_map(rows: Seq<(String, u32)>) -> Map<Seq<char>, u32>
    decreases rows.len(),
{
    if rows.len() == 0 {
        Map::empty()
    } else {
        players_map(rows.drop_last()).insert(rows.last().0@, rows.last().1)
    }
}

/// The names of the stored players, by id.
pub open spec fn names_map(rows: Seq<(String, u32)>) -> Map<u32, Seq<char>>
    decreases rows.len(),
{
    if rows.len() == 0 {
        Map::empty()
    } else {
        names_map(rows.drop_last()).insert(rows.last().1, rows.last().0@)
    }
}

/// The first id that is above those of all stored players.
pub open spec fn id_above(rows: Seq<(String, u32)>) -> int
    decreases rows.len(),
{
    if rows.len() == 0 {
        1
    } else {
        let rest = id_above(rows.drop_last());
        if rest > rows.last().1 + 1 {
            rest
        } else {
            rows.last().1 + 1
        }
    }
}

/// The stored games of the players.
pub open spec fn played_map(rows: Seq<(u32, Played)>) -> Map<u32, Seq<Played>>
    decreases rows.len(),
{
    if rows.len() == 0 {
        Map::empty()
    } else {
        let rest = played_map(rows.drop_last());
        let (player, e) = rows.last();
        rest.insert(player, placed(games_of(rest, player), e))
    }
}

/// The stored rows of a platform.
pub open spec fn progress_rows(rows: Seq<(String, u64, Vec<u8>)>, platform: Seq<char>) -> Map<
    u64,
    Seq<u8>,
>
    decreases rows.len(),
{
    if rows.len() == 0 {
        Map::empty()
    } else {
        let rest = progress_rows(rows.drop_last(), platform);
        if rows.last().0@ == platform {
            rest.insert(rows.last().1, rows.last().2@)
        } else {
            rest
        }
    }
}

/// The stored cursors.
pub open spec fn meta_map(rows: Seq<(String, Vec<u8>)>) -> Map<Seq<char>, u32>
    decreases rows.len(),
{
    if rows.len() == 0 {
        Map::empty()
    } else {
        meta_map(rows.drop_last()).insert(rows.last().0@, stored_u32(rows.last().1@))
    }
}

fn read_u32(bytes: &Vec<u8>) -> (res: u32)
    ensures
        res == stored_u32(bytes@),
{
    if bytes.len() == 4 {
        assert(bytes@.subrange(0, 4) =~= bytes@);
        get_u32(bytes.as_slice(), 0)
    } else {
        0
    }
}

fn read_u64(bytes: &Vec<u8>) -> (res: u64)
    ensures
        res == stored_u64(bytes@),
{
    if bytes.len() == 8 {
        assert(bytes@.subrange(0, 8) =~= bytes@);
        get_u64(bytes.as_slice(), 0)
    } else {
        0
    }
}

proof fn lemma_players(rows: Seq<(String, u32)>)
    requires
        forall|i: int| 0 <= i < rows.len() ==> (#[trigger] rows[i]).1 < u32::MAX,
        forall|i: int, j: int|
            0 <= i < j < rows.len() ==> (#[trigger] rows[i]).0@ != (#[trigger] rows[j]).0@,
    ensures
        1 <= id_above(rows) <= u32::MAX,
        ids_ok(players_map(rows), names_map(rows), id_above(rows) as u32),
        forall|p: Seq<char>| #[trigger]
            players_map(rows).contains_key(p) ==> exists|i: int|
                0 <= i < rows.len() && (#[trigger] rows[i]).0@ == p,
    decreases rows.len(),
{
    if rows.len() > 0 {
        let rest = rows.drop_last();
        assert forall|i: int| 0 <= i < rest.len() implies (#[trigger] rest[i]).1 < u32::MAX by {
            assert(rest[i] == rows[i]);
        }
        assert forall|i: int, j: int| 0 <= i < j < rest.len() implies (#[trigger] rest[i]).0@ != (
        #[trigger] rest[j]).0@ by {
            assert(rest[i] == rows[i] && rest[j] == rows[j]);
        }
        lemma_players(rest);
        let last = rows.last();
        assert(rows[rows.len() - 1] == last);
        let p0 = players_map(rest);
        let n0 = names_map(rest);
        assert(!p0.contains_key(last.0@)) by {
            if p0.contains_key(last.0@) {
                let i = choose|i: int| 0 <= i < rest.len() && (#[trigger] rest[i]).0@ == last.0@;
                assert(rows[i].0@ == rows[rows.len() - 1].0@);
            }
        }
        let p1 = players_map(rows);
        let n1 = names_map(rows);
        assert forall|p: Seq<char>| #[trigger] p1.contains_key(p) implies p1[p] < id_above(rows)
            && n1.contains_key(p1[p]) && exists|i: int|
            0 <= i < rows.len() && (#[trigger] rows[i]).0@ == p by {
            if p == last.0@ {
                assert(rows[rows.len() - 1].0@ == p);
            } else {
                assert(p0.contains_key(p));
                let i = choose|i: int| 0 <= i < rest.len() && (#[trigger] rest[i]).0@ == p;
                assert(rows[i].0@ == p);
            }
        }
        assert forall|id: u32| #[trigger] n1.contains_key(id) implies id < id_above(rows)
            && p1.contains_key(n1[id]) && p1[n1[id]] == id by {
            if id != last.1 {
                assert(n0.contains_key(id));
                assert(p0.contains_key(n0[id]));
            }
        }
    }
}

impl Store {
    /// The store of nothing yet.
    fn empty() -> (res: Self)
        ensures
            res.wf(),
            res@ == (StoreV {
                players: Map::empty(),
                names: Map::empty(),
                next_player_id: 1,
                cohort: Map::empty(),
                outsiders: Map::empty(),
                valid: Map::empty(),
                progress: Map::empty(),
                played: Map::empty(),
                frontier: Map::empty(),
                seen: Map::empty(),
                seen_unsaved: false,
                writers: Map::empty(),
                ranks: Seq::empty(),
                meta: Map::empty(),
                meta_unsaved: Seq::empty(),
                nodes: Map::empty(),
            }),
            res.saved() == tables_of(res@),
    {
        let res = Store {
            players: StringHashMap::new(),
            names: Table::new(),
            next_player_id: 1,
            cohort: Table::new(),
            outsiders: Table::new(),
            valid: Named::new(),
            progress: Named::new(),
            played: History::new(),
            frontier: Frontier::new(),
            seen: Named::new(),
            seen_unsaved: false,
            writers: Named::new(),
            ranks: Vec::new(),
            meta: Named::new(),
            meta_unsaved: Vec::new(),
            nodes: Table::new(),
        };
        proof {
            assert(res@.names =~= Map::empty());
            assert(res@.progress =~= Map::empty());
            assert(res@.seen =~= Map::empty());
            assert(res@.writers =~= Map::empty());
            assert(res@.meta_unsaved =~= Seq::empty());
            assert(res.saved().names =~= res@.names);
            assert(res.saved().progress =~= tables_of(res@).progress);
        }
        res
    }

    fn load_players(&mut self, rows: &Vec<(String, u32)>)
        requires
            old(self).wf(),
            old(self)@.players == Map::<Seq<char>, u32>::empty(),
            old(self)@.names == Map::<u32, Seq<char>>::empty(),
            old(self)@.next_player_id == 1,
            forall|i: int| 0 <= i < rows@.len() ==> (#[trigger] rows@[i]).1 < u32::MAX,
            forall|i: int, j: int|
                0 <= i < j < rows@.len() ==> (#[trigger] rows@[i]).0@ != (#[trigger] rows@[j]).0@,
        ensures
            final(self).wf(),
            final(self)@ == (StoreV {
                players: players_map(rows@),
                names: names_map(rows@),
                next_player_id: id_above(rows@) as u32,
                ..old(self)@
            }),
            final(self).saved() == (SavedV { names: names_map(rows@), ..old(self).saved() }),
    {
        let ghost start = *self;
        let mut i: usize = 0;
        assert(rows@.take(0) =~= Seq::empty());
        while i < rows.len()
            invariant
                self.wf(),
                i <= rows@.len(),
                forall|j: int| 0 <= j < rows@.len() ==> (#[trigger] rows@[j]).1 < u32::MAX,
                forall|k: int, j: int|
                    0 <= k < j < rows@.len() ==> (#[trigger] rows@[k]).0@ != (
                    #[trigger] rows@[j]).0@,
                self@ == (StoreV {
                    players: players_map(rows@.take(i as int)),
                    names: names_map(rows@.take(i as int)),
                    next_player_id: id_above(rows@.take(i as int)) as u32,
                    ..start@
                }),
                self.saved() == start.saved(),
            decreases rows@.len() - i,
        {
            let ghost was = *self;
            let ghost next = rows@.take(i + 1);
            let (puuid, id) = &rows[i];
            let id: u32 = *id;
            proof {
                assert(next.drop_last() =~= rows@.take(i as int));
                assert forall|j: int| 0 <= j < next.len() implies (#[trigger] next[j]).1
                    < u32::MAX by {
                    assert(next[j] == rows@[j]);
                }
                assert forall|k: int, j: int| 0 <= k < j < next.len() implies (
                #[trigger] next[k]).0@ != (#[trigger] next[j]).0@ by {
                    assert(next[k] == rows@[k] && next[j] == rows@[j]);
                }
                lemma_players(next);
                let rest = rows@.take(i as int);
                assert forall|j: int| 0 <= j < rest.len() implies (#[trigger] rest[j]).1
                    < u32::MAX by {
                    assert(rest[j] == rows@[j]);
                }
                assert forall|k: int, j: int| 0 <= k < j < rest.len() implies (
                #[trigger] rest[k]).0@ != (#[trigger] rest[j]).0@ by {
                    assert(rest[k] == rows@[k] && rest[j] == rows@[j]);
                }
                lemma_players(rest);
                assert(rows@[i as int].1 < u32::MAX);
            }
            self.players.insert(puuid.clone(), id);
            let _ = self.names.put(id, puuid.clone());
            if id + 1 > self.next_player_id {
                self.next_player_id = id + 1;
            }
            proof {
                assert(self@.names =~= was@.names.insert(id, puuid@));
                assert(self@ =~= StoreV {
                    players: players_map(next),
                    names: names_map(next),
                    next_player_id: id_above(next) as u32,
                    ..start@
                });
                assert(self.saved() =~= was.saved());
            }
            i = i + 1;
        }
        assert(rows@.take(i as int) =~= rows@);
        let ghost was = *self;
        let _ = self.names.take_touched();
        proof {
            assert(self.saved() =~= SavedV { names: names_map(rows@), ..start.saved() });
        }
    }

    fn load_progress(&mut self, rows: &Vec<(String, u64, Vec<u8>)>)
        requires
            old(self).wf(),
            old(self)@.progress == Map::<Seq<char>, Map<u64, Seq<u8>>>::empty(),
        ensures
            final(self).wf(),
            final(self)@ == (StoreV { progress: final(self)@.progress, ..old(self)@ }),
            forall|n: Seq<char>| #[trigger] rows_of(final(self)@, n) == progress_rows(rows@, n),
            final(self).saved() == (SavedV {
                progress: tables_of(final(self)@).progress,
                ..old(self).saved()
            }),
    {
        let ghost start = *self;
        let mut i: usize = 0;
        assert(rows@.take(0) =~= Seq::empty());
        while i < rows.len()
            invariant
                self.wf(),
                i <= rows@.len(),
                self@ == (StoreV { progress: self@.progress, ..start@ }),
                forall|n: Seq<char>| #[trigger]
                    rows_of(self@, n) == progress_rows(rows@.take(i as int), n),
                self.saved() == (SavedV { progress: self.saved().progress, ..start.saved() }),
            decreases rows@.len() - i,
        {
            let ghost was = *self;
            let (platform, game, row) = &rows[i];
            let mut table = match self.progress.take(platform.as_str()) {
                Some(table) => table,
                None => Progress::new(),
            };
            assert(table@ =~= rows_of(was@, platform@));
            table.put(*game, row.clone());
            let ghost value = table@;
            self.progress.put(platform.clone(), table);
            proof {
                let next = rows@.take(i + 1);
                assert(next.drop_last() =~= rows@.take(i as int));
                assert(self@.progress =~= was@.progress.insert(platform@, value));
                assert forall|n: Seq<char>| #[trigger] rows_of(self@, n) == progress_rows(
                    next,
                    n,
                ) by {
                    assert(rows_of(was@, n) == progress_rows(rows@.take(i as int), n));
                }
                assert(self@ =~= StoreV { progress: self@.progress, ..start@ });
                assert(self.saved() =~= SavedV {
                    progress: self.saved().progress,
                    ..start.saved()
                });
            }
            i = i + 1;
        }
        assert(rows@.take(i as int) =~= rows@);
        let _ = self.take_progress();
    }

    fn load_played(&mut self, rows: &Vec<(u32, Played)>)
        requires
            old(self).wf(),
            old(self)@.played == Map::<u32, Seq<Played>>::empty(),
        ensures
            final(self).wf(),
            final(self)@ == (StoreV { played: played_map(rows@), ..old(self)@ }),
            final(self).saved() == (SavedV {
                played: played_map(rows@),
                ..old(self).saved()
            }),
    {
        let ghost start = *self;
        let mut i: usize = 0;
        assert(rows@.take(0) =~= Seq::empty());
        while i < rows.len()
            invariant
                self.wf(),
                i <= rows@.len(),
                self@ == (StoreV { played: played_map(rows@.take(i as int)), ..start@ }),
                self.saved() == start.saved(),
            decreases rows@.len() - i,
        {
            let (player, e) = rows[i];
            let ghost was = *self;
            proof {
                assert(rows@.take(i + 1).drop_last() =~= rows@.take(i as int));
                assert(rows@.take(i + 1).last() == rows@[i as int]);
            }
            self.played.add(player, e);
            assert(self.saved() =~= was.saved());
            i = i + 1;
        }
        assert(rows@.take(i as int) =~= rows@);
        let _ = self.played.take_touched();
        assert(self.saved() =~= SavedV { played: played_map(rows@), ..start.saved() });
    }

    fn load_meta(&mut self, rows: &Vec<(String, Vec<u8>)>)
        requires
            old(self).wf(),
            old(self)@.meta == Map::<Seq<char>, u32>::empty(),
        ensures
            final(self).wf(),
            final(self)@ == (StoreV { meta: meta_map(rows@), ..old(self)@ }),
            final(self).saved() == old(self).saved(),
    {
        let ghost start = *self;
        let mut i: usize = 0;
        assert(rows@.take(0) =~= Seq::empty());
        while i < rows.len()
            invariant
                self.wf(),
                i <= rows@.len(),
                self@ == (StoreV { meta: meta_map(rows@.take(i as int)), ..start@ }),
                self.saved() == start.saved(),
            decreases rows@.len() - i,
        {
            let ghost was = *self;
            let (key, bytes) = &rows[i];
            self.meta.put(key.clone(), read_u32(bytes));
            proof {
                assert(rows@.take(i + 1).drop_last() =~= rows@.take(i as int));
                assert(self.saved() =~= was.saved());
            }
            i = i + 1;
        }
        assert(rows@.take(i as int) =~= rows@);
    }

    fn load_platforms(&mut self, rows: &Vec<PlatformRows>) -> (res: bool)
        requires
            old(self).wf(),
        ensures
            final(self).wf(),
            res ==> final(self).saved() == old(self).saved(),
            res ==> final(self)@ == (StoreV {
                seen: seen_after(old(self)@.seen, enabled_from(0), rows@, 0),
                valid: valid_after(old(self)@.valid, enabled_from(0), rows@, 0),
                ..old(self)@
            }),
            res == bitmaps_read(rows@, enabled_from(0).len() as int),
            res ==> own_games_found(rows@, enabled_from(0).len() as int),
            !res ==> exists|i: int|
                0 <= i < enabled_from(0).len() && no_bitmap(#[trigger] bitmap_at(rows@, i)),
    {
        let regions = enabled_regions();
        let ghost start = *self;
        let ghost regs = regions@;
        let mut i: usize = 0;
        while i < regions.len()
            invariant
                self.wf(),
                regs == regions@,
                regs == enabled_from(0),
                i <= regs.len(),
                self.saved() == start.saved(),
                self@ == (StoreV { seen: self@.seen, valid: self@.valid, ..start@ }),
                valid_after(self@.valid, regs, rows@, i as int) == valid_after(
                    start@.valid,
                    regs,
                    rows@,
                    0,
                ),
                seen_after(self@.seen, regs, rows@, i as int) == seen_after(
                    start@.seen,
                    regs,
                    rows@,
                    0,
                ),
                bitmaps_read(rows@, i as int),
                own_games_found(rows@, i as int),
            decreases regs.len() - i,
        {
            let platform = regions[i].platform;
            let ghost was = *self;
            let mut seen = SeenGames::new();
            if i < rows.len() {
                match &rows[i].bitmap {
                    Some(bytes) => match SeenGames::from_bytes(bytes.as_slice()) {
                        Some(read) => {
                            seen = read;
                        },
                        None => {
                            assert(bitmap_at(rows@, i as int) == Some(bytes@));
                            assert(no_bitmap(bitmap_at(rows@, i as int)));
                            return false;
                        },
                    },
                    None => {},
                }
            }
            let ghost sv = seen@;
            self.seen.put(platform.to_string(), seen);
            let mut total: u64 = 0;
            if i < rows.len() {
                match &rows[i].valid {
                    Some(bytes) => {
                        total = read_u64(bytes);
                    },
                    None => {},
                }
            }
            self.valid.put(platform.to_string(), total);
            proof {
                assert(self@.seen =~= was@.seen.insert(platform@, sv));
                assert(self.saved() =~= was.saved());
            }
            i = i + 1;
        }
        true
    }

    /// The store of what is stored. No two rows of the players have one
    /// puuid, as it is their key.
    pub fn open(rows: StoreRows) -> (res: Result<Store, OpenError>)
        requires
            forall|i: int| 0 <= i < rows.players@.len() ==> (#[trigger] rows.players@[i]).1
                < u32::MAX,
            forall|i: int, j: int|
                0 <= i < j < rows.players@.len() ==> (#[trigger] rows.players@[i]).0@ != (
                #[trigger] rows.players@[j]).0@,
        ensures
            ({
                match res {
                    Err(_) => {
                        &&& !bitmaps_read(rows.platforms@, enabled_from(0).len() as int)
                        &&& exists|i: int|
                            0 <= i < enabled_from(0).len() && no_bitmap(
                                #[trigger] bitmap_at(rows.platforms@, i),
                            )
                    },
                    Ok(store) => {
                        &&& bitmaps_read(rows.platforms@, enabled_from(0).len() as int)
                        &&& own_games_found(rows.platforms@, enabled_from(0).len() as int)
                        &&& store.wf()
                        &&& store.saved() == tables_of(store@)
                        &&& store@ == (StoreV {
                            players: players_map(rows.players@),
                            names: names_map(rows.players@),
                            next_player_id: id_above(rows.players@) as u32,
                            cohort: rows_map(rows.cohort@),
                            outsiders: rows_map(rows.outsiders@),
                            valid: valid_after(
                                Map::empty(),
                                enabled_from(0),
                                rows.platforms@,
                                0,
                            ),
                            progress: store@.progress,
                            played: played_map(rows.played@),
                            frontier: rows_map(rows.frontier@).map_values(|q: Queued| q@),
                            seen: seen_after(
                                Map::empty(),
                                enabled_from(0),
                                rows.platforms@,
                                0,
                            ),
                            seen_unsaved: false,
                            writers: Map::empty(),
                            ranks: Seq::empty(),
                            meta: meta_map(rows.meta@),
                            meta_unsaved: Seq::empty(),
                            nodes: rows_map(rows.nodes@),
                        })
                        &&& forall|n: Seq<char>| #[trigger]
                            rows_of(store@, n) == progress_rows(rows.progress@, n)
                    },
                }
            }),
    {
        let mut store = Store::empty();
        store.load_players(&rows.players);
        store.load_progress(&rows.progress);
        let ghost loaded = store@;
        store.load_played(&rows.played);
        store.load_meta(&rows.meta);
        if !store.load_platforms(&rows.platforms) {
            return Err(OpenError::Bitmap);
        }
        let ghost was = store;
        store.cohort = Table::from_rows(rows.cohort);
        store.outsiders = Table::from_rows(rows.outsiders);
        store.frontier = Frontier::from_rows(rows.frontier);
        store.nodes = Table::from_rows(rows.nodes);
        proof {
            assert(was.saved() == tables_of(was@));
            assert(store@.progress == was@.progress);
            assert forall|n: Seq<char>| #[trigger] rows_of(store@, n) == progress_rows(
                rows.progress@,
                n,
            ) by {
                assert(rows_of(loaded, n) == progress_rows(rows.progress@, n));
            }
            assert(store@ =~= StoreV {
                cohort: rows_map(rows.cohort@),
                outsiders: rows_map(rows.outsiders@),
                frontier: rows_map(rows.frontier@).map_values(|q: Queued| q@),
                nodes: rows_map(rows.nodes@),
                ..was@
            });
            assert(store.saved().names == was.saved().names);
            assert((tables_of(was@).progress) =~= tables_of(store@).progress);
            assert(store.saved().progress =~= tables_of(store@).progress);
            assert(store.saved() =~= tables_of(store@));
        }
        Ok(store)
    }
}

/// The stored bitmap of the `i`-th crawled region.
pub open spec fn bitmap_at(rows: Seq<PlatformRows>, i: int) -> Option<Seq<u8>> {
    if i < rows.len() {
        match rows[i].bitmap {
            Some(bytes) => Some(bytes@),
            None => None,
        }
    } else {
        None
    }
}

/// These bytes cannot be read as a bitmap, and no store wrote them.
pub open spec fn no_bitmap(bytes: Option<Seq<u8>>) -> bool {
    &&& bytes is Some
    &&& treemap_found(bytes->0) is None
    &&& forall|games: Set<u64>| bytes->0 != #[trigger] treemap_bytes(games)
}

/// The bitmaps of the first `n` regions can be read.
pub open spec fn bitmaps_read(rows: Seq<PlatformRows>, n: int) -> bool {
    forall|i: int|
        0 <= i < n ==> (#[trigger] bitmap_at(rows, i) matches Some(b) ==> treemap_found(
            b,
        ) is Some)
}

/// In the bitmaps of the first `n` regions that a store wrote, the games that
/// it had are found.
pub open spec fn own_games_found(rows: Seq<PlatformRows>, n: int) -> bool {
    forall|i: int, games: Set<u64>|
        0 <= i < n && #[trigger] bitmap_at(rows, i) == Some(#[trigger] treemap_bytes(games))
            ==> treemap_found(treemap_bytes(games)) == Some(games)
}

/// The games seen with those of the regions from the `i`-th on loaded.
pub open spec fn seen_after(
    seen: Map<Seq<char>, Set<u64>>,
    regions: Seq<Region>,
    rows: Seq<PlatformRows>,
    i: int,
) -> Map<Seq<char>, Set<u64>>
    decreases regions.len() - i,
{
    if i < 0 || i >= regions.len() {
        seen
    } else {
        let games = match bitmap_at(rows, i) {
            Some(b) => treemap_found(b)->0,
            None => Set::empty(),
        };
        seen_after(seen.insert(regions[i].platform@, games), regions, rows, i + 1)
    }
}

/// The valid samples with those of the regions from the `i`-th on loaded.
pub open spec fn valid_after(
    valid: Map<Seq<char>, u64>,
    regions: Seq<Region>,
    rows: Seq<PlatformRows>,
    i: int,
) -> Map<Seq<char>, u64>
    decreases regions.len() - i,
{
    if i < 0 || i >= regions.len() {
        valid
    } else {
        let total = if i < rows.len() {
            match rows[i].valid {
                Some(bytes) => stored_u64(bytes@),
                None => 0,
            }
        } else {
            0
        };
        valid_after(valid.insert(regions[i].platform@, total), regions, rows, i + 1)
    }
}

// ---- rows, for writing out ----

impl Store {
    /// The name of a player.
    pub fn player_name(&self, id: u32) -> (res: Option<&String>)
        requires
            self.wf(),
        ensures
            match res {
                Some(name) => self@.names.contains_key(id) && name@ == self@.names[id],
                None => !self@.names.contains_key(id),
            },
    {
        self.names.get(id)
    }

    /// When and why a player joined the cohort.
    pub fn member(&self, id: u32) -> (res: Option<&Member>)
        requires
            self.wf(),
        ensures
            match res {
                Some(m) => self@.cohort.contains_key(id) && *m == self@.cohort[id],
                None => !self@.cohort.contains_key(id),
            },
    {
        self.cohort.get(id)
    }

    /// The row of a stored game.
    pub fn progress_row(&self, platform: &str, game_id: u64) -> (res: Option<&Vec<u8>>)
        requires
            self.wf(),
        ensures
            match res {
                Some(row) => rows_of(self@, platform@).contains_key(game_id) && row@ == rows_of(
                    self@,
                    platform@,
                )[game_id],
                None => !rows_of(self@, platform@).contains_key(game_id),
            },
    {
        match self.progress.get(platform) {
            Some(rows) => rows.get(game_id),
            None => None,
        }
    }

    /// The stored games of a player.
    pub fn games(&self, id: u32) -> (res: Option<&Vec<Played>>)
        requires
            self.wf(),
        ensures
            match res {
                Some(games) => self@.played.contains_key(id) && games@ == self@.played[id],
                None => !self@.played.contains_key(id),
            },
    {
        self.played.get(id)
    }

    /// The task of a player.
    pub fn queued(&self, id: u32) -> (res: Option<&Queued>)
        requires
            self.wf(),
        ensures
            match res {
                Some(q) => self@.frontier.contains_key(id) && q@ == self@.frontier[id],
                None => !self@.frontier.contains_key(id),
            },
    {
        self.frontier.get(id)
    }

    /// A node.
    pub fn node(&self, id: u32) -> (res: Option<&NodeRec>)
        requires
            self.wf(),
        ensures
            match res {
                Some(rec) => self@.nodes.contains_key(id) && *rec == self@.nodes[id],
                None => !self@.nodes.contains_key(id),
            },
    {
        self.nodes.get(id)
    }
}

} // verus!
