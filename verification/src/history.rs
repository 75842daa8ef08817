//! Which stored games a player took part in, in order of game time.

use std::collections::BTreeMap;
use vstd::prelude::*;

verus! {

/// A stored game of a player: when it was played, and in which slot.
#[derive(Clone, Copy, Debug, PartialEq, Eq, Structural)]
pub struct Played {
    pub ts_ms: u64,
    pub game_id: u64,
    pub slot: u8,
}

/// No two games at one time, the earliest first.
pub open spec fn in_order(games: Seq<Played>) -> bool {
    forall|i: int, j: int|
        0 <= i < j < games.len() ==> (#[trigger] games[i]).ts_ms < (#[trigger] games[j]).ts_ms
}

/// How many of the games were played before `ts`.
pub open spec fn earlier(games: Seq<Played>, ts: int) -> nat
    decreases games.len(),
{
    if games.len() == 0 {
        0
    } else {
        earlier(games.drop_last(), ts) + (if games.last().ts_ms < ts {
            1nat
        } else {
            0nat
        })
    }
}

/// The games with one more, which takes the place of a game at the same time.
pub open spec fn placed(games: Seq<Played>, e: Played) -> Seq<Played> {
    let k = earlier(games, e.ts_ms as int) as int;
    if k < games.len() && games[k].ts_ms == e.ts_ms {
        games.update(k, e)
    } else {
        games.insert(k, e)
    }
}

/// Games in order split at a time into those before it and those from it on.
pub proof fn lemma_earlier(games: Seq<Played>, ts: int)
    requires
        in_order(games),
    ensures
        earlier(games, ts) <= games.len(),
        forall|i: int| 0 <= i < earlier(games, ts) ==> (#[trigger] games[i]).ts_ms < ts,
        forall|i: int| earlier(games, ts) <= i < games.len() ==> (#[trigger] games[i]).ts_ms >= ts,
    decreases games.len(),
{
    if games.len() > 0 {
        let rest = games.drop_last();
        lemma_earlier(rest, ts);
        assert forall|i: int| 0 <= i < earlier(games, ts) implies (#[trigger] games[i]).ts_ms
            < ts by {
            if i < rest.len() {
                assert(rest[i] == games[i]);
                if earlier(rest, ts) <= i {
                    assert(games[i].ts_ms < games.last().ts_ms);
                }
            }
        }
        assert forall|i: int| earlier(games, ts) <= i < games.len() implies (
        #[trigger] games[i]).ts_ms >= ts by {
            if i < rest.len() {
                assert(rest[i] == games[i]);
            } else if games.last().ts_ms < ts && earlier(rest, ts) < rest.len() {
                assert(rest[earlier(rest, ts) as int] == games[earlier(rest, ts) as int]);
                assert(games[earlier(rest, ts) as int].ts_ms < games.last().ts_ms);
            }
        }
    }
}

proof fn lemma_split(games: Seq<Played>, ts: int, k: int)
    requires
        in_order(games),
        0 <= k <= games.len(),
        k == 0 || games[k - 1].ts_ms < ts,
        k == games.len() || games[k].ts_ms >= ts,
    ensures
        earlier(games, ts) == k,
{
    lemma_earlier(games, ts);
    let e = earlier(games, ts) as int;
    if e < k {
        assert(games[k - 1].ts_ms >= ts);
    } else if k < e {
        assert(games[k].ts_ms < ts);
    }
}

/// Placing a game keeps the order, and the game is then there.
pub proof fn lemma_placed(games: Seq<Played>, e: Played)
    requires
        in_order(games),
    ensures
        in_order(placed(games, e)),
        placed(games, e).contains(e),
        forall|g: Played| #[trigger] placed(games, e).contains(g) ==> g == e || games.contains(g),
{
    lemma_earlier(games, e.ts_ms as int);
    let k = earlier(games, e.ts_ms as int) as int;
    let out = placed(games, e);
    let same = k < games.len() && games[k].ts_ms == e.ts_ms;
    assert(out[k] == e);
    assert forall|i: int, j: int| 0 <= i < j < out.len() implies (#[trigger] out[i]).ts_ms < (
    #[trigger] out[j]).ts_ms by {
        let oi = if i <= k || same {
            i
        } else {
            i - 1
        };
        let oj = if j <= k || same {
            j
        } else {
            j - 1
        };
        if i != k {
            assert(out[i] == games[oi]);
        }
        if j != k {
            assert(out[j] == games[oj]);
        }
        if i == k && !same {
            assert(games[oj].ts_ms >= e.ts_ms);
            assert(games[k].ts_ms >= e.ts_ms);
        }
    }
    assert forall|g: Played| #[trigger] out.contains(g) implies g == e || games.contains(g) by {
        let i = choose|i: int| 0 <= i < out.len() && out[i] == g;
        if i != k {
            let oi = if i < k || same {
                i
            } else {
                i - 1
            };
            assert(games[oi] == g);
        }
    }
}

pub proof fn lemma_placed_others(games: Seq<Played>, e: Played, f: Played)
    requires
        in_order(games),
        f.ts_ms != e.ts_ms,
    ensures
        placed(games, e).contains(f) == games.contains(f),
{
    lemma_placed(games, e);
    lemma_earlier(games, e.ts_ms as int);
    let k = earlier(games, e.ts_ms as int) as int;
    let out = placed(games, e);
    let same = k < games.len() && games[k].ts_ms == e.ts_ms;
    if games.contains(f) {
        let i = choose|i: int| 0 <= i < games.len() && games[i] == f;
        let at = if i < k || same {
            i
        } else {
            i + 1
        };
        assert(out[at] == f);
    }
}

/// Storing a game adds one to the count of earlier games of every later time,
/// unless the player already had a game at that time.
pub proof fn law_placed_counts(games: Seq<Played>, e: Played, ts: int)
    requires
        in_order(games),
    ensures
        earlier(placed(games, e), ts) == earlier(games, ts) + (if e.ts_ms < ts && !(exists|i: int|
            0 <= i < games.len() && (#[trigger] games[i]).ts_ms == e.ts_ms) {
            1int
        } else {
            0int
        }),
{
    lemma_earlier(games, e.ts_ms as int);
    lemma_earlier(games, ts);
    lemma_placed(games, e);
    let k = earlier(games, e.ts_ms as int) as int;
    let n = earlier(games, ts) as int;
    let out = placed(games, e);
    let same = k < games.len() && games[k].ts_ms == e.ts_ms;
    if exists|i: int| 0 <= i < games.len() && (#[trigger] games[i]).ts_ms == e.ts_ms {
        let i = choose|i: int| 0 <= i < games.len() && (#[trigger] games[i]).ts_ms == e.ts_ms;
        assert(k <= i);
        assert(k == i) by {
            if k < i {
                assert(games[k].ts_ms < games[i].ts_ms);
            }
        }
        assert(same);
        lemma_split(out, ts, n);
    } else if e.ts_ms < ts {
        assert(!same);
        assert(k <= n) by {
            if n < k {
                assert(games[n].ts_ms < e.ts_ms);
            }
        }
        lemma_split(out, ts, n + 1);
    } else {
        assert(!same);
        assert(n <= k) by {
            if k < n {
                assert(games[k].ts_ms >= e.ts_ms);
            }
        }
        lemma_split(out, ts, n);
    }
}

/// How many of the games were played before `ts`.
pub fn count_earlier(games: &Vec<Played>, ts: u64) -> (res: usize)
    requires
        in_order(games@),
    ensures
        res == earlier(games@, ts as int),
        res <= games@.len(),
{
    let mut lo: usize = 0;
    let mut hi: usize = games.len();
    while lo < hi
        invariant
            in_order(games@),
            lo <= hi <= games@.len(),
            lo == 0 || games@[lo - 1].ts_ms < ts,
            hi == games@.len() || games@[hi as int].ts_ms >= ts,
        decreases hi - lo,
    {
        let mid: usize = lo + (hi - lo) / 2;
        if games[mid].ts_ms < ts {
            lo = mid + 1;
        } else {
            hi = mid;
        }
    }
    proof {
        lemma_split(games@, ts as int, lo as int);
    }
    lo
}

/// Adds a game to a player's games.
pub fn place(games: &mut Vec<Played>, e: Played)
    requires
        in_order(old(games)@),
    ensures
        final(games)@ == placed(old(games)@, e),
        in_order(final(games)@),
{
    let k: usize = count_earlier(games, e.ts_ms);
    proof {
        lemma_placed(games@, e);
    }
    if k < games.len() && games[k].ts_ms == e.ts_ms {
        games.set(k, e);
    } else {
        games.insert(k, e);
    }
}

/// The stored games of every player, with the rows, by player and time, that
/// were touched since the last time that the table was written out.
pub struct History {
    rows: BTreeMap<u32, Vec<Played>>,
    touched: Vec<(u32, u64)>,
    saved: Ghost<Map<u32, Seq<Played>>>,
}

/// The games of a player in a table of them: none where there is no row.
pub open spec fn games_of(rows: Map<u32, Seq<Played>>, player: u32) -> Seq<Played> {
    if rows.contains_key(player) {
        rows[player]
    } else {
        Seq::empty()
    }
}

impl View for History {
    type V = Map<u32, Seq<Played>>;

    closed spec fn view(&self) -> Map<u32, Seq<Played>> {
        self.rows@.map_values(|games: Vec<Played>| games@)
    }
}

/// Every player's games are in order.
pub open spec fn history_ok(rows: Map<u32, Seq<Played>>) -> bool {
    forall|p: u32| #[trigger] rows.contains_key(p) ==> in_order(rows[p])
}

/// A game is among those of a player in both tables, or in neither.
pub open spec fn same_game(
    a: Map<u32, Seq<Played>>,
    b: Map<u32, Seq<Played>>,
    player: u32,
    e: Played,
) -> bool {
    games_of(a, player).contains(e) == games_of(b, player).contains(e)
}

impl History {
    /// What the table held when it was last written out.
    pub closed spec fn saved(&self) -> Map<u32, Seq<Played>> {
        self.saved@
    }

    /// The rows touched since then.
    pub closed spec fn touched(&self) -> Seq<(u32, u64)> {
        self.touched@
    }

    /// The games are in order, and every row that differs from what was
    /// written out is marked.
    pub open spec fn wf(&self) -> bool {
        &&& history_ok(self@)
        &&& forall|p: u32, e: Played| #[trigger]
            same_game(self.saved(), self@, p, e) || self.touched().contains((p, e.ts_ms))
    }

    pub fn new() -> (res: Self)
        ensures
            res.wf(),
            res@ == Map::<u32, Seq<Played>>::empty(),
            res.saved() == Map::<u32, Seq<Played>>::empty(),
            res.touched() == Seq::<(u32, u64)>::empty(),
    {
        let res = History {
            rows: BTreeMap::new(),
            touched: Vec::new(),
            saved: Ghost(Map::empty()),
        };
        assert(res@ =~= Map::empty());
        assert forall|p: u32, e: Played| #[trigger] same_game(res.saved(), res@, p, e)
            || res.touched().contains((p, e.ts_ms)) by {}
        res
    }

    /// The rows that are to be written out; a row may come twice. After this
    /// call they count as written.
    pub fn take_touched(&mut self) -> (res: Vec<(u32, u64)>)
        requires
            old(self).wf(),
        ensures
            final(self).wf(),
            final(self)@ == old(self)@,
            final(self).saved() == old(self)@,
            final(self).touched() == Seq::<(u32, u64)>::empty(),
            res@ == old(self).touched(),
    {
        let mut out: Vec<(u32, u64)> = Vec::new();
        std::mem::swap(&mut out, &mut self.touched);
        self.saved = Ghost(self@);
        assert forall|p: u32, e: Played| #[trigger] same_game(self.saved(), self@, p, e)
            || self.touched().contains((p, e.ts_ms)) by {}
        out
    }

    /// The games of a player, if any are stored.
    pub fn get(&self, player: u32) -> (res: Option<&Vec<Played>>)
        ensures
            match res {
                Some(games) => self@.contains_key(player) && games@ == self@[player],
                None => !self@.contains_key(player),
            },
    {
        self.rows.get(&player)
    }

    /// Adds a game to those of a player.
    pub fn add(&mut self, player: u32, e: Played)
        requires
            old(self).wf(),
        ensures
            final(self).wf(),
            final(self)@ == old(self)@.insert(player, placed(games_of(old(self)@, player), e)),
            final(self).saved() == old(self).saved(),
            final(self).touched() == old(self).touched().push((player, e.ts_ms)),
    {
        let ghost was = self@;
        self.touched.push((player, e.ts_ms));
        let mut games: Vec<Played> = match self.rows.remove(&player) {
            Some(games) => games,
            None => Vec::new(),
        };
        assert(games@ =~= games_of(was, player));
        assert(in_order(games@));
        proof {
            lemma_placed(games@, e);
        }
        let ghost had = games@;
        place(&mut games, e);
        self.rows.insert(player, games);
        proof {
            assert(self@ =~= was.insert(player, placed(had, e)));
            assert forall|p: u32| #[trigger] self@.contains_key(p) implies in_order(self@[p]) by {
                if p != player {
                    assert(was.contains_key(p));
                }
            }
            assert(self.touched()[old(self).touched().len() as int] == (player, e.ts_ms));
            assert forall|p: u32, f: Played| #[trigger] same_game(self.saved(), self@, p, f)
                || self.touched().contains((p, f.ts_ms)) by {
                if p != player || f.ts_ms != e.ts_ms {
                    assert(same_game(old(self).saved(), was, p, f) || old(
                        self,
                    ).touched().contains((p, f.ts_ms)));
                    if old(self).touched().contains((p, f.ts_ms)) {
                        let i = choose|i: int|
                            0 <= i < old(self).touched().len() && old(self).touched()[i] == (
                                p,
                                f.ts_ms,
                            );
                        assert(self.touched()[i] == (p, f.ts_ms));
                    }
                    if p == player {
                        lemma_placed_others(had, e, f);
                    } else {
                        assert(games_of(self@, p) == games_of(was, p));
                    }
                }
            }
        }
    }
}

} // verus!
