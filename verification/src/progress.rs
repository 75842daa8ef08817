//! How far the ten players of each stored game have their earlier games
//! stored too.
//!
//! A game's row is eleven bytes: for each slot the number of stored earlier
//! games of that player, up to the number required, and a flag that is set
//! once all ten slots are full. A stored game that no sample can come from has
//! a row of another length.

use crate::history::Played;
use crate::table::Table;
use vstd::prelude::*;

verus! {

/// Stored earlier games that a player needs for a slot to be full.
pub const HISTORY_REQUIRED: u8 = 20;

pub const SLOTS: usize = 10;

/// A row with slot counts.
pub open spec fn slotted(row: Seq<u8>) -> bool {
    row.len() == SLOTS + 1
}

/// Every slot of a row is full.
pub open spec fn full(row: Seq<u8>) -> bool {
    forall|i: int| 0 <= i < SLOTS ==> #[trigger] row[i] >= HISTORY_REQUIRED
}

/// A row that counts as a valid sample.
pub open spec fn flagged(row: Seq<u8>) -> bool {
    slotted(row) && row[SLOTS as int] != 0
}

/// The first row of a game, from the counts of its slots.
pub open spec fn opening(counts: Seq<u8>) -> Seq<u8> {
    counts.push(
        if full(counts) {
            1u8
        } else {
            0u8
        },
    )
}

/// A row with the flag set if all its slots are full.
pub open spec fn flag_set(row: Seq<u8>) -> Seq<u8> {
    if row[SLOTS as int] == 0 && full(row) {
        row.update(SLOTS as int, 1)
    } else {
        row
    }
}

/// A row after one more earlier game of the player in a slot.
pub open spec fn bumped(row: Seq<u8>, slot: int) -> Seq<u8> {
    flag_set(row.update(slot, (row[slot] + 1) as u8))
}

/// The rows after a player's games from the `i`-th on each have one more
/// earlier game. Counts do not fall as game time goes on, so the walk ends at
/// the first game whose slot is full. Games without slot counts are passed
/// over, and so are those in no slot.
pub open spec fn credited(rows: Map<u64, Seq<u8>>, games: Seq<Played>, i: int) -> Map<u64, Seq<u8>>
    decreases games.len() - i,
{
    if i < 0 || i >= games.len() {
        rows
    } else {
        let g = games[i].game_id;
        let slot = games[i].slot as int;
        if !rows.contains_key(g) || !slotted(rows[g]) || slot >= SLOTS {
            credited(rows, games, i + 1)
        } else if rows[g][slot] >= HISTORY_REQUIRED {
            rows
        } else {
            credited(rows.insert(g, bumped(rows[g], slot)), games, i + 1)
        }
    }
}

/// The games that count as valid samples.
pub open spec fn valid_games(rows: Map<u64, Seq<u8>>) -> Set<u64> {
    rows.dom().filter(|g: u64| flagged(rows[g]))
}

/// No slot counts beyond what is required, and the flag says whether all
/// slots are full.
pub open spec fn row_ok(row: Seq<u8>) -> bool {
    slotted(row) ==> {
        &&& forall|i: int| 0 <= i < SLOTS ==> #[trigger] row[i] <= HISTORY_REQUIRED
        &&& row[SLOTS as int] == (if full(row) {
            1u8
        } else {
            0u8
        })
    }
}

pub open spec fn rows_ok(rows: Map<u64, Seq<u8>>) -> bool {
    forall|g: u64| #[trigger] rows.contains_key(g) ==> row_ok(rows[g])
}

/// A first row is in order if its counts are.
pub proof fn law_opening_is_in_order(counts: Seq<u8>)
    requires
        counts.len() == SLOTS,
        forall|i: int| 0 <= i < SLOTS ==> #[trigger] counts[i] <= HISTORY_REQUIRED,
    ensures
        row_ok(opening(counts)),
{
    let row = opening(counts);
    assert(full(row) == full(counts)) by {
        if full(counts) {
            assert forall|i: int| 0 <= i < SLOTS implies #[trigger] row[i] >= HISTORY_REQUIRED by {
                assert(row[i] == counts[i]);
            }
        }
        if full(row) {
            assert forall|i: int| 0 <= i < SLOTS implies #[trigger] counts[i]
                >= HISTORY_REQUIRED by {
                assert(row[i] == counts[i]);
            }
        }
    }
}

/// One more earlier game in a slot that was not full keeps a row in order.
pub proof fn law_bumped_is_in_order(row: Seq<u8>, slot: int)
    requires
        slotted(row),
        row_ok(row),
        0 <= slot < SLOTS,
        row[slot] < HISTORY_REQUIRED,
    ensures
        slotted(bumped(row, slot)),
        row_ok(bumped(row, slot)),
{
    let up = row.update(slot, (row[slot] + 1) as u8);
    let out = bumped(row, slot);
    assert(!full(row));
    assert(full(out) == full(up)) by {
        assert forall|i: int| 0 <= i < SLOTS implies #[trigger] out[i] == #[trigger] up[i] by {}
    }
    assert forall|i: int| 0 <= i < SLOTS implies #[trigger] out[i] <= HISTORY_REQUIRED by {
        assert(out[i] == up[i]);
        if i != slot {
            assert(up[i] == row[i]);
        }
    }
}

/// Crediting a player's later games keeps every row in order.
pub proof fn law_credit_keeps_rows_in_order(
    rows: Map<u64, Seq<u8>>,
    games: Seq<Played>,
    i: int,
)
    requires
        rows_ok(rows),
        0 <= i,
    ensures
        rows_ok(credited(rows, games, i)),
        credited(rows, games, i).dom() == rows.dom(),
    decreases games.len() - i,
{
    if i < games.len() {
        let g = games[i].game_id;
        let slot = games[i].slot as int;
        if !rows.contains_key(g) || !slotted(rows[g]) || slot >= SLOTS {
            law_credit_keeps_rows_in_order(rows, games, i + 1);
        } else if rows[g][slot] < HISTORY_REQUIRED {
            law_bumped_is_in_order(rows[g], slot);
            let next = rows.insert(g, bumped(rows[g], slot));
            assert(next.dom() =~= rows.dom());
            law_credit_keeps_rows_in_order(next, games, i + 1);
        }
    }
}

/// Replacing a row that was not flagged by one that is adds one valid game;
/// by one that is not, none.
pub proof fn lemma_valid_after(rows: Map<u64, Seq<u8>>, g: u64, row: Seq<u8>)
    requires
        rows.dom().finite(),
        !rows.contains_key(g) || !flagged(rows[g]) || flagged(row),
    ensures
        valid_games(rows).finite(),
        valid_games(rows.insert(g, row)).finite(),
        valid_games(rows.insert(g, row)).len() == valid_games(rows).len() + (if flagged(row) && !(
        rows.contains_key(g) && flagged(rows[g])) {
            1int
        } else {
            0int
        }),
        valid_games(rows).len() <= rows.dom().len(),
{
    let out = rows.insert(g, row);
    let f = |h: u64| flagged(rows[h]);
    rows.dom().lemma_len_filter(f);
    if flagged(row) {
        assert(valid_games(out) =~= valid_games(rows).insert(g));
    } else {
        assert(valid_games(out) =~= valid_games(rows));
    }
}

/// The rows of the stored games of one platform.
pub struct Progress {
    rows: Table<u64, Vec<u8>>,
}

impl View for Progress {
    type V = Map<u64, Seq<u8>>;

    closed spec fn view(&self) -> Map<u64, Seq<u8>> {
        self.rows@.map_values(|row: Vec<u8>| row@)
    }
}

impl Progress {
    pub closed spec fn wf(&self) -> bool {
        self.rows.wf()
    }

    /// What was there when the rows were last written out.
    pub closed spec fn saved(&self) -> Map<u64, Seq<u8>> {
        self.rows.saved().map_values(|row: Vec<u8>| row@)
    }

    /// The games whose rows were touched since then.
    pub closed spec fn touched(&self) -> Seq<u64> {
        self.rows.touched()
    }

    pub proof fn lemma_finite(&self)
        requires
            self.wf(),
        ensures
            self@.dom().finite(),
    {
        self.rows.lemma_finite();
        assert(self@.dom() =~= self.rows@.dom());
    }

    /// Every row that differs from what was written out is marked.
    pub proof fn lemma_unsaved(&self, g: u64)
        requires
            self.wf(),
            !self.touched().contains(g),
        ensures
            crate::table::same_row(self.saved(), self@, g),
    {
        self.rows.lemma_unsaved(g);
    }

    pub fn new() -> (res: Self)
        ensures
            res.wf(),
            res@ == Map::<u64, Seq<u8>>::empty(),
            res.saved() == Map::<u64, Seq<u8>>::empty(),
            res.touched() == Seq::<u64>::empty(),
    {
        let res = Progress { rows: Table::new() };
        assert(res@ =~= Map::empty());
        assert(res.saved() =~= Map::empty());
        res
    }

    pub fn len(&self) -> (res: usize)
        requires
            self.wf(),
        ensures
            res == self@.dom().len(),
    {
        assert(self@.dom() =~= self.rows@.dom());
        self.rows.len()
    }

    pub fn get(&self, game: u64) -> (res: Option<&Vec<u8>>)
        requires
            self.wf(),
        ensures
            match res {
                Some(row) => self@.contains_key(game) && row@ == self@[game],
                None => !self@.contains_key(game),
            },
    {
        self.rows.get(game)
    }

    pub fn put(&mut self, game: u64, row: Vec<u8>)
        requires
            old(self).wf(),
        ensures
            final(self).wf(),
            final(self)@ == old(self)@.insert(game, row@),
            final(self).saved() == old(self).saved(),
            final(self).touched() == old(self).touched().push(game),
    {
        let ghost was = self@;
        let ghost value = row@;
        let _ = self.rows.put(game, row);
        assert(self@ =~= was.insert(game, value));
    }

    pub fn keys(&self) -> (res: Vec<u64>)
        requires
            self.wf(),
        ensures
            res@.to_set() == self@.dom(),
            res@.no_duplicates(),
    {
        assert(self@.dom() =~= self.rows@.dom());
        self.rows.keys()
    }

    /// The games whose rows are to be written out.
    pub fn take_touched(&mut self) -> (res: Vec<u64>)
        requires
            old(self).wf(),
        ensures
            final(self).wf(),
            final(self)@ == old(self)@,
            final(self).saved() == old(self)@,
            final(self).touched() == Seq::<u64>::empty(),
            res@ == old(self).touched(),
    {
        self.rows.take_touched()
    }

    /// Gives one more earlier game to a player's games from the `from`-th on,
    /// and says how many games became valid samples.
    pub fn credit(&mut self, games: &Vec<Played>, from: usize) -> (res: u64)
        requires
            old(self).wf(),
        ensures
            final(self).wf(),
            final(self)@ == credited(old(self)@, games@, from as int),
            final(self)@.dom() == old(self)@.dom(),
            final(self).saved() == old(self).saved(),
            res + valid_games(old(self)@).len() == valid_games(final(self)@).len(),
    {
        let ghost start = self@;
        let mut valid: u64 = 0;
        let mut i: usize = from;
        proof {
            self.lemma_finite();
        }
        while i < games.len()
            invariant
                self.wf(),
                start == old(self)@,
                self@.dom() == start.dom(),
                start.dom().finite(),
                self.saved() == old(self).saved(),
                credited(self@, games@, i as int) == credited(start, games@, from as int),
                valid + valid_games(start).len() == valid_games(self@).len(),
            decreases games@.len() - i,
        {
            let game: u64 = games[i].game_id;
            let slot: usize = games[i].slot as usize;
            let ghost rows = self@;
            let mut row: Vec<u8> = match self.get(game) {
                Some(row) => row.clone(),
                None => Vec::new(),
            };
            if row.len() != SLOTS + 1 || slot >= SLOTS {
                i = i + 1;
                continue;
            }
            assert(row@ == rows[game]);
            if row[slot] >= HISTORY_REQUIRED {
                assert(credited(rows, games@, i as int) == rows);
                return valid;
            }
            let count: u8 = row[slot] + 1;
            row.set(slot, count);
            let now_full = row[SLOTS] == 0 && is_full(&row);
            if now_full {
                row.set(SLOTS, 1);
            }
            proof {
                assert(row@ =~= bumped(rows[game], slot as int));
                lemma_valid_after(rows, game, row@);
                assert(rows.insert(game, row@).dom() =~= rows.dom());
                lemma_valid_count(rows.insert(game, row@));
            }
            self.put(game, row);
            if now_full {
                let len: usize = self.len();
                assert(valid + 1 <= len);
                valid = valid + 1;
            }
            i = i + 1;
        }
        valid
    }
}

proof fn lemma_valid_count(rows: Map<u64, Seq<u8>>)
    requires
        rows.dom().finite(),
    ensures
        valid_games(rows).len() <= rows.dom().len(),
{
    rows.dom().lemma_len_filter(|h: u64| flagged(rows[h]));
}

/// Whether every slot of a row is full.
pub fn is_full(row: &Vec<u8>) -> (res: bool)
    requires
        row@.len() >= SLOTS,
    ensures
        res == full(row@),
{
    let mut i: usize = 0;
    while i < SLOTS
        invariant
            row@.len() >= SLOTS,
            i <= SLOTS,
            forall|j: int| 0 <= j < i ==> #[trigger] row@[j] >= HISTORY_REQUIRED,
        decreases SLOTS - i,
    {
        if row[i] < HISTORY_REQUIRED {
            assert(!(row@[i as int] >= HISTORY_REQUIRED));
            return false;
        }
        i = i + 1;
    }
    true
}

} // verus!
