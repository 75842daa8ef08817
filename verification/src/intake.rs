//! What becomes of a fetched match: it is stored, or noted as one not to fetch
//! again.

use crate::config::QUEUE_ID;
use crate::frontier::{pushed_batch, FrontierTask, TaskV, BUCKET_PRIORITY};
use crate::json::document;
use crate::matchlist::is_new_id;
use crate::parse::{
    law_parsed_match_shape, parse_match, parsed_texts, split_id, split_match_id,
    MatchIdError, ParsedMatch, ParsedV, TimelineInputV,
};
use crate::progress::SLOTS;
use crate::record::{FlatV, MatchRecord, RecordV};
use crate::store::{
    adopted_by, counted, has_room, identified, ids_in, lemma_newcomers, logged, marks, segment_for,
    sighted_all, unwritten, with_ids, Store, StoreV,
};
use crate::text::{same_text, texts};
use vstd::prelude::*;
use vstd::utf8::encode_utf8;

verus! {

/// A match that was stored: the players who joined the cohort with it.
pub struct Stored {
    pub adopted: Vec<(u32, String)>,
}

/// What became of a match.
pub enum Taken {
    /// It is not to be fetched again.
    Skipped,
    Stored(Stored),
}

/// Why a match could not be taken.
#[derive(Clone, Debug, PartialEq, Eq)]
pub enum TakeError {
    BadId(MatchIdError),
    /// A counter is full.
    NoRoom,
    /// Records of an earlier day are to be written first.
    DayOver,
}

/// A ranked match of a platform.
pub open spec fn is_wanted(rec: RecordV, platform: Seq<char>) -> bool {
    rec.queue_id == QUEUE_ID && rec.platform == encode_utf8(platform)
}

/// When a match began.
pub open spec fn begin_ms(rec: RecordV) -> u64 {
    if rec.game_start_ms >= 0 {
        rec.game_start_ms as u64
    } else {
        0
    }
}

/// A record with the ids of its players.
pub open spec fn with_player_ids(rec: RecordV, ids: Seq<u32>) -> RecordV {
    RecordV {
        participants: Seq::new(
            rec.participants.len(),
            |i: int|
                if i < ids.len() {
                    FlatV {
                        row: rec.participants[i].row.update(0, ids[i]),
                        ..rec.participants[i]
                    }
                } else {
                    rec.participants[i]
                },
        ),
        ..rec
    }
}

/// First visits for players who joined.
pub open spec fn joiners(adopted: Seq<(u32, String)>) -> Seq<(u32, TaskV)> {
    adopted.map_values(|a: (u32, String)| (a.0, TaskV { puuid: a.1@, last_visit_ms: 0 }))
}

/// Where and when a match is taken.
pub struct Occasion {
    pub growth_paused: bool,
    pub now_ms: u64,
}

/// The state after a match was counted for its players.
pub open spec fn counts(s: StoreV, platform: Seq<char>, p: ParsedV, growth_paused: bool) -> StoreV {
    counted(
        s,
        platform,
        p.record.game_id,
        p.record.duration_s,
        p.puuids,
        begin_ms(p.record),
        growth_paused,
    )
}

/// A match was stored: counted for its players, appended to the segment of its
/// platform, and noted as seen; those who joined the cohort are queued.
pub open spec fn is_stored(
    a: StoreV,
    b: StoreV,
    platform: Seq<char>,
    p: ParsedV,
    today: Seq<char>,
    on: Occasion,
    out: Stored,
) -> bool {
    let s = counts(a, platform, p, on.growth_paused);
    let ids = ids_in(with_ids(a, p.puuids), p.puuids);
    let places = adopted_by(
        a,
        platform,
        p.record.game_id,
        p.record.duration_s,
        p.puuids,
        begin_ms(p.record),
        on.growth_paused,
    );
    &&& b == (StoreV {
        seen: b.seen,
        seen_unsaved: true,
        writers: a.writers.insert(
            platform,
            logged(segment_for(a, platform, today), with_player_ids(p.record, ids)),
        ),
        frontier: pushed_batch(
            s.frontier,
            platform,
            BUCKET_PRIORITY,
            on.now_ms,
            joiners(out.adopted@),
        ),
        ..s
    })
    &&& marks(s, b, platform, p.record.game_id)
    &&& out.adopted@.len() == places.len()
    &&& forall|j: int|
        0 <= j < places.len() ==> (#[trigger] out.adopted@[j]).0 == ids[places[j]]
            && out.adopted@[j].1@ == p.puuids[places[j]]
}

/// Nothing changed but that a game is noted as seen.
pub open spec fn only_marked(a: StoreV, b: StoreV, platform: Seq<char>, game_id: u64) -> bool {
    b == (StoreV { seen: b.seen, seen_unsaved: true, ..a }) && marks(a, b, platform, game_id)
}

/// What came of a match that could be read, or not.
pub open spec fn is_taken(
    a: StoreV,
    b: StoreV,
    platform: Seq<char>,
    id: (Seq<char>, u64),
    parsed: Option<ParsedV>,
    today: Seq<char>,
    on: Occasion,
    res: Result<Taken, TakeError>,
) -> bool {
    match parsed {
        None => res is Ok && res->Ok_0 is Skipped && only_marked(a, b, id.0, id.1),
        Some(p) => if !is_wanted(p.record, platform) {
            res is Ok && res->Ok_0 is Skipped && only_marked(a, b, id.0, id.1)
        } else if !has_room(
            a,
            platform,
            p.record.game_id,
            p.record.duration_s,
            p.puuids,
            on.growth_paused,
        ) {
            res == Err::<Taken, TakeError>(TakeError::NoRoom) && b == a
        } else if unwritten(a, platform, today) {
            res == Err::<Taken, TakeError>(TakeError::DayOver) && b == a
        } else {
            match res {
                Ok(Taken::Stored(out)) => is_stored(a, b, platform, p, today, on, out),
                _ => false,
            }
        },
    }
}

proof fn lemma_identified(rec: MatchRecord, named: MatchRecord, ids: Seq<u32>)
    requires
        named.participants@ == identified(rec.participants@, ids),
        named == (MatchRecord { participants: named.participants, ..rec }),
    ensures
        named@ == with_player_ids(rec@, ids),
{
    let want = with_player_ids(rec@, ids);
    assert forall|i: int| 0 <= i < rec.participants@.len() implies named@.participants[i]
        == want.participants[i] by {
        if i < ids.len() {
            assert(named.participants@[i]@.row =~= rec.participants@[i]@.row.update(0, ids[i]));
            assert(named.participants@[i]@.lists == rec.participants@[i]@.lists);
        }
    }
    assert(named@.participants =~= want.participants);
}

/// Takes a match that was fetched under an id, once it was parsed; one that
/// could not be parsed is not fetched again.
pub fn take_parsed(
    store: &mut Store,
    platform: &str,
    id: (&str, u64),
    parsed: Option<ParsedMatch>,
    today: &str,
    on: &Occasion,
) -> (res: Result<Taken, TakeError>)
    requires
        old(store).wf(),
        parsed matches Some(p) ==> p.puuids@.len() <= SLOTS,
    ensures
        final(store).wf(),
        final(store).saved() == old(store).saved(),
        is_taken(
            old(store)@,
            final(store)@,
            platform@,
            (id.0@, id.1),
            match parsed {
                Some(p) => Some(p@),
                None => None,
            },
            today@,
            *on,
            res,
        ),
{
    let ghost start = *store;
    let p = match parsed {
        Some(p) => p,
        None => {
            store.mark_seen(id.0, id.1);
            return Ok(Taken::Skipped);
        },
    };
    let ghost pv = p@;
    proof {
        vstd::utf8::encode_utf8_decode_utf8(p.record.platform@);
        vstd::utf8::encode_utf8_decode_utf8(platform@);
    }
    if p.record.queue_id != QUEUE_ID || !same_text(p.record.platform.as_str(), platform) {
        store.mark_seen(id.0, id.1);
        return Ok(Taken::Skipped);
    }
    if !store.room_for(
        platform,
        p.record.game_id,
        p.record.duration_s,
        &p.puuids,
        on.growth_paused,
    ) {
        return Err(TakeError::NoRoom);
    }
    let ghost given = p.record;
    let puuids = p.puuids;
    let mut rec = p.record;
    let ts_ms: u64 = if rec.game_start_ms >= 0 {
        rec.game_start_ms as u64
    } else {
        0
    };
    let outcome = match store.store_match(&mut rec, &puuids, ts_ms, on.growth_paused, today) {
        Ok(outcome) => outcome,
        Err(_) => {
            return Err(TakeError::DayOver);
        },
    };
    let ghost stored = *store;
    proof {
        lemma_identified(given, rec, ids_in(with_ids(start@, pv.puuids), pv.puuids));
    }
    let adopted = outcome.adopted;
    let mut i: usize = 0;
    assert(joiners(adopted@).take(0) =~= Seq::empty());
    while i < adopted.len()
        invariant
            i <= adopted@.len(),
            store.wf(),
            store.saved() == stored.saved(),
            store@ == (StoreV {
                frontier: pushed_batch(
                    stored@.frontier,
                    platform@,
                    BUCKET_PRIORITY,
                    on.now_ms,
                    joiners(adopted@).take(i as int),
                ),
                ..stored@
            }),
        decreases adopted@.len() - i,
    {
        let ghost items = joiners(adopted@).take(i + 1);
        assert(items.drop_last() =~= joiners(adopted@).take(i as int));
        let task = FrontierTask { puuid: adopted[i].1.clone(), last_visit_ms: 0 };
        assert(items.last() == (adopted@[i as int].0, task@));
        store.frontier_push(platform, BUCKET_PRIORITY, on.now_ms, adopted[i].0, &task);
        i = i + 1;
    }
    assert(joiners(adopted@).take(i as int) =~= joiners(adopted@));
    let out = Stored { adopted };
    proof {
        let s = counts(start@, platform@, pv, on.growth_paused);
        assert(texts(puuids@) == pv.puuids);
        assert(marks(s, store@, platform@, pv.record.game_id));
        let t = with_ids(start@, pv.puuids);
        lemma_newcomers(t, ids_in(t, pv.puuids), ts_ms, on.growth_paused);
        assert(is_stored(start@, store@, platform@, pv, today@, *on, out));
    }
    Ok(Taken::Stored(out))
}

/// The parsed form of a match that was found, if it can be read.
pub open spec fn readable(match_json: Option<Seq<char>>, timeline_json: Option<Seq<char>>) -> Option<
    ParsedV,
> {
    match match_json {
        Some(m) => match parsed_texts(m, timeline_json) {
            Ok(p) => Some(p),
            Err(_) => None,
        },
        None => None,
    }
}

/// Takes the answers for a match id: the match, if there is one, and its
/// timeline. A match that does not exist, cannot be read, or is not a ranked
/// one of the platform is not fetched again.
pub fn take_match(
    store: &mut Store,
    platform: &str,
    match_id: &str,
    match_json: Option<&str>,
    timeline_json: Option<&str>,
    today: &str,
    on: &Occasion,
) -> (res: Result<Taken, TakeError>)
    requires
        old(store).wf(),
    ensures
        final(store).wf(),
        final(store).saved() == old(store).saved(),
        match split_id(match_id@) {
            Err(e) => res == Err::<Taken, TakeError>(TakeError::BadId(e)) && final(store)@ == old(
                store,
            )@,
            Ok(id) => is_taken(
                old(store)@,
                final(store)@,
                platform@,
                id,
                readable(
                    match match_json {
                        Some(m) => Some(m@),
                        None => None,
                    },
                    match timeline_json {
                        Some(t) => Some(t@),
                        None => None,
                    },
                ),
                today@,
                *on,
                res,
            ),
        },
{
    let id = match split_match_id(match_id) {
        Ok(id) => id,
        Err(e) => {
            return Err(TakeError::BadId(e));
        },
    };
    let parsed: Option<ParsedMatch> = match match_json {
        Some(m) => match parse_match(m, timeline_json) {
            Ok(p) => Some(p),
            Err(_) => None,
        },
        None => None,
    };
    proof {
        if parsed is Some {
            let p = parsed->0;
            let timeline = match timeline_json {
                None => TimelineInputV::Absent,
                Some(t) => match document(t@) {
                    None => TimelineInputV::NotJson,
                    Some(d) => TimelineInputV::Document(d),
                },
            };
            law_parsed_match_shape(document(match_json->0@)->0, timeline, 0);
            assert(p@.puuids.len() == p.puuids@.len());
        }
    }
    take_parsed(store, platform, id, parsed, today, on)
}

// ---- laws ----

proof fn lemma_ids_keep_seen(s: StoreV, names: Seq<Seq<char>>)
    ensures
        with_ids(s, names).seen == s.seen,
    decreases names.len(),
{
    if names.len() > 0 {
        lemma_ids_keep_seen(s, names.drop_last());
    }
}

proof fn lemma_sightings_keep_seen(s: StoreV, ids: Seq<u32>, ts_ms: u64, growth_paused: bool)
    ensures
        sighted_all(s, ids, ts_ms, growth_paused).seen == s.seen,
    decreases ids.len(),
{
    if ids.len() > 0 {
        lemma_sightings_keep_seen(s, ids.drop_last(), ts_ms, growth_paused);
    }
}

proof fn lemma_counting_keeps_seen(s: StoreV, platform: Seq<char>, p: ParsedV, growth_paused: bool)
    ensures
        counts(s, platform, p, growth_paused).seen == s.seen,
{
    let t = with_ids(s, p.puuids);
    lemma_ids_keep_seen(s, p.puuids);
    lemma_sightings_keep_seen(t, ids_in(t, p.puuids), begin_ms(p.record), growth_paused);
}

/// A match that was passed over is not fetched again.
pub proof fn law_skipped_is_not_fetched_again(
    a: StoreV,
    b: StoreV,
    match_id: Seq<char>,
    platform: Seq<char>,
    game_id: u64,
)
    requires
        split_id(match_id) == Ok::<(Seq<char>, u64), MatchIdError>((platform, game_id)),
        only_marked(a, b, platform, game_id),
    ensures
        !is_new_id(b, platform, match_id),
{
}

/// A match that was stored is not fetched again.
pub proof fn law_stored_is_not_fetched_again(
    a: StoreV,
    b: StoreV,
    match_id: Seq<char>,
    platform: Seq<char>,
    p: ParsedV,
    today: Seq<char>,
    on: Occasion,
    out: Stored,
)
    requires
        split_id(match_id) == Ok::<(Seq<char>, u64), MatchIdError>((platform, p.record.game_id)),
        is_stored(a, b, platform, p, today, on, out),
    ensures
        !is_new_id(b, platform, match_id),
{
    lemma_counting_keeps_seen(a, platform, p, on.growth_paused);
}

} // verus!
