//! What a crash cannot harm: segments never refer to players that the tables
//! do not know, and bitmaps never claim matches whose bytes were not written.

use crate::columnar::encodings;
use crate::intake::{begin_ms, counts, is_stored, only_marked, with_player_ids, Occasion, Stored};
use crate::parse::ParsedV;
use crate::record::RecordV;
use crate::segment_write::{filled, law_append_fills, WriterV};
use crate::store::{
    are_commit_steps, has_ids, ids_in, ids_ok, lemma_with_ids, marks, rolls, seen_of, segment_for,
    unwritten, with_ids, CommitStep, DayV, StoreV,
};
use crate::store_laws::law_counted_match_is_stored;
use vstd::prelude::*;

verus! {

/// What was written so far, and what was not yet.
#[verifier::ext_equal]
pub struct TraceV {
    /// The players that the tables know.
    pub names: Map<u32, Seq<char>>,
    /// The blocks of the segments, each with its platform.
    pub blocks: Seq<(Seq<char>, Seq<RecordV>)>,
    pub bitmaps: Map<Seq<char>, Set<u64>>,
    /// The games that were skipped for good.
    pub skipped: Set<(Seq<char>, u64)>,
    /// The records that are buffered for the open segments.
    pub buffers: Map<Seq<char>, Seq<RecordV>>,
}

/// The players of a record are known.
pub open spec fn has_players(names: Map<u32, Seq<char>>, r: RecordV) -> bool {
    forall|k: int|
        0 <= k < r.participants.len() ==> names.contains_key((#[trigger] r.participants[k]).row[0])
}

pub open spec fn all_have_players(names: Map<u32, Seq<char>>, records: Seq<RecordV>) -> bool {
    forall|i: int| 0 <= i < records.len() ==> has_players(names, #[trigger] records[i])
}

/// A record of a game is among these.
pub open spec fn holds(records: Seq<RecordV>, game_id: u64) -> bool {
    exists|i: int| 0 <= i < records.len() && (#[trigger] records[i]).game_id == game_id
}

/// A record of a game is in a segment of its platform.
pub open spec fn on_disk(t: TraceV, platform: Seq<char>, game_id: u64) -> bool {
    exists|b: int|
        0 <= b < t.blocks.len() && (#[trigger] t.blocks[b]).0 == platform && holds(
            t.blocks[b].1,
            game_id,
        )
}

/// A record of a game is buffered for its platform.
pub open spec fn is_buffered(t: TraceV, platform: Seq<char>, game_id: u64) -> bool {
    t.buffers.contains_key(platform) && holds(t.buffers[platform], game_id)
}

/// Players keep their names and ids.
pub open spec fn keeps_names(a: Map<u32, Seq<char>>, b: Map<u32, Seq<char>>) -> bool {
    forall|id: u32| #[trigger]
        a.contains_key(id) ==> b.contains_key(id) && b[id] == a[id]
}

/// The buffers of the open segments are those of the trace.
pub open spec fn buffers_agree(t: TraceV, s: StoreV) -> bool {
    &&& t.buffers.dom() == s.writers.dom()
    &&& forall|p: Seq<char>| #[trigger]
        t.buffers.contains_key(p) ==> s.writers[p].writer == filled(t.buffers[p])
}

/// A crash at this moment does no harm.
pub open spec fn is_safe(t: TraceV, s: StoreV) -> bool {
    &&& keeps_names(t.names, s.names)
    &&& forall|b: int|
        0 <= b < t.blocks.len() ==> all_have_players(t.names, (#[trigger] t.blocks[b]).1)
    &&& buffers_agree(t, s)
    &&& forall|p: Seq<char>| #[trigger]
        t.buffers.contains_key(p) ==> all_have_players(s.names, t.buffers[p])
    &&& forall|p: Seq<char>, g: u64|
        #[trigger] seen_of(s, p).contains(g) ==> on_disk(t, p, g)
            || is_buffered(t, p, g) || t.skipped.contains((p, g))
    &&& forall|p: Seq<char>, g: u64|
        t.bitmaps.contains_key(p) && #[trigger] t.bitmaps[p].contains(g) ==> on_disk(t, p, g)
            || t.skipped.contains((p, g))
}

// ---- what happens ----

/// A checkpoint was written.
pub open spec fn checkpointed(t: TraceV, s: StoreV) -> TraceV {
    TraceV { names: s.names, ..t }
}

/// What was buffered for a platform was written to its segment.
pub open spec fn flushed(t: TraceV, platform: Seq<char>) -> TraceV {
    if t.buffers.contains_key(platform) {
        TraceV {
            blocks: if t.buffers[platform].len() > 0 {
                t.blocks.push((platform, t.buffers[platform]))
            } else {
                t.blocks
            },
            buffers: t.buffers.insert(platform, Seq::empty()),
            ..t
        }
    } else {
        t
    }
}

/// The bitmaps were written.
pub open spec fn bitmaps_saved(t: TraceV, s: StoreV) -> TraceV {
    TraceV {
        bitmaps: s.seen,
        ..t
    }
}

/// A record was buffered for a platform.
pub open spec fn recorded(t: TraceV, platform: Seq<char>, r: RecordV) -> TraceV {
    let was = if t.buffers.contains_key(platform) {
        t.buffers[platform]
    } else {
        Seq::empty()
    };
    TraceV { buffers: t.buffers.insert(platform, was.push(r)), ..t }
}

/// The state after the block of a platform's open segment was written.
pub open spec fn emptied(s: StoreV, platform: Seq<char>) -> StoreV {
    if s.writers.contains_key(platform) {
        StoreV {
            writers: s.writers.insert(
                platform,
                DayV {
                    date: s.writers[platform].date,
                    writer: WriterV { buf: Seq::empty(), pending: Seq::empty() },
                },
            ),
            ..s
        }
    } else {
        s
    }
}

/// A step of a commit was done.
pub open spec fn step_done(at: (TraceV, StoreV), step: CommitStep) -> (TraceV, StoreV) {
    match step {
        CommitStep::Checkpoint => (checkpointed(at.0, at.1), at.1),
        CommitStep::Flush(p) => (flushed(at.0, p@), emptied(at.1, p@)),
        CommitStep::Bitmaps => (bitmaps_saved(at.0, at.1), at.1),
    }
}

/// Steps of a commit were done, in order.
pub open spec fn steps_done(at: (TraceV, StoreV), steps: Seq<CommitStep>) -> (TraceV, StoreV)
    decreases steps.len(),
{
    if steps.len() == 0 {
        at
    } else {
        step_done(steps_done(at, steps.drop_last()), steps.last())
    }
}

// ---- laws ----

proof fn lemma_filled_with_none()
    ensures
        filled(Seq::empty()) == (WriterV { buf: Seq::empty(), pending: Seq::empty() }),
{
    assert(encodings(Seq::empty()) =~= Seq::empty());
    assert(filled(Seq::empty()).buf =~= Seq::empty());
    assert(filled(Seq::empty()).pending =~= Seq::empty());
}

/// A writer with nothing pending was filled with nothing.
proof fn lemma_filled_len(records: Seq<RecordV>)
    ensures
        filled(records).pending.len() == records.len(),
{
}

proof fn lemma_all_have_players(
    a: Map<u32, Seq<char>>,
    b: Map<u32, Seq<char>>,
    records: Seq<RecordV>,
)
    requires
        keeps_names(a, b),
        all_have_players(a, records),
    ensures
        all_have_players(b, records),
{
    assert forall|i: int| 0 <= i < records.len() implies has_players(b, #[trigger] records[i]) by {
        assert(has_players(a, records[i]));
    }
}

/// Changes that only add players, and leave buffers and bitmaps as they are,
/// do no harm: enrolling, queueing, and visiting are of this kind.
pub proof fn law_other_changes_are_safe(t: TraceV, a: StoreV, b: StoreV)
    requires
        is_safe(t, a),
        keeps_names(a.names, b.names),
        b.writers == a.writers,
        b.seen == a.seen,
    ensures
        is_safe(t, b),
{
    assert forall|p: Seq<char>| #[trigger] t.buffers.contains_key(p) implies all_have_players(
        b.names,
        t.buffers[p],
    ) by {
        lemma_all_have_players(a.names, b.names, t.buffers[p]);
    }
    assert forall|p: Seq<char>, g: u64|
        #[trigger] seen_of(b, p).contains(g) implies on_disk(t, p, g)
        || is_buffered(t, p, g) || t.skipped.contains((p, g)) by {
        assert(seen_of(b, p) == seen_of(a, p));
        assert(seen_of(a, p).contains(g));
    }
}

/// A game that is skipped for good may be claimed by a bitmap.
pub proof fn law_skipping_is_safe(
    t: TraceV,
    a: StoreV,
    b: StoreV,
    platform: Seq<char>,
    game_id: u64,
)
    requires
        is_safe(t, a),
        only_marked(a, b, platform, game_id),
    ensures
        is_safe(TraceV { skipped: t.skipped.insert((platform, game_id)), ..t }, b),
{
    let u = TraceV { skipped: t.skipped.insert((platform, game_id)), ..t };
    lemma_same_disk(t, u);
    assert forall|p: Seq<char>, g: u64|
        #[trigger] seen_of(b, p).contains(g) implies on_disk(u, p, g)
        || is_buffered(u, p, g) || u.skipped.contains((p, g)) by {
        lemma_marked(a, b, platform, game_id, p);
        if !(p == platform && g == game_id) {
            assert(seen_of(a, p).contains(g));
        }
    }
}

proof fn lemma_marked(a: StoreV, b: StoreV, platform: Seq<char>, game_id: u64, p: Seq<char>)
    requires
        marks(a, b, platform, game_id),
    ensures
        p != platform ==> seen_of(b, p) == seen_of(a, p),
        p == platform ==> seen_of(b, p) == seen_of(a, p).insert(game_id),
{
    assert(b.seen.contains_key(p) <==> b.seen.dom().contains(p));
    assert(a.seen.contains_key(p) <==> a.seen.dom().contains(p));
}

/// What is in segments and buffers stays there.
proof fn lemma_same_disk(t: TraceV, u: TraceV)
    requires
        t.blocks == u.blocks,
        t.buffers == u.buffers,
    ensures
        forall|p: Seq<char>, g: u64| on_disk(t, p, g) == #[trigger] on_disk(u, p, g),
        forall|p: Seq<char>, g: u64| is_buffered(t, p, g) == #[trigger] is_buffered(u, p, g),
{
    assert forall|p: Seq<char>, g: u64| on_disk(t, p, g) == #[trigger] on_disk(u, p, g) by {
        if on_disk(t, p, g) {
            let b = choose|b: int|
                0 <= b < t.blocks.len() && (#[trigger] t.blocks[b]).0 == p && holds(
                    t.blocks[b].1,
                    g,
                );
            assert(u.blocks[b].0 == p);
        }
        if on_disk(u, p, g) {
            let b = choose|b: int|
                0 <= b < u.blocks.len() && (#[trigger] u.blocks[b]).0 == p && holds(
                    u.blocks[b].1,
                    g,
                );
            assert(t.blocks[b].0 == p);
        }
    }
}

/// A checkpoint does no harm, and the segments may be written after it: the
/// tables know the players of all that is buffered.
pub proof fn law_checkpoint_is_safe(t: TraceV, s: StoreV)
    requires
        is_safe(t, s),
    ensures
        is_safe(checkpointed(t, s), s),
        checkpointed(t, s).names == s.names,
{
    let u = checkpointed(t, s);
    lemma_same_disk(t, u);
    assert forall|b: int| 0 <= b < u.blocks.len() implies all_have_players(
        u.names,
        (#[trigger] u.blocks[b]).1,
    ) by {
        assert(all_have_players(t.names, t.blocks[b].1));
        lemma_all_have_players(t.names, s.names, t.blocks[b].1);
    }
    assert forall|p: Seq<char>, g: u64|
        #[trigger] seen_of(s, p).contains(g) implies on_disk(u, p, g)
        || is_buffered(u, p, g) || u.skipped.contains((p, g)) by {
        assert(on_disk(u, p, g) == on_disk(t, p, g));
        assert(is_buffered(u, p, g) == is_buffered(t, p, g));
    }
    assert forall|p: Seq<char>, g: u64|
        u.bitmaps.contains_key(p) && #[trigger] u.bitmaps[p].contains(g) implies on_disk(u, p, g)
        || u.skipped.contains((p, g)) by {
        assert(t.bitmaps[p].contains(g));
        assert(on_disk(u, p, g) == on_disk(t, p, g));
    }
}

/// A game that was buffered is in a segment after the flush, and what was in
/// one still is.
proof fn lemma_flushed(t: TraceV, platform: Seq<char>, p: Seq<char>, g: u64)
    ensures
        on_disk(t, p, g) ==> on_disk(flushed(t, platform), p, g),
        is_buffered(t, p, g) ==> on_disk(flushed(t, platform), p, g) || is_buffered(
            flushed(t, platform),
            p,
            g,
        ),
{
    let u = flushed(t, platform);
    if on_disk(t, p, g) {
        let b = choose|b: int|
            0 <= b < t.blocks.len() && (#[trigger] t.blocks[b]).0 == p && holds(t.blocks[b].1, g);
        assert(u.blocks[b] == t.blocks[b]);
        assert(u.blocks[b].0 == p);
    }
    if is_buffered(t, p, g) && p == platform {
        let i = choose|i: int|
            0 <= i < t.buffers[p].len() && (#[trigger] t.buffers[p][i]).game_id == g;
        assert(t.buffers[p].len() > 0);
        assert(u.blocks.last() == (platform, t.buffers[platform]));
        assert(u.blocks[u.blocks.len() - 1].0 == p);
        assert(holds(u.blocks[u.blocks.len() - 1].1, g));
    }
}

/// Once a checkpoint was written, so may be what is buffered for a platform:
/// its players are known, and its games are then on disk.
pub proof fn law_flush_is_safe(t: TraceV, s: StoreV, platform: Seq<char>)
    requires
        is_safe(t, s),
        t.names == s.names,
    ensures
        is_safe(flushed(t, platform), emptied(s, platform)),
        flushed(t, platform).names == emptied(s, platform).names,
{
    let u = flushed(t, platform);
    let z = emptied(s, platform);
    lemma_filled_with_none();
    assert(t.buffers.contains_key(platform) <==> t.buffers.dom().contains(platform));
    assert(s.writers.contains_key(platform) <==> s.writers.dom().contains(platform));
    assert(u.buffers.dom() =~= z.writers.dom());
    assert forall|b: int| 0 <= b < u.blocks.len() implies all_have_players(
        u.names,
        (#[trigger] u.blocks[b]).1,
    ) by {
        if b < t.blocks.len() {
            assert(u.blocks[b] == t.blocks[b]);
        }
    }
    assert forall|p: Seq<char>, g: u64|
        #[trigger] seen_of(z, p).contains(g) implies on_disk(u, p, g)
        || is_buffered(u, p, g) || u.skipped.contains((p, g)) by {
        assert(seen_of(z, p) == seen_of(s, p));
        assert(seen_of(s, p).contains(g));
        lemma_flushed(t, platform, p, g);
    }
    assert forall|p: Seq<char>, g: u64|
        u.bitmaps.contains_key(p) && #[trigger] u.bitmaps[p].contains(g) implies on_disk(u, p, g)
        || u.skipped.contains((p, g)) by {
        assert(t.bitmaps[p].contains(g));
        lemma_flushed(t, platform, p, g);
    }
}

/// Once nothing is buffered the bitmaps may be written: every game that they
/// claim is on disk, or was skipped.
pub proof fn law_bitmaps_are_safe(t: TraceV, s: StoreV)
    requires
        is_safe(t, s),
        forall|p: Seq<char>| #[trigger] t.buffers.contains_key(p) ==> t.buffers[p].len() == 0,
    ensures
        is_safe(bitmaps_saved(t, s), s),
        forall|p: Seq<char>, g: u64|
            s.seen.contains_key(p) && #[trigger] s.seen[p].contains(g) ==> on_disk(bitmaps_saved(t, s), p, g) || t.skipped.contains((p, g)),
{
    let u = bitmaps_saved(t, s);
    lemma_same_disk(t, u);
    assert forall|p: Seq<char>, g: u64|
        s.seen.contains_key(p) && #[trigger] s.seen[p].contains(g) implies on_disk(u, p, g) || t.skipped.contains((p, g)) by {
        assert(seen_of(s, p).contains(g));
        assert(!is_buffered(t, p, g));
        assert(on_disk(u, p, g) == on_disk(t, p, g));
    }
    assert forall|p: Seq<char>, g: u64|
        #[trigger] seen_of(s, p).contains(g) implies on_disk(u, p, g)
        || is_buffered(u, p, g) || u.skipped.contains((p, g)) by {
        assert(on_disk(u, p, g) == on_disk(t, p, g));
        assert(is_buffered(u, p, g) == is_buffered(t, p, g));
    }
}

/// Storing a match does no harm: its players are known by the time that its
/// record is written, and it is claimed by no bitmap before. Nothing that was
/// buffered is lost to it, as records of an earlier day are written before.
pub proof fn law_storing_is_safe(
    t: TraceV,
    a: StoreV,
    b: StoreV,
    platform: Seq<char>,
    p: ParsedV,
    today: Seq<char>,
    on: Occasion,
    out: Stored,
)
    requires
        is_safe(t, a),
        ids_ok(a.players, a.names, a.next_player_id),
        has_ids(a, p.puuids),
        !unwritten(a, platform, today),
        is_stored(a, b, platform, p, today, on, out),
        p.record.participants.len() <= p.puuids.len(),
        forall|k: int|
            0 <= k < p.record.participants.len() ==> (#[trigger] p.record.participants[k]).row.len()
                > 0,
    ensures
        is_safe(
            recorded(
                t,
                platform,
                with_player_ids(p.record, ids_in(with_ids(a, p.puuids), p.puuids)),
            ),
            b,
        ),
{
    let ids = ids_in(with_ids(a, p.puuids), p.puuids);
    let r = with_player_ids(p.record, ids);
    let c = counts(a, platform, p, on.growth_paused);
    law_counted_match_is_stored(
        a,
        platform,
        p.record.game_id,
        p.record.duration_s,
        p.puuids,
        begin_ms(p.record),
        on.growth_paused,
    );
    lemma_with_ids(a, p.puuids);
    assert(b.names == with_ids(a, p.puuids).names);
    assert(has_players(b.names, r)) by {
        assert forall|k: int| 0 <= k < r.participants.len() implies b.names.contains_key(
            (#[trigger] r.participants[k]).row[0],
        ) by {
            assert(p.record.participants[k].row.len() > 0);
            assert(r.participants[k].row[0] == ids[k]);
            assert(with_ids(a, p.puuids).players.contains_key(p.puuids[k]));
        }
    }
    // The players of the match are added, and nothing else.
    let m = StoreV { names: b.names, ..a };
    law_other_changes_are_safe(t, a, m);
    let u = t;
    let z = m;
    let v = recorded(t, platform, r);
    let was = if u.buffers.contains_key(platform) {
        u.buffers[platform]
    } else {
        Seq::empty()
    };
    assert(u.buffers.contains_key(platform) <==> u.buffers.dom().contains(platform));
    assert(z.writers.contains_key(platform) <==> z.writers.dom().contains(platform));
    lemma_filled_with_none();
    law_append_fills(was, r);
    if rolls(a, platform, today) {
        lemma_filled_len(was);
        assert(was =~= Seq::empty());
    }
    assert(segment_for(a, platform, today).writer == filled(was));
    assert(b.writers[platform].writer == filled(was.push(r)));
    assert(v.buffers.dom() =~= b.writers.dom());
    assert forall|q: Seq<char>| #[trigger] v.buffers.contains_key(q) implies b.writers[q].writer
        == filled(v.buffers[q]) && all_have_players(b.names, v.buffers[q]) by {
        if q != platform {
            assert(u.buffers.contains_key(q));
            assert(z.writers[q] == a.writers[q]);
        } else {
            assert(all_have_players(b.names, was));
            assert forall|i: int| 0 <= i < v.buffers[q].len() implies has_players(
                b.names,
                #[trigger] v.buffers[q][i],
            ) by {
                if i < was.len() {
                    assert(v.buffers[q][i] == was[i]);
                }
            }
        }
    }
    lemma_blocks_kept(u, v);
    assert forall|q: Seq<char>, g: u64|
        #[trigger] seen_of(b, q).contains(g) implies on_disk(v, q, g)
        || is_buffered(v, q, g) || v.skipped.contains((q, g)) by {
        assert(seen_of(c, platform) == seen_of(a, platform));
        lemma_marked(c, b, platform, p.record.game_id, q);
        assert(seen_of(c, q) == seen_of(z, q));
        if q == platform && g == p.record.game_id {
            assert(v.buffers[q][was.len() as int].game_id == g);
        } else {
            assert(seen_of(z, q).contains(g));
            assert(on_disk(u, q, g) == on_disk(v, q, g));
            if is_buffered(u, q, g) && q == platform {
                let i = choose|i: int|
                    0 <= i < u.buffers[q].len() && (#[trigger] u.buffers[q][i]).game_id == g;
                assert(v.buffers[q][i] == u.buffers[q][i]);
                assert(holds(v.buffers[q], g));
            }
        }
    }
    assert forall|q: Seq<char>, g: u64|
        v.bitmaps.contains_key(q) && #[trigger] v.bitmaps[q].contains(g) implies on_disk(v, q, g)
        || v.skipped.contains((q, g)) by {
        assert(u.bitmaps[q].contains(g));
        assert(on_disk(u, q, g) == on_disk(v, q, g));
    }
}

proof fn lemma_blocks_kept(t: TraceV, u: TraceV)
    requires
        t.blocks == u.blocks,
    ensures
        forall|p: Seq<char>, g: u64| on_disk(t, p, g) == #[trigger] on_disk(u, p, g),
{
    lemma_same_disk(t, TraceV { buffers: t.buffers, ..u });
    assert forall|p: Seq<char>, g: u64| on_disk(t, p, g) == #[trigger] on_disk(u, p, g) by {
        let w = TraceV { buffers: t.buffers, ..u };
        assert(on_disk(t, p, g) == on_disk(w, p, g));
        if on_disk(w, p, g) {
            let b = choose|b: int|
                0 <= b < w.blocks.len() && (#[trigger] w.blocks[b]).0 == p && holds(
                    w.blocks[b].1,
                    g,
                );
            assert(u.blocks[b].0 == p);
        }
        if on_disk(u, p, g) {
            let b = choose|b: int|
                0 <= b < u.blocks.len() && (#[trigger] u.blocks[b]).0 == p && holds(
                    u.blocks[b].1,
                    g,
                );
            assert(w.blocks[b].0 == p);
        }
    }
}

/// After some steps of a commit: no harm is done, the tables know all
/// players, and the platforms that were flushed have nothing buffered.
spec fn reached(
    t: TraceV,
    z: StoreV,
    s: StoreV,
    steps: Seq<CommitStep>,
    k: int,
) -> bool {
    &&& is_safe(t, z)
    &&& t.names == z.names
    &&& z.writers.dom() == s.writers.dom()
    &&& forall|i: int| 1 <= i < k ==> is_empty_after(t, #[trigger] steps[i])
}

/// The platform of a step has nothing buffered.
spec fn is_empty_after(t: TraceV, step: CommitStep) -> bool {
    step matches CommitStep::Flush(p) ==> t.buffers.contains_key(p@) ==> t.buffers[p@].len() == 0
}

proof fn lemma_flush_step(
    t: TraceV,
    z: StoreV,
    s: StoreV,
    steps: Seq<CommitStep>,
    k: int,
    platform: Seq<char>,
)
    requires
        reached(t, z, s, steps, k),
        1 <= k < steps.len(),
        steps[k] is Flush,
        steps[k]->0@ == platform,
    ensures
        reached(flushed(t, platform), emptied(z, platform), s, steps, k + 1),
{
    law_flush_is_safe(t, z, platform);
    assert(z.writers.contains_key(platform) <==> z.writers.dom().contains(platform));
    assert(emptied(z, platform).writers.dom() =~= z.writers.dom());
    let v = flushed(t, platform);
    assert forall|i: int| 1 <= i < k + 1 implies is_empty_after(v, #[trigger] steps[i]) by {
        if i < k {
            assert(is_empty_after(t, steps[i]));
        }
    }
}

proof fn lemma_bitmap_step(t: TraceV, z: StoreV, s: StoreV, steps: Seq<CommitStep>)
    requires
        reached(t, z, s, steps, steps.len() - 1),
        are_commit_steps(steps, s),
        steps.len() > 1,
        steps.last() is Bitmaps,
    ensures
        reached(bitmaps_saved(t, z), z, s, steps, steps.len() as int),
{
    assert forall|p: Seq<char>| #[trigger] t.buffers.contains_key(p) implies t.buffers[p].len()
        == 0 by {
        assert(t.buffers.dom().contains(p));
        assert(s.writers.dom().contains(p));
        assert(s.writers.contains_key(p));
        let n = steps.len() - (if s.seen_unsaved {
            2int
        } else {
            1int
        });
        let i = choose|i: int| 1 <= i <= n && (#[trigger] steps[i])->0@ == p;
        assert(steps[i] is Flush);
        assert(steps[steps.len() - 1] is Bitmaps);
        assert(i < steps.len() - 1);
        assert(is_empty_after(t, steps[i]));
    }
    law_bitmaps_are_safe(t, z);
    let v = bitmaps_saved(t, z);
    assert forall|i: int| 1 <= i < steps.len() implies is_empty_after(v, #[trigger] steps[i]) by {
        if i < steps.len() - 1 {
            assert(is_empty_after(t, steps[i]));
        }
    }
}

proof fn lemma_steps(t: TraceV, s: StoreV, steps: Seq<CommitStep>, k: int)
    requires
        is_safe(t, s),
        are_commit_steps(steps, s),
        1 <= k <= steps.len(),
    ensures
        reached(
            steps_done((t, s), steps.take(k)).0,
            steps_done((t, s), steps.take(k)).1,
            s,
            steps,
            k,
        ),
    decreases k,
{
    let now = steps.take(k);
    let before = steps.take(k - 1);
    assert(now.drop_last() =~= before);
    assert(now.last() == steps[k - 1]);
    assert(steps_done((t, s), now) == step_done(steps_done((t, s), before), steps[k - 1]));
    if k == 1 {
        assert(before.len() == 0);
        assert(steps_done((t, s), before) == (t, s));
        law_checkpoint_is_safe(t, s);
    } else {
        lemma_steps(t, s, steps, k - 1);
        let (u, z) = steps_done((t, s), before);
        match steps[k - 1] {
            CommitStep::Checkpoint => {
                assert(steps[k - 1] is Checkpoint);
                assert(steps[k - 1] is Flush || steps[k - 1] is Bitmaps);
            },
            CommitStep::Flush(p) => {
                assert(steps[k - 1] is Flush);
                lemma_flush_step(u, z, s, steps, k - 1, p@);
            },
            CommitStep::Bitmaps => {
                assert(steps[k - 1] is Bitmaps);
                if k - 1 < steps.len() - 1 {
                    assert(steps[k - 1] is Flush);
                }
                assert(steps.last() == steps[k - 1]);
                lemma_bitmap_step(u, z, s, steps);
            },
        }
    }
}

/// A crash in the middle of a commit does no harm, after however many of its
/// steps it comes.
pub proof fn law_commit_is_safe(t: TraceV, s: StoreV, steps: Seq<CommitStep>, k: int)
    requires
        is_safe(t, s),
        are_commit_steps(steps, s),
        0 <= k <= steps.len(),
    ensures
        is_safe(steps_done((t, s), steps.take(k)).0, steps_done((t, s), steps.take(k)).1),
{
    if k == 0 {
        assert(steps.take(0) =~= Seq::empty());
    } else {
        lemma_steps(t, s, steps, k);
    }
}

/// A store that starts from what a crash left is safe again, with what was
/// buffered gone: no player has another id, and games that were not written
/// are fetched again.
pub proof fn law_restart_is_safe(t: TraceV, s: StoreV, again: StoreV)
    requires
        is_safe(t, s),
        again.names == t.names,
        again.writers == Map::<Seq<char>, DayV>::empty(),
        forall|p: Seq<char>, g: u64|
            #[trigger] seen_of(again, p).contains(g)
                ==> t.bitmaps.contains_key(p) && t.bitmaps[p].contains(g),
    ensures
        is_safe(TraceV { buffers: Map::empty(), ..t }, again),
        keeps_names(again.names, s.names),
        forall|p: Seq<char>, g: u64|
            #[trigger] seen_of(again, p).contains(g) ==> on_disk(
                t,
                p,
                g,
            ) || t.skipped.contains((p, g)),
{
    let u = TraceV { buffers: Map::empty(), ..t };
    lemma_blocks_kept(t, u);
    assert(u.buffers.dom() =~= again.writers.dom());
    assert forall|p: Seq<char>, g: u64|
        #[trigger] seen_of(again, p).contains(g) implies on_disk(
        t,
        p,
        g,
    ) || t.skipped.contains((p, g)) by {
        assert(t.bitmaps[p].contains(g));
    }
    assert forall|p: Seq<char>, g: u64|
        #[trigger] seen_of(again, p).contains(g) implies on_disk(
        u,
        p,
        g,
    ) || is_buffered(u, p, g) || u.skipped.contains((p, g)) by {
        assert(on_disk(t, p, g) == on_disk(u, p, g));
    }
    assert forall|p: Seq<char>, g: u64|
        u.bitmaps.contains_key(p) && #[trigger] u.bitmaps[p].contains(g) implies on_disk(u, p, g)
        || u.skipped.contains((p, g)) by {
        assert(t.bitmaps[p].contains(g));
        assert(on_disk(t, p, g) == on_disk(u, p, g));
    }
}

} // verus!
