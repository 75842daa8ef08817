//! The compact match representation and its protobuf encoding.
//!
//! The wire format is plain protobuf. Participant stats are an array whose
//! field order is pinned by [`STAT_FIELDS_V1`] and `schema_version`:
//! append-only, never reordered.

use crate::wire::{
    field_bytes, field_message, field_varint, i64_to_u64, ints, lemma_messages_push,
    lemma_skip_suffix, lemma_take_bytes, lemma_take_repeated, lemma_take_varint, low32, messages,
    put_field_bytes, put_field_message, put_field_varint, put_packed_i64, put_packed_u32,
    read_bytes, read_key, read_repeated, read_varint_at, skip_field, skip_field_at, take_bytes,
    take_all_varints, take_key, take_repeated, take_varint, u64_to_i64, unzigzag, unzigzag_i64, varints, wrap_i64,
    wrap_u64, zigzags, RECURSION_LIMIT, WIRE_BYTES, WIRE_VARINT,
};
use vstd::prelude::*;
use vstd::utf8::{encode_utf8, valid_utf8};

verus! {

pub const SCHEMA_VERSION: u32 = 1;

/// One match.
#[derive(Clone, Debug, PartialEq)]
pub struct MatchRecord {
    pub schema_version: u32,
    /// Numeric part of the match id; the platform is the shard.
    pub game_id: u64,
    pub platform: String,
    pub queue_id: u32,
    pub game_start_ms: i64,
    pub duration_s: u32,
    pub blue_won: bool,
    pub game_version: String,
    pub patch_major: u32,
    pub patch_minor: u32,
    /// Exactly 10: blue team (positions TOP..UTILITY), then red team.
    pub participants: Vec<Participant>,
    pub timeline: Option<TimelineLite>,
    /// Banned champion ids (0 = no ban), pick-turn order.
    pub bans: Vec<u32>,
}

#[derive(Clone, Debug, PartialEq)]
pub struct Participant {
    /// Dictionary-encoded puuid (players table).
    pub player_id: u32,
    pub champion_id: u32,
    /// 0..4 = TOP..UTILITY (index into [`POSITIONS`](crate::parse::POSITIONS)).
    pub position: u32,
    pub spell1: u32,
    pub spell2: u32,
    /// Style ids, then perk ids, then the three stat perks.
    pub runes: Vec<u32>,
    /// Values for the stat fields of this record's schema version.
    pub stats: Vec<i64>,
}

#[derive(Clone, Debug, PartialEq)]
pub struct TimelineLite {
    pub frames: Vec<MinuteFrame>,
    pub kills: Vec<KillEvent>,
    pub objectives: Vec<ObjectiveEvent>,
    pub wards: Vec<WardEvent>,
}

/// Per-minute snapshot; each list is in participant order.
#[derive(Clone, Debug, PartialEq)]
pub struct MinuteFrame {
    pub minute: u32,
    pub total_gold: Vec<u32>,
    pub xp: Vec<u32>,
    /// Lane and jungle minions together.
    pub cs: Vec<u32>,
    pub dmg_to_champs: Vec<u32>,
}

/// Participant indices are 0..9; 255 = none (e.g. executed by minions).
#[derive(Clone, Debug, PartialEq)]
pub struct KillEvent {
    pub t_s: u32,
    pub killer: u32,
    pub victim: u32,
    /// Bit i set = participant i assisted.
    pub assist_mask: u32,
    pub x: u32,
    pub y: u32,
}

#[derive(Clone, Debug, PartialEq)]
pub struct ObjectiveEvent {
    pub t_s: u32,
    pub kind: u32,
    /// Killer participant 0..9, 255 = none/unknown.
    pub killer: u32,
    /// For buildings and plates: the team that lost it (100/200). 0 otherwise.
    pub losing_team: u32,
    /// Only for buildings and plates.
    pub lane: u32,
}

#[derive(Clone, Debug, PartialEq)]
pub struct WardEvent {
    pub t_s: u32,
    pub kind: u32,
    /// Creator (placed) or killer (killed), 0..9; 255 = unknown.
    pub participant: u32,
}

/// A message of scalars followed by packed lists: the scalars carry tags
/// `1..=row.len()`, the lists the tags after those. List values are kept as
/// the naturals that go on the wire.
#[verifier::ext_equal]
pub struct FlatV {
    pub row: Seq<u32>,
    pub lists: Seq<Seq<int>>,
}

/// The fields of a flat message: how many scalars, and for each list whether
/// its values are zigzag-folded 64-bit (otherwise they are 32-bit).
#[verifier::ext_equal]
pub struct Shape {
    pub scalars: int,
    pub signed: Seq<bool>,
}

/// What a [`MatchRecord`] says. Strings are their UTF-8 bytes; the timeline is
/// its frames, kills, objectives and wards, in that order.
#[verifier::ext_equal]
pub struct RecordV {
    pub schema_version: u32,
    pub game_id: u64,
    pub platform: Seq<u8>,
    pub queue_id: u32,
    pub game_start_ms: i64,
    pub duration_s: u32,
    pub blue_won: bool,
    pub game_version: Seq<u8>,
    pub patch_major: u32,
    pub patch_minor: u32,
    pub participants: Seq<FlatV>,
    pub timeline: Option<Seq<Seq<FlatV>>>,
    pub bans: Seq<u32>,
}

pub open spec fn views<M: View>(items: Seq<M>) -> Seq<M::V> {
    items.map_values(|m: M| m@)
}

impl View for Participant {
    type V = FlatV;

    open spec fn view(&self) -> FlatV {
        FlatV {
            row: seq![
                self.player_id,
                self.champion_id,
                self.position,
                self.spell1,
                self.spell2,
            ],
            lists: seq![ints(self.runes@), zigzags(self.stats@)],
        }
    }
}

impl View for MinuteFrame {
    type V = FlatV;

    open spec fn view(&self) -> FlatV {
        FlatV {
            row: seq![self.minute],
            lists: seq![
                ints(self.total_gold@),
                ints(self.xp@),
                ints(self.cs@),
                ints(self.dmg_to_champs@),
            ],
        }
    }
}

impl View for KillEvent {
    type V = FlatV;

    open spec fn view(&self) -> FlatV {
        FlatV {
            row: seq![self.t_s, self.killer, self.victim, self.assist_mask, self.x, self.y],
            lists: Seq::empty(),
        }
    }
}

impl View for ObjectiveEvent {
    type V = FlatV;

    open spec fn view(&self) -> FlatV {
        FlatV {
            row: seq![self.t_s, self.kind, self.killer, self.losing_team, self.lane],
            lists: Seq::empty(),
        }
    }
}

impl View for WardEvent {
    type V = FlatV;

    open spec fn view(&self) -> FlatV {
        FlatV { row: seq![self.t_s, self.kind, self.participant], lists: Seq::empty() }
    }
}

impl View for TimelineLite {
    type V = Seq<Seq<FlatV>>;

    open spec fn view(&self) -> Seq<Seq<FlatV>> {
        seq![views(self.frames@), views(self.kills@), views(self.objectives@), views(self.wards@)]
    }
}

impl View for MatchRecord {
    type V = RecordV;

    open spec fn view(&self) -> RecordV {
        RecordV {
            schema_version: self.schema_version,
            game_id: self.game_id,
            platform: encode_utf8(self.platform@),
            queue_id: self.queue_id,
            game_start_ms: self.game_start_ms,
            duration_s: self.duration_s,
            blue_won: self.blue_won,
            game_version: encode_utf8(self.game_version@),
            patch_major: self.patch_major,
            patch_minor: self.patch_minor,
            participants: views(self.participants@),
            timeline: match self.timeline {
                Some(t) => Some(t@),
                None => None,
            },
            bans: self.bans@,
        }
    }
}

pub open spec fn participant_shape() -> Shape {
    Shape { scalars: 5, signed: seq![false, true] }
}

/// The shapes of the four kinds of timeline entries, by tag: frames, kills,
/// objectives, wards.
pub open spec fn timeline_shape(tag: int) -> Shape {
    if tag == 1 {
        Shape { scalars: 1, signed: seq![false, false, false, false] }
    } else if tag == 2 {
        Shape { scalars: 6, signed: Seq::empty() }
    } else if tag == 3 {
        Shape { scalars: 5, signed: Seq::empty() }
    } else {
        Shape { scalars: 3, signed: Seq::empty() }
    }
}

/// Whether a message has a shape: the counts agree and list values are in range.
pub open spec fn has_shape(v: FlatV, shape: Shape) -> bool {
    &&& v.row.len() == shape.scalars
    &&& v.lists.len() == shape.signed.len()
    &&& forall|k: int, i: int|
        #![trigger v.lists[k][i]]
        0 <= k < v.lists.len() && 0 <= i < v.lists[k].len() ==> 0 <= v.lists[k][i] <= (
        if shape.signed[k] {
            u64::MAX as int
        } else {
            u32::MAX as int
        })
}

pub open spec fn timeline_valid(t: Seq<Seq<FlatV>>) -> bool {
    &&& t.len() == 4
    &&& forall|k: int, i: int|
        #![trigger t[k][i]]
        0 <= k < 4 && 0 <= i < t[k].len() ==> has_shape(t[k][i], timeline_shape(k + 1))
}

/// What every match record satisfies: its strings are UTF-8 and its parts have
/// their shapes.
pub open spec fn record_valid(r: RecordV) -> bool {
    &&& valid_utf8(r.platform)
    &&& valid_utf8(r.game_version)
    &&& forall|i: int|
        #![trigger r.participants[i]]
        0 <= i < r.participants.len() ==> has_shape(r.participants[i], participant_shape())
    &&& r.timeline matches Some(t) ==> timeline_valid(t)
}

/// The scalar fields of a row from index `k` on.
pub open spec fn row_fields(row: Seq<u32>, k: int) -> Seq<u8>
    decreases row.len() - k,
{
    if k >= row.len() || k < 0 {
        Seq::empty()
    } else {
        field_varint(k + 1, row[k] as int) + row_fields(row, k + 1)
    }
}

/// The packed fields from list `k` on; `base` scalars come before the lists.
pub open spec fn list_fields(lists: Seq<Seq<int>>, base: int, k: int) -> Seq<u8>
    decreases lists.len() - k,
{
    if k >= lists.len() || k < 0 {
        Seq::empty()
    } else {
        field_bytes(base + k + 1, varints(lists[k])) + list_fields(lists, base, k + 1)
    }
}

pub open spec fn flat_bytes(v: FlatV) -> Seq<u8> {
    row_fields(v.row, 0) + list_fields(v.lists, v.row.len() as int, 0)
}

pub open spec fn flats_bytes(vs: Seq<FlatV>) -> Seq<Seq<u8>> {
    vs.map_values(|v: FlatV| flat_bytes(v))
}

pub open spec fn timeline_bytes(t: Seq<Seq<FlatV>>) -> Seq<u8> {
    messages(1, flats_bytes(t[0])) + messages(2, flats_bytes(t[1])) + messages(
        3,
        flats_bytes(t[2]),
    ) + messages(4, flats_bytes(t[3]))
}

/// The canonical encoding of a record: fields in tag order, defaults omitted.
pub open spec fn record_bytes(r: RecordV) -> Seq<u8> {
    field_varint(1, r.schema_version as int) + field_varint(2, r.game_id as int) + field_bytes(
        3,
        r.platform,
    ) + field_varint(4, r.queue_id as int) + field_varint(5, wrap_u64(r.game_start_ms as int))
        + field_varint(6, r.duration_s as int) + field_varint(
        7,
        if r.blue_won {
            1
        } else {
            0
        },
    ) + field_bytes(8, r.game_version) + field_varint(9, r.patch_major as int) + field_varint(
        10,
        r.patch_minor as int,
    ) + messages(11, flats_bytes(r.participants)) + (match r.timeline {
        Some(t) => field_message(12, timeline_bytes(t)),
        None => Seq::empty(),
    }) + field_bytes(13, varints(ints(r.bans)))
}

/// A flat message type of this module.
pub(crate) trait Flat: Sized + View<V = FlatV> {
    /// The type's fields.
    spec fn shape() -> Shape;

    /// Every value has the type's shape.
    proof fn lemma_shape(&self)
        ensures
            has_shape(self@, Self::shape()),
    ;

    /// The scalar fields in tag order.
    fn row(&self) -> (row: Vec<u32>)
        ensures
            row@ == self@.row,
    ;

    /// Appends the message's canonical encoding.
    fn encode(&self, out: &mut Vec<u8>)
        ensures
            final(out)@ == old(out)@ + flat_bytes(self@),
    ;

    /// Reads the message from its encoding.
    fn decode(bytes: &[u8], depth: u32) -> (res: Option<Self>)
        requires
            depth > 0,
        ensures
            match res {
                Some(m) => flat_decoded(Self::shape(), bytes@, depth as int) == Some(m@),
                None => flat_decoded(Self::shape(), bytes@, depth as int) is None,
            },
    ;
}

fn put_row(out: &mut Vec<u8>, row: &[u32])
    requires
        row@.len() <= 100,
    ensures
        final(out)@ == old(out)@ + row_fields(row@, 0),
{
    let mut i: usize = 0;
    assert(out@ + row_fields(row@, 0) =~= old(out)@ + row_fields(row@, 0));
    while i < row.len()
        invariant
            i <= row@.len() <= 100,
            out@ + row_fields(row@, i as int) == old(out)@ + row_fields(row@, 0),
        decreases row@.len() - i,
    {
        let ghost before = out@;
        put_field_varint(out, i as u32 + 1, row[i] as u64);
        assert(before + row_fields(row@, i as int) =~= out@ + row_fields(row@, i + 1));
        i = i + 1;
    }
    assert(out@ + row_fields(row@, i as int) =~= out@);
}

/// Appends each item as a length-delimited field.
fn put_messages<M: Flat>(out: &mut Vec<u8>, field: u32, items: &Vec<M>)
    requires
        field < 100,
    ensures
        final(out)@ == old(out)@ + messages(field as int, flats_bytes(views(items@))),
{
    let mut i: usize = 0;
    assert(out@ =~= old(out)@ + messages(field as int, flats_bytes(views(items@.take(0)))));
    while i < items.len()
        invariant
            i <= items@.len(),
            field < 100,
            out@ == old(out)@ + messages(
                field as int,
                flats_bytes(views(items@.take(i as int))),
            ),
        decreases items@.len() - i,
    {
        let ghost before = out@;
        let mut body: Vec<u8> = Vec::new();
        items[i].encode(&mut body);
        put_field_message(out, field, body.as_slice());
        proof {
            let done = flats_bytes(views(items@.take(i as int)));
            assert(body@ =~= flat_bytes(items@[i as int]@));
            assert(flats_bytes(views(items@.take(i + 1))) =~= done.push(body@));
            lemma_messages_push(field as int, done, body@);
            assert(out@ =~= old(out)@ + messages(field as int, done.push(body@)));
        }
        i = i + 1;
    }
    assert(items@.take(i as int) =~= items@);
}

impl TimelineLite {
    fn encode(&self, out: &mut Vec<u8>)
        ensures
            final(out)@ == old(out)@ + timeline_bytes(self@),
    {
        put_messages(out, 1, &self.frames);
        put_messages(out, 2, &self.kills);
        put_messages(out, 3, &self.objectives);
        put_messages(out, 4, &self.wards);
        assert(out@ =~= old(out)@ + timeline_bytes(self@));
    }
}

/// The parts of a record before its participants.
pub(crate) struct Head<'a> {
    pub schema_version: u32,
    pub game_id: u64,
    pub platform: &'a [u8],
    pub queue_id: u32,
    pub game_start_ms: i64,
    pub duration_s: u32,
    pub blue_won: bool,
    pub game_version: &'a [u8],
    pub patch_major: u32,
    pub patch_minor: u32,
}

/// The record that the given parts make up.
pub(crate) open spec fn assembled(
    head: &Head,
    participants: Seq<Participant>,
    timeline: Option<TimelineLite>,
    bans: Seq<u32>,
) -> RecordV {
    RecordV {
        schema_version: head.schema_version,
        game_id: head.game_id,
        platform: head.platform@,
        queue_id: head.queue_id,
        game_start_ms: head.game_start_ms,
        duration_s: head.duration_s,
        blue_won: head.blue_won,
        game_version: head.game_version@,
        patch_major: head.patch_major,
        patch_minor: head.patch_minor,
        participants: views(participants),
        timeline: match timeline {
            Some(t) => Some(t@),
            None => None,
        },
        bans,
    }
}

/// The canonical encoding of the record that the given parts make up.
pub(crate) fn encode_parts(
    head: &Head,
    participants: &Vec<Participant>,
    timeline: &Option<TimelineLite>,
    bans: &Vec<u32>,
) -> (out: Vec<u8>)
    ensures
        out@ == record_bytes(assembled(head, participants@, *timeline, bans@)),
{
    let mut out: Vec<u8> = Vec::new();
    put_field_varint(&mut out, 1, head.schema_version as u64);
    put_field_varint(&mut out, 2, head.game_id);
    put_field_bytes(&mut out, 3, head.platform);
    put_field_varint(&mut out, 4, head.queue_id as u64);
    put_field_varint(&mut out, 5, i64_to_u64(head.game_start_ms));
    put_field_varint(&mut out, 6, head.duration_s as u64);
    put_field_varint(
        &mut out,
        7,
        if head.blue_won {
            1
        } else {
            0
        },
    );
    put_field_bytes(&mut out, 8, head.game_version);
    put_field_varint(&mut out, 9, head.patch_major as u64);
    put_field_varint(&mut out, 10, head.patch_minor as u64);
    put_messages(&mut out, 11, participants);
    match timeline {
        Some(t) => {
            let mut body: Vec<u8> = Vec::new();
            t.encode(&mut body);
            assert(body@ =~= timeline_bytes(t@));
            put_field_message(&mut out, 12, body.as_slice());
        },
        None => {},
    }
    put_packed_u32(&mut out, 13, bans.as_slice());
    assert(out@ =~= record_bytes(assembled(head, participants@, *timeline, bans@)));
    out
}

impl MatchRecord {
    /// The record's canonical encoding.
    pub fn encode_to_vec(&self) -> (out: Vec<u8>)
        ensures
            out@ == record_bytes(self@),
    {
        let head = Head {
            schema_version: self.schema_version,
            game_id: self.game_id,
            platform: self.platform.as_str().as_bytes(),
            queue_id: self.queue_id,
            game_start_ms: self.game_start_ms,
            duration_s: self.duration_s,
            blue_won: self.blue_won,
            game_version: self.game_version.as_str().as_bytes(),
            patch_major: self.patch_major,
            patch_minor: self.patch_minor,
        };
        let out = encode_parts(&head, &self.participants, &self.timeline, &self.bans);
        assert(assembled(&head, self.participants@, self.timeline, self.bans@) =~= self@);
        out
    }
}

pub open spec fn empty_flat(shape: Shape) -> FlatV {
    FlatV {
        row: Seq::new(shape.scalars as nat, |i: int| 0u32),
        lists: Seq::new(shape.signed.len(), |k: int| Seq::empty()),
    }
}

/// A decoded list value: 64 bits where the list is signed, else the low 32.
pub open spec fn list_value(signed: bool, v: int) -> int {
    if signed {
        v
    } else {
        low32(v) as int
    }
}

pub open spec fn list_values(signed: bool, values: Seq<int>) -> Seq<int> {
    values.map_values(|v: int| list_value(signed, v))
}

/// Reads the fields in `b` into `acc`: a scalar replaces the one before it, a
/// list is appended to, an unknown field is skipped.
pub open spec fn merge_flat(shape: Shape, acc: FlatV, b: Seq<u8>, depth: int) -> Option<FlatV>
    decreases b.len(),
{
    if b.len() == 0 {
        Some(acc)
    } else {
        proof {
            lemma_take_varint(b);
        }
        match take_key(b) {
            None => None,
            Some((tag, wire, rest)) => {
                proof {
                    lemma_take_varint(rest);
                    lemma_take_repeated(wire, rest);
                    lemma_skip_suffix(wire, tag, rest, depth);
                }
                if tag <= shape.scalars {
                    match take_varint(rest) {
                        Ok((v, after)) => if wire == WIRE_VARINT {
                            merge_flat(
                                shape,
                                FlatV { row: acc.row.update(tag - 1, low32(v)), lists: acc.lists },
                                after,
                                depth,
                            )
                        } else {
                            None
                        },
                        Err(_) => None,
                    }
                } else if tag <= shape.scalars + shape.signed.len() {
                    match take_repeated(wire, rest) {
                        Some((values, after)) => merge_flat(
                            shape,
                            with_list(shape, acc, tag - 1 - shape.scalars, values),
                            after,
                            depth,
                        ),
                        None => None,
                    }
                } else {
                    match skip_field(wire, tag, rest, depth) {
                        Some(after) => merge_flat(shape, acc, after, depth),
                        None => None,
                    }
                }
            },
        }
    }
}

pub open spec fn with_list(shape: Shape, acc: FlatV, k: int, values: Seq<int>) -> FlatV {
    FlatV {
        row: acc.row,
        lists: acc.lists.update(k, acc.lists[k] + list_values(shape.signed[k], values)),
    }
}

pub open spec fn flat_decoded(shape: Shape, b: Seq<u8>, depth: int) -> Option<FlatV> {
    merge_flat(shape, empty_flat(shape), b, depth)
}

pub open spec fn empty_timeline() -> Seq<Seq<FlatV>> {
    seq![Seq::empty(), Seq::empty(), Seq::empty(), Seq::empty()]
}

/// Reads timeline fields into `acc`: each frame or event is appended to its list.
pub open spec fn merge_timeline(acc: Seq<Seq<FlatV>>, b: Seq<u8>, depth: int) -> Option<
    Seq<Seq<FlatV>>,
>
    decreases b.len(),
{
    if b.len() == 0 {
        Some(acc)
    } else {
        proof {
            lemma_take_varint(b);
        }
        match take_key(b) {
            None => None,
            Some((tag, wire, rest)) => {
                proof {
                    lemma_take_bytes(rest);
                    lemma_skip_suffix(wire, tag, rest, depth);
                }
                if tag <= 4 {
                    match take_bytes(rest) {
                        Some((body, after)) => if wire == WIRE_BYTES {
                            match flat_decoded(timeline_shape(tag), body, depth - 1) {
                                Some(v) => merge_timeline(
                                    acc.update(tag - 1, acc[tag - 1].push(v)),
                                    after,
                                    depth,
                                ),
                                None => None,
                            }
                        } else {
                            None
                        },
                        None => None,
                    }
                } else {
                    match skip_field(wire, tag, rest, depth) {
                        Some(after) => merge_timeline(acc, after, depth),
                        None => None,
                    }
                }
            },
        }
    }
}

pub open spec fn empty_record() -> RecordV {
    RecordV {
        schema_version: 0,
        game_id: 0,
        platform: Seq::empty(),
        queue_id: 0,
        game_start_ms: 0,
        duration_s: 0,
        blue_won: false,
        game_version: Seq::empty(),
        patch_major: 0,
        patch_minor: 0,
        participants: Seq::empty(),
        timeline: None,
        bans: Seq::empty(),
    }
}

/// Whether a record's field holds a single number.
pub open spec fn is_number_tag(tag: int) -> bool {
    tag == 1 || tag == 2 || tag == 4 || tag == 5 || tag == 6 || tag == 7 || tag == 9 || tag == 10
}

pub open spec fn with_number(r: RecordV, tag: int, v: int) -> RecordV {
    if tag == 1 {
        RecordV { schema_version: low32(v), ..r }
    } else if tag == 2 {
        RecordV { game_id: v as u64, ..r }
    } else if tag == 4 {
        RecordV { queue_id: low32(v), ..r }
    } else if tag == 5 {
        RecordV { game_start_ms: wrap_i64(v) as i64, ..r }
    } else if tag == 6 {
        RecordV { duration_s: low32(v), ..r }
    } else if tag == 7 {
        RecordV { blue_won: v != 0, ..r }
    } else if tag == 9 {
        RecordV { patch_major: low32(v), ..r }
    } else {
        RecordV { patch_minor: low32(v), ..r }
    }
}

/// What a length-delimited field does to a record, if its body is well-formed.
pub open spec fn with_body(r: RecordV, tag: int, body: Seq<u8>, depth: int) -> Option<RecordV> {
    if tag == 3 {
        if valid_utf8(body) {
            Some(RecordV { platform: body, ..r })
        } else {
            None
        }
    } else if tag == 8 {
        if valid_utf8(body) {
            Some(RecordV { game_version: body, ..r })
        } else {
            None
        }
    } else if tag == 11 {
        match flat_decoded(participant_shape(), body, depth - 1) {
            Some(v) => Some(RecordV { participants: r.participants.push(v), ..r }),
            None => None,
        }
    } else {
        match merge_timeline(
            match r.timeline {
                Some(t) => t,
                None => empty_timeline(),
            },
            body,
            depth - 1,
        ) {
            Some(t) => Some(RecordV { timeline: Some(t), ..r }),
            None => None,
        }
    }
}

/// Reads record fields into `acc`.
pub open spec fn merge_record(acc: RecordV, b: Seq<u8>, depth: int) -> Option<RecordV>
    decreases b.len(),
{
    if b.len() == 0 {
        Some(acc)
    } else {
        proof {
            lemma_take_varint(b);
        }
        match take_key(b) {
            None => None,
            Some((tag, wire, rest)) => {
                proof {
                    lemma_take_varint(rest);
                    lemma_take_bytes(rest);
                    lemma_take_repeated(wire, rest);
                    lemma_skip_suffix(wire, tag, rest, depth);
                }
                if is_number_tag(tag) {
                    match take_varint(rest) {
                        Ok((v, after)) => if wire == WIRE_VARINT {
                            merge_record(with_number(acc, tag, v), after, depth)
                        } else {
                            None
                        },
                        Err(_) => None,
                    }
                } else if tag < 13 {
                    match take_bytes(rest) {
                        Some((body, after)) => if wire == WIRE_BYTES {
                            match with_body(acc, tag, body, depth) {
                                Some(next) => merge_record(next, after, depth),
                                None => None,
                            }
                        } else {
                            None
                        },
                        None => None,
                    }
                } else if tag == 13 {
                    match take_repeated(wire, rest) {
                        Some((values, after)) => merge_record(
                            RecordV { bans: acc.bans + crate::wire::low32s(values), ..acc },
                            after,
                            depth,
                        ),
                        None => None,
                    }
                } else {
                    match skip_field(wire, tag, rest, depth) {
                        Some(after) => merge_record(acc, after, depth),
                        None => None,
                    }
                }
            },
        }
    }
}

/// The record that `b` encodes, if it encodes one.
#[verifier::opaque]
pub open spec fn record_decoded(b: Seq<u8>) -> Option<RecordV> {
    merge_record(empty_record(), b, RECURSION_LIMIT as int)
}

/// Decoding keeps the shape.
proof fn lemma_merge_flat_shape(shape: Shape, acc: FlatV, b: Seq<u8>, depth: int)
    requires
        has_shape(acc, shape),
    ensures
        merge_flat(shape, acc, b, depth) matches Some(v) ==> has_shape(v, shape),
    decreases b.len(),
{
    if b.len() > 0 {
        lemma_take_varint(b);
        match take_key(b) {
            None => {},
            Some((tag, wire, rest)) => {
                lemma_take_varint(rest);
                lemma_take_repeated(wire, rest);
                lemma_skip_suffix(wire, tag, rest, depth);
                if tag <= shape.scalars {
                    match take_varint(rest) {
                        Ok((v, after)) => {
                            let next = FlatV {
                                row: acc.row.update(tag - 1, low32(v)),
                                lists: acc.lists,
                            };
                            lemma_merge_flat_shape(shape, next, after, depth);
                        },
                        Err(_) => {},
                    }
                } else if tag <= shape.scalars + shape.signed.len() {
                    match take_repeated(wire, rest) {
                        Some((values, after)) => {
                            let k = tag - 1 - shape.scalars;
                            let next = with_list(shape, acc, k, values);
                            lemma_repeated_range(wire, rest);
                            assert(has_shape(next, shape));
                            lemma_merge_flat_shape(shape, next, after, depth);
                        },
                        None => {},
                    }
                } else {
                    match skip_field(wire, tag, rest, depth) {
                        Some(after) => lemma_merge_flat_shape(shape, acc, after, depth),
                        None => {},
                    }
                }
            },
        }
    }
}

proof fn lemma_all_varints_range(b: Seq<u8>)
    ensures
        take_all_varints(b) matches Some(values) ==> forall|i: int|
            0 <= i < values.len() ==> 0 <= #[trigger] values[i] <= u64::MAX,
    decreases b.len(),
{
    if b.len() > 0 {
        lemma_take_varint(b);
        match take_varint(b) {
            Ok((v, rest)) => lemma_all_varints_range(rest),
            Err(_) => {},
        }
    }
}

proof fn lemma_repeated_range(wire: int, b: Seq<u8>)
    ensures
        take_repeated(wire, b) matches Some((values, rest)) ==> forall|i: int|
            0 <= i < values.len() ==> 0 <= #[trigger] values[i] <= u64::MAX,
{
    lemma_take_varint(b);
    match take_bytes(b) {
        Some((body, _)) => lemma_all_varints_range(body),
        None => {},
    }
}

pub open spec fn raw_ints(values: Seq<u64>) -> Seq<int> {
    values.map_values(|v: u64| v as int)
}

/// A decoded flat message before its fields get their names.
struct FlatMsg {
    row: Vec<u32>,
    lists: Vec<Vec<u64>>,
}

impl View for FlatMsg {
    type V = FlatV;

    closed spec fn view(&self) -> FlatV {
        FlatV {
            row: self.row@,
            lists: self.lists@.map_values(|l: Vec<u64>| raw_ints(l@)),
        }
    }
}

fn empty_msg(scalars: usize, lists: usize) -> (msg: FlatMsg)
    ensures
        msg.row@ == Seq::new(scalars as nat, |i: int| 0u32),
        msg.lists@.len() == lists,
        forall|k: int| 0 <= k < lists ==> (#[trigger] msg.lists@[k])@ == Seq::<u64>::empty(),
{
    let mut row: Vec<u32> = Vec::new();
    let mut i: usize = 0;
    while i < scalars
        invariant
            i <= scalars,
            row@ == Seq::new(i as nat, |i: int| 0u32),
        decreases scalars - i,
    {
        row.push(0);
        assert(row@ =~= Seq::new((i + 1) as nat, |i: int| 0u32));
        i = i + 1;
    }
    let mut ls: Vec<Vec<u64>> = Vec::new();
    let mut k: usize = 0;
    while k < lists
        invariant
            k <= lists,
            ls@.len() == k,
            forall|j: int| 0 <= j < k ==> (#[trigger] ls@[j])@ == Seq::<u64>::empty(),
        decreases lists - k,
    {
        ls.push(Vec::new());
        k = k + 1;
    }
    FlatMsg { row, lists: ls }
}

fn append_values(list: &mut Vec<u64>, values: &Vec<u64>, signed: bool)
    ensures
        raw_ints(final(list)@) == raw_ints(old(list)@) + list_values(signed, raw_ints(values@)),
{
    let mut i: usize = 0;
    assert(raw_ints(list@) =~= raw_ints(old(list)@) + list_values(
        signed,
        raw_ints(values@.take(0)),
    ));
    while i < values.len()
        invariant
            i <= values@.len(),
            raw_ints(list@) == raw_ints(old(list)@) + list_values(
                signed,
                raw_ints(values@.take(i as int)),
            ),
        decreases values@.len() - i,
    {
        let v: u64 = values[i];
        let ghost before = list@;
        if signed {
            list.push(v);
        } else {
            list.push(v % 0x1_0000_0000);
        }
        proof {
            let w = list_value(signed, v as int);
            assert(raw_ints(list@) =~= raw_ints(before).push(w));
            assert(list_values(signed, raw_ints(values@.take(i + 1))) =~= list_values(
                signed,
                raw_ints(values@.take(i as int)),
            ).push(w));
            assert(raw_ints(old(list)@) + list_values(signed, raw_ints(values@.take(i as int)))
                .push(w) =~= (raw_ints(old(list)@) + list_values(
                signed,
                raw_ints(values@.take(i as int)),
            )).push(w));
        }
        i = i + 1;
    }
    assert(values@.take(i as int) =~= values@);
}

fn decode_flat(bytes: &[u8], scalars: usize, signed: &[bool], depth: u32) -> (res: Option<FlatMsg>)
    requires
        scalars < 100,
        signed@.len() < 100,
        depth > 0,
    ensures
        ({
            let shape = Shape { scalars: scalars as int, signed: signed@ };
            match res {
                Some(m) => flat_decoded(shape, bytes@, depth as int) == Some(m@) && has_shape(
                    m@,
                    shape,
                ),
                None => flat_decoded(shape, bytes@, depth as int) is None,
            }
        }),
{
    let ghost shape = Shape { scalars: scalars as int, signed: signed@ };
    let mut msg = empty_msg(scalars, signed.len());
    let mut at: usize = 0;
    proof {
        assert(msg@ =~= empty_flat(shape)) by {
            assert forall|k: int| 0 <= k < signed@.len() implies #[trigger] msg@.lists[k]
                =~= Seq::empty() by {
                assert(msg.lists@[k]@ == Seq::<u64>::empty());
            }
        }
        assert(bytes@.skip(0) =~= bytes@);
        lemma_merge_flat_shape(shape, empty_flat(shape), bytes@, depth as int);
    }
    while at < bytes.len()
        invariant
            at <= bytes@.len(),
            scalars < 100,
            signed@.len() < 100,
            shape == (Shape { scalars: scalars as int, signed: signed@ }),
            msg.row@.len() == scalars,
            msg.lists@.len() == signed@.len(),
            flat_decoded(shape, bytes@, depth as int) == merge_flat(
                shape,
                msg@,
                bytes@.skip(at as int),
                depth as int,
            ),
        decreases bytes@.len() - at,
    {
        match read_key(bytes, at) {
            None => {
                return None;
            },
            Some((tag, wire, next)) => {
                if tag as usize <= scalars {
                    match read_varint_at(bytes, next) {
                        Ok((v, after)) => {
                            if wire != WIRE_VARINT {
                                return None;
                            }
                            let ghost before = msg@;
                            msg.row.set(tag as usize - 1, (v % 0x1_0000_0000) as u32);
                            assert(msg@ =~= FlatV {
                                row: before.row.update(tag - 1, low32(v as int)),
                                lists: before.lists,
                            });
                            at = after;
                        },
                        Err(_) => {
                            return None;
                        },
                    }
                } else if tag as usize <= scalars + signed.len() {
                    match read_repeated(wire, bytes, next) {
                        Some((values, after)) => {
                            let ghost before = msg@;
                            let ghost before_lists = msg.lists@;
                            let k: usize = tag as usize - 1 - scalars;
                            let mut list: Vec<u64> = Vec::new();
                            std::mem::swap(&mut list, &mut msg.lists[k]);
                            append_values(&mut list, &values, signed[k]);
                            msg.lists.set(k, list);
                            proof {
                                let grown = with_list(shape, before, k as int, raw_ints(values@));
                                assert forall|j: int| 0 <= j < before.lists.len() implies
                                    #[trigger] msg@.lists[j] =~= grown.lists[j] by {
                                    if j != k {
                                        assert(msg.lists@[j] == before_lists[j]);
                                    }
                                }
                                assert(msg@ =~= grown);
                            }
                            at = after;
                        },
                        None => {
                            return None;
                        },
                    }
                } else {
                    match skip_field_at(wire, tag, bytes, next, depth) {
                        Some(after) => {
                            at = after;
                        },
                        None => {
                            return None;
                        },
                    }
                }
            },
        }
    }
    assert(bytes@.skip(at as int) =~= Seq::empty());
    Some(msg)
}

fn to_u32s(raw: &Vec<u64>) -> (res: Vec<u32>)
    requires
        forall|i: int| 0 <= i < raw@.len() ==> #[trigger] raw@[i] <= u32::MAX,
    ensures
        ints(res@) == raw_ints(raw@),
{
    let mut res: Vec<u32> = Vec::new();
    let mut i: usize = 0;
    while i < raw.len()
        invariant
            i <= raw@.len(),
            res@.len() == i,
            forall|j: int| 0 <= j < raw@.len() ==> #[trigger] raw@[j] <= u32::MAX,
            forall|j: int| 0 <= j < i ==> res@[j] as int == #[trigger] raw@[j] as int,
        decreases raw@.len() - i,
    {
        res.push(raw[i] as u32);
        i = i + 1;
    }
    assert(ints(res@) =~= raw_ints(raw@));
    res
}

fn to_i64s(raw: &Vec<u64>) -> (res: Vec<i64>)
    ensures
        zigzags(res@) == raw_ints(raw@),
{
    let mut res: Vec<i64> = Vec::new();
    let mut i: usize = 0;
    while i < raw.len()
        invariant
            i <= raw@.len(),
            res@.len() == i,
            forall|j: int|
                0 <= j < i ==> res@[j] as int == unzigzag(#[trigger] raw@[j] as int),
        decreases raw@.len() - i,
    {
        res.push(unzigzag_i64(raw[i]));
        i = i + 1;
    }
    assert(zigzags(res@) =~= raw_ints(raw@));
    res
}

proof fn lemma_small_list(m: FlatMsg, shape: Shape, k: int)
    requires
        has_shape(m@, shape),
        0 <= k < m.lists@.len(),
        !shape.signed[k],
    ensures
        forall|i: int| 0 <= i < m.lists@[k]@.len() ==> #[trigger] m.lists@[k]@[i] <= u32::MAX,
        m@.lists[k] == raw_ints(m.lists@[k]@),
{
    assert(m@.lists[k] == raw_ints(m.lists@[k]@));
    assert forall|i: int| 0 <= i < m.lists@[k]@.len() implies #[trigger] m.lists@[k]@[i]
        <= u32::MAX by {
        assert(m@.lists[k][i] == m.lists@[k]@[i] as int);
    }
}

impl Flat for Participant {
    open spec fn shape() -> Shape {
        participant_shape()
    }

    proof fn lemma_shape(&self) {
    }

    fn row(&self) -> (row: Vec<u32>) {
        let row: Vec<u32> = vec![self.player_id, self.champion_id, self.position, self.spell1, self.spell2];
        assert(row@ =~= self@.row);
        row
    }

    fn encode(&self, out: &mut Vec<u8>) {
        let row = self.row();
        put_row(out, row.as_slice());
        put_packed_u32(out, 6, self.runes.as_slice());
        put_packed_i64(out, 7, self.stats.as_slice());
        proof {
            reveal_with_fuel(list_fields, 3);
            assert(out@ =~= old(out)@ + flat_bytes(self@));
        }
    }

    fn decode(bytes: &[u8], depth: u32) -> (res: Option<Self>) {
        let signed: [bool; 2] = [false, true];
        assert(signed@ =~= Self::shape().signed);
        match decode_flat(bytes, 5, signed.as_slice(), depth) {
            Some(m) => {
                proof {
                    lemma_small_list(m, Self::shape(), 0);
                }
                let p = Participant {
                    player_id: m.row[0],
                    champion_id: m.row[1],
                    position: m.row[2],
                    spell1: m.row[3],
                    spell2: m.row[4],
                    runes: to_u32s(&m.lists[0]),
                    stats: to_i64s(&m.lists[1]),
                };
                assert(p@.row =~= m@.row);
                assert(p@.lists =~= m@.lists);
                Some(p)
            },
            None => None,
        }
    }
}

impl Flat for MinuteFrame {
    open spec fn shape() -> Shape {
        timeline_shape(1)
    }

    proof fn lemma_shape(&self) {
    }

    fn row(&self) -> (row: Vec<u32>) {
        let row: Vec<u32> = vec![self.minute];
        assert(row@ =~= self@.row);
        row
    }

    fn encode(&self, out: &mut Vec<u8>) {
        let row = self.row();
        put_row(out, row.as_slice());
        put_packed_u32(out, 2, self.total_gold.as_slice());
        put_packed_u32(out, 3, self.xp.as_slice());
        put_packed_u32(out, 4, self.cs.as_slice());
        put_packed_u32(out, 5, self.dmg_to_champs.as_slice());
        proof {
            reveal_with_fuel(list_fields, 5);
            assert(out@ =~= old(out)@ + flat_bytes(self@));
        }
    }

    fn decode(bytes: &[u8], depth: u32) -> (res: Option<Self>) {
        let signed: [bool; 4] = [false, false, false, false];
        assert(signed@ =~= Self::shape().signed);
        match decode_flat(bytes, 1, signed.as_slice(), depth) {
            Some(m) => {
                proof {
                    lemma_small_list(m, Self::shape(), 0);
                    lemma_small_list(m, Self::shape(), 1);
                    lemma_small_list(m, Self::shape(), 2);
                    lemma_small_list(m, Self::shape(), 3);
                }
                let f = MinuteFrame {
                    minute: m.row[0],
                    total_gold: to_u32s(&m.lists[0]),
                    xp: to_u32s(&m.lists[1]),
                    cs: to_u32s(&m.lists[2]),
                    dmg_to_champs: to_u32s(&m.lists[3]),
                };
                assert(f@.row =~= m@.row);
                assert(f@.lists =~= m@.lists);
                Some(f)
            },
            None => None,
        }
    }
}

fn decode_event(bytes: &[u8], scalars: usize, depth: u32) -> (res: Option<Vec<u32>>)
    requires
        scalars < 100,
        depth > 0,
    ensures
        ({
            let shape = Shape { scalars: scalars as int, signed: Seq::empty() };
            match res {
                Some(row) => row@.len() == scalars && flat_decoded(shape, bytes@, depth as int)
                    == Some(FlatV { row: row@, lists: Seq::empty() }),
                None => flat_decoded(shape, bytes@, depth as int) is None,
            }
        }),
{
    let none: [bool; 0] = [];
    assert(none@ =~= Seq::empty());
    match decode_flat(bytes, scalars, none.as_slice(), depth) {
        Some(m) => {
            assert(m@.lists =~= Seq::empty());
            Some(m.row)
        },
        None => None,
    }
}

impl Flat for KillEvent {
    open spec fn shape() -> Shape {
        timeline_shape(2)
    }

    proof fn lemma_shape(&self) {
    }

    fn row(&self) -> (row: Vec<u32>) {
        let row: Vec<u32> = vec![self.t_s, self.killer, self.victim, self.assist_mask, self.x, self.y];
        assert(row@ =~= self@.row);
        row
    }

    fn encode(&self, out: &mut Vec<u8>) {
        let row = self.row();
        put_row(out, row.as_slice());
        assert(out@ =~= old(out)@ + flat_bytes(self@));
    }

    fn decode(bytes: &[u8], depth: u32) -> (res: Option<Self>) {
        match decode_event(bytes, 6, depth) {
            Some(row) => {
                let e = KillEvent {
                    t_s: row[0],
                    killer: row[1],
                    victim: row[2],
                    assist_mask: row[3],
                    x: row[4],
                    y: row[5],
                };
                assert(e@.row =~= row@);
                Some(e)
            },
            None => None,
        }
    }
}

impl Flat for ObjectiveEvent {
    open spec fn shape() -> Shape {
        timeline_shape(3)
    }

    proof fn lemma_shape(&self) {
    }

    fn row(&self) -> (row: Vec<u32>) {
        let row: Vec<u32> = vec![self.t_s, self.kind, self.killer, self.losing_team, self.lane];
        assert(row@ =~= self@.row);
        row
    }

    fn encode(&self, out: &mut Vec<u8>) {
        let row = self.row();
        put_row(out, row.as_slice());
        assert(out@ =~= old(out)@ + flat_bytes(self@));
    }

    fn decode(bytes: &[u8], depth: u32) -> (res: Option<Self>) {
        match decode_event(bytes, 5, depth) {
            Some(row) => {
                let e = ObjectiveEvent {
                    t_s: row[0],
                    kind: row[1],
                    killer: row[2],
                    losing_team: row[3],
                    lane: row[4],
                };
                assert(e@.row =~= row@);
                Some(e)
            },
            None => None,
        }
    }
}

impl Flat for WardEvent {
    open spec fn shape() -> Shape {
        timeline_shape(4)
    }

    proof fn lemma_shape(&self) {
    }

    fn row(&self) -> (row: Vec<u32>) {
        let row: Vec<u32> = vec![self.t_s, self.kind, self.participant];
        assert(row@ =~= self@.row);
        row
    }

    fn encode(&self, out: &mut Vec<u8>) {
        let row = self.row();
        put_row(out, row.as_slice());
        assert(out@ =~= old(out)@ + flat_bytes(self@));
    }

    fn decode(bytes: &[u8], depth: u32) -> (res: Option<Self>) {
        match decode_event(bytes, 3, depth) {
            Some(row) => {
                let e = WardEvent { t_s: row[0], kind: row[1], participant: row[2] };
                assert(e@.row =~= row@);
                Some(e)
            },
            None => None,
        }
    }
}

/// Calls [`String::from_utf8`]: the bytes as a string, which succeeds exactly
/// when they are valid UTF-8, and then keeps them as they are.
#[verifier::external_body]
pub(crate) fn string_from_utf8(bytes: &[u8]) -> (res: Option<String>)
    ensures
        match res {
            Some(s) => valid_utf8(bytes@) && encode_utf8(s@) == bytes@,
            None => !valid_utf8(bytes@),
        },
{
    String::from_utf8(bytes.to_vec()).ok()
}

impl Default for TimelineLite {
    fn default() -> (res: Self)
        ensures
            res@ == empty_timeline(),
    {
        let t = TimelineLite {
            frames: Vec::new(),
            kills: Vec::new(),
            objectives: Vec::new(),
            wards: Vec::new(),
        };
        proof {
            assert(views(t.frames@) =~= Seq::empty());
            assert(views(t.kills@) =~= Seq::empty());
            assert(views(t.objectives@) =~= Seq::empty());
            assert(views(t.wards@) =~= Seq::empty());
            assert(t@ =~= empty_timeline());
        }
        t
    }
}

impl Default for Participant {
    fn default() -> (res: Self)
        ensures
            res@ == empty_flat(participant_shape()),
    {
        let p = Participant {
            player_id: 0,
            champion_id: 0,
            position: 0,
            spell1: 0,
            spell2: 0,
            runes: Vec::new(),
            stats: Vec::new(),
        };
        proof {
            let e = empty_flat(participant_shape());
            assert(p@.row =~= e.row);
            assert(p@.lists[0] =~= e.lists[0]);
            assert(p@.lists[1] =~= e.lists[1]);
            assert(p@.lists =~= e.lists);
        }
        p
    }
}

impl Default for MatchRecord {
    fn default() -> (res: Self)
        ensures
            res@ == empty_record(),
    {
        let r = MatchRecord {
            schema_version: 0,
            game_id: 0,
            platform: String::new(),
            queue_id: 0,
            game_start_ms: 0,
            duration_s: 0,
            blue_won: false,
            game_version: String::new(),
            patch_major: 0,
            patch_minor: 0,
            participants: Vec::new(),
            timeline: None,
            bans: Vec::new(),
        };
        proof {
            assert(encode_utf8(Seq::<char>::empty()) =~= Seq::empty());
            assert(r.platform@ =~= Seq::<char>::empty());
            assert(r.game_version@ =~= Seq::<char>::empty());
            assert(r@ =~= empty_record());
        }
        r
    }
}

/// Pushing an item pushes its view.
proof fn lemma_views_push<M: View>(items: Seq<M>, item: M)
    ensures
        views(items.push(item)) == views(items).push(item@),
{
    assert(views(items.push(item)) =~= views(items).push(item@));
}

fn decode_timeline_onto(t: TimelineLite, bytes: &[u8], depth: u32) -> (res: Option<TimelineLite>)
    requires
        depth > 1,
    ensures
        match res {
            Some(n) => merge_timeline(t@, bytes@, depth as int) == Some(n@),
            None => merge_timeline(t@, bytes@, depth as int) is None,
        },
{
    let mut acc = t;
    let mut at: usize = 0;
    assert(bytes@.skip(0) =~= bytes@);
    while at < bytes.len()
        invariant
            at <= bytes@.len(),
            depth > 1,
            merge_timeline(t@, bytes@, depth as int) == merge_timeline(
                acc@,
                bytes@.skip(at as int),
                depth as int,
            ),
        decreases bytes@.len() - at,
    {
        match read_key(bytes, at) {
            None => {
                return None;
            },
            Some((tag, wire, next)) => {
                if tag <= 4 {
                    match read_bytes(bytes, next) {
                        None => {
                            return None;
                        },
                        Some((start, end)) => {
                            if wire != WIRE_BYTES {
                                return None;
                            }
                            let body = vstd::slice::slice_subrange(bytes, start, end);
                            let ghost before = acc;
                            if tag == 1 {
                                match MinuteFrame::decode(body, depth - 1) {
                                    None => {
                                        return None;
                                    },
                                    Some(item) => {
                                        acc.frames.push(item);
                                        proof {
                                            lemma_views_push(before.frames@, item);
                                            assert(acc@ =~= before@.update(
                                                0,
                                                before@[0].push(item@),
                                            ));
                                        }
                                    },
                                }
                            } else if tag == 2 {
                                match KillEvent::decode(body, depth - 1) {
                                    None => {
                                        return None;
                                    },
                                    Some(item) => {
                                        acc.kills.push(item);
                                        proof {
                                            lemma_views_push(before.kills@, item);
                                            assert(acc@ =~= before@.update(
                                                1,
                                                before@[1].push(item@),
                                            ));
                                        }
                                    },
                                }
                            } else if tag == 3 {
                                match ObjectiveEvent::decode(body, depth - 1) {
                                    None => {
                                        return None;
                                    },
                                    Some(item) => {
                                        acc.objectives.push(item);
                                        proof {
                                            lemma_views_push(before.objectives@, item);
                                            assert(acc@ =~= before@.update(
                                                2,
                                                before@[2].push(item@),
                                            ));
                                        }
                                    },
                                }
                            } else {
                                match WardEvent::decode(body, depth - 1) {
                                    None => {
                                        return None;
                                    },
                                    Some(item) => {
                                        acc.wards.push(item);
                                        proof {
                                            lemma_views_push(before.wards@, item);
                                            assert(acc@ =~= before@.update(
                                                3,
                                                before@[3].push(item@),
                                            ));
                                        }
                                    },
                                }
                            }
                            at = end;
                        },
                    }
                } else {
                    match skip_field_at(wire, tag, bytes, next, depth) {
                        Some(after) => {
                            at = after;
                        },
                        None => {
                            return None;
                        },
                    }
                }
            },
        }
    }
    assert(bytes@.skip(at as int) =~= Seq::empty());
    Some(acc)
}

impl MatchRecord {
    fn set_number(&mut self, tag: u32, v: u64)
        requires
            is_number_tag(tag as int),
        ensures
            final(self)@ == with_number(old(self)@, tag as int, v as int),
    {
        let low: u32 = (v % 0x1_0000_0000) as u32;
        if tag == 1 {
            self.schema_version = low;
        } else if tag == 2 {
            self.game_id = v;
        } else if tag == 4 {
            self.queue_id = low;
        } else if tag == 5 {
            self.game_start_ms = u64_to_i64(v);
        } else if tag == 6 {
            self.duration_s = low;
        } else if tag == 7 {
            self.blue_won = v != 0;
        } else if tag == 9 {
            self.patch_major = low;
        } else {
            self.patch_minor = low;
        }
    }

    /// Takes one length-delimited field; on failure the record is unusable.
    fn set_body(&mut self, tag: u32, body: &[u8], depth: u32) -> (ok: bool)
        requires
            tag == 3 || tag == 8 || tag == 11 || tag == 12,
            depth > 2,
        ensures
            ok ==> with_body(old(self)@, tag as int, body@, depth as int) == Some(final(self)@),
            !ok ==> with_body(old(self)@, tag as int, body@, depth as int) is None,
    {
        let ghost before = self@;
        if tag == 3 {
            match string_from_utf8(body) {
                Some(text) => {
                    self.platform = text;
                    true
                },
                None => false,
            }
        } else if tag == 8 {
            match string_from_utf8(body) {
                Some(text) => {
                    self.game_version = text;
                    true
                },
                None => false,
            }
        } else if tag == 11 {
            match Participant::decode(body, depth - 1) {
                Some(p) => {
                    let ghost was = self.participants@;
                    self.participants.push(p);
                    proof {
                        lemma_views_push(was, p);
                        assert(self@ =~= RecordV {
                            participants: before.participants.push(p@),
                            ..before
                        });
                    }
                    true
                },
                None => false,
            }
        } else {
            let base = match self.timeline.take() {
                Some(t) => t,
                None => TimelineLite::default(),
            };
            match decode_timeline_onto(base, body, depth - 1) {
                Some(t) => {
                    self.timeline = Some(t);
                    assert(self@ =~= RecordV { timeline: Some(t@), ..before });
                    true
                },
                None => false,
            }
        }
    }

    /// The record that the bytes encode. Fields may come in any order and
    /// repeat; unknown ones are skipped.
    pub fn decode(bytes: &[u8]) -> (res: Option<MatchRecord>)
        ensures
            match res {
                Some(r) => record_decoded(bytes@) == Some(r@),
                None => record_decoded(bytes@) is None,
            },
    {
        let mut acc = MatchRecord::default();
        let mut at: usize = 0;
        proof {
            reveal(record_decoded);
            assert(bytes@.skip(0) =~= bytes@);
        }
        while at < bytes.len()
            invariant
                at <= bytes@.len(),
                record_decoded(bytes@) == merge_record(
                    acc@,
                    bytes@.skip(at as int),
                    RECURSION_LIMIT as int,
                ),
            decreases bytes@.len() - at,
        {
            match read_key(bytes, at) {
                None => {
                    return None;
                },
                Some((tag, wire, next)) => {
                    if tag == 1 || tag == 2 || tag == 4 || tag == 5 || tag == 6 || tag == 7 || tag
                        == 9 || tag == 10 {
                        match read_varint_at(bytes, next) {
                            Ok((v, after)) => {
                                if wire != WIRE_VARINT {
                                    return None;
                                }
                                acc.set_number(tag, v);
                                at = after;
                            },
                            Err(_) => {
                                return None;
                            },
                        }
                    } else if tag < 13 {
                        match read_bytes(bytes, next) {
                            Some((start, end)) => {
                                if wire != WIRE_BYTES {
                                    return None;
                                }
                                let body = vstd::slice::slice_subrange(bytes, start, end);
                                if !acc.set_body(tag, body, RECURSION_LIMIT) {
                                    return None;
                                }
                                at = end;
                            },
                            None => {
                                return None;
                            },
                        }
                    } else if tag == 13 {
                        match read_repeated(wire, bytes, next) {
                            Some((values, after)) => {
                                let ghost before = acc@;
                                let bans = append_low32(&acc.bans, &values);
                                acc.bans = bans;
                                assert(acc@ =~= RecordV {
                                    bans: before.bans + crate::wire::low32s(raw_ints(values@)),
                                    ..before
                                });
                                at = after;
                            },
                            None => {
                                return None;
                            },
                        }
                    } else {
                        match skip_field_at(wire, tag, bytes, next, RECURSION_LIMIT) {
                            Some(after) => {
                                at = after;
                            },
                            None => {
                                return None;
                            },
                        }
                    }
                },
            }
        }
        assert(bytes@.skip(at as int) =~= Seq::empty());
        Some(acc)
    }
}

fn append_low32(list: &Vec<u32>, values: &Vec<u64>) -> (res: Vec<u32>)
    ensures
        res@ == list@ + crate::wire::low32s(raw_ints(values@)),
{
    let mut res: Vec<u32> = Vec::new();
    let mut i: usize = 0;
    while i < list.len()
        invariant
            i <= list@.len(),
            res@ == list@.take(i as int),
        decreases list@.len() - i,
    {
        res.push(list[i]);
        assert(list@.take(i + 1) =~= list@.take(i as int).push(list@[i as int]));
        i = i + 1;
    }
    let mut k: usize = 0;
    assert(res@ =~= list@ + crate::wire::low32s(raw_ints(values@.take(0))));
    while k < values.len()
        invariant
            k <= values@.len(),
            res@ == list@ + crate::wire::low32s(raw_ints(values@.take(k as int))),
        decreases values@.len() - k,
    {
        res.push((values[k] % 0x1_0000_0000) as u32);
        assert(res@ =~= list@ + crate::wire::low32s(raw_ints(values@.take(k + 1))));
        k = k + 1;
    }
    assert(values@.take(k as int) =~= values@);
    res
}

/// Every match record is valid.
pub proof fn lemma_record_valid(r: MatchRecord)
    ensures
        record_valid(r@),
{
    broadcast use vstd::utf8::encode_utf8_valid_utf8;

    assert forall|i: int| #![trigger r@.participants[i]]
        0 <= i < r@.participants.len() implies has_shape(
        r@.participants[i],
        participant_shape(),
    ) by {
        r.participants@[i].lemma_shape();
    }
    match r.timeline {
        Some(t) => {
            assert forall|k: int, i: int| #![trigger t@[k][i]]
                0 <= k < 4 && 0 <= i < t@[k].len() implies has_shape(
                t@[k][i],
                timeline_shape(k + 1),
            ) by {
                if k == 0 {
                    t.frames@[i].lemma_shape();
                } else if k == 1 {
                    t.kills@[i].lemma_shape();
                } else if k == 2 {
                    t.objectives@[i].lemma_shape();
                } else {
                    t.wards@[i].lemma_shape();
                }
            }
        },
        None => {},
    }
}

} // verus!
