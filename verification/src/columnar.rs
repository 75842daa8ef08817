//! Columnar form of a block of match records.
//!
//! Values of one field over all records of a block sit next to each other,
//! which is what a general compressor likes. The payload built here is
//! uncompressed; callers own the outer compression. Layout:
//!
//! ```text
//! magic      4 bytes: b"LCOL"
//! version    1 byte:  1
//! records    varint:  number of records in the block
//! stats      varint:  number of dynamic stat columns present
//! runes      varint:  number of dynamic rune columns present
//! lengths    varint[] byte length of each column, in column order
//! columns    bytes:   column payloads back to back, in the same order
//! ```
//!
//! Column order is fixed: the 50 columns named below, then the stat columns,
//! then the rune columns. The dynamic counts are the longest stat and rune
//! lists in the block. Deltas are local to the block and start from zero.

use crate::record::{
    encode_parts, record_bytes, views, FlatV, Head, KillEvent, MinuteFrame, ObjectiveEvent,
    Participant, RecordV, TimelineLite, WardEvent,
};
use crate::wire::{
    ints, push_all, read_varint_at, take_varint, unzigzag, unzigzag_i64, varint, zigzags,
    VarintFault,
};
use vstd::prelude::*;

verus! {

pub const VERSION: u8 = 1;

/// The fixed columns. Each name says whose values the column holds.
pub const SCHEMA: usize = 0;

pub const GID_D: usize = 1;

pub const PLAT_LEN: usize = 2;

pub const PLAT: usize = 3;

pub const QUEUE: usize = 4;

pub const START_D: usize = 5;

pub const DUR: usize = 6;

pub const BLUE: usize = 7;

pub const GV_LEN: usize = 8;

pub const GV: usize = 9;

pub const PMAJ: usize = 10;

pub const PMIN: usize = 11;

pub const BANS_N: usize = 12;

pub const BANS: usize = 13;

pub const NPARTS: usize = 14;

/// First of five: player, champion, position and the two spells.
pub const P_PLAYER: usize = 15;

pub const P_RUNES_N: usize = 20;

pub const P_STATS_N: usize = 21;

pub const TL_PRESENT: usize = 22;

pub const NFRAMES: usize = 23;

pub const F_MINUTE: usize = 24;

/// First of four pairs of count and values: gold, experience, creeps, damage.
pub const F_GOLD_N: usize = 25;

pub const NKILLS: usize = 33;

/// First of six: time, killer, victim, assists and the two coordinates.
pub const K_T: usize = 34;

pub const NOBJS: usize = 40;

/// First of five: time, kind, killer, losing team, lane.
pub const O_T: usize = 41;

pub const NWARDS: usize = 46;

/// First of three: time, kind, participant.
pub const W_T: usize = 47;

/// How many fixed columns there are.
pub const NMISC: usize = 50;

/// A column of a block.
#[derive(Clone, Copy, Debug, PartialEq, Eq, Structural)]
pub enum Column {
    Fixed(usize),
    Stat(usize),
    Rune(usize),
}

/// A number in the block header.
#[derive(Clone, Copy, Debug, PartialEq, Eq, Structural)]
pub enum HeaderField {
    Records,
    StatColumns,
    RuneColumns,
    ColumnLength(usize),
}

/// Why a payload is not a block.
#[derive(Clone, Copy, Debug, PartialEq, Eq, Structural)]
pub enum BlockFault {
    TruncatedHeader,
    BadMagic,
    UnsupportedVersion,
    HeaderVarint(HeaderField, VarintFault),
    /// A header number does not fit in `usize`.
    HeaderRange(HeaderField),
    TooManyColumns,
    TruncatedManifest,
    LengthsOverflow,
    TruncatedData,
    TrailingData,
    /// A varint of a column cannot be read.
    Varint(Column, VarintFault),
    /// A column holds fewer bytes than a length says.
    TruncatedBytes(Column),
    /// A value is outside what its field can hold.
    Range(Column),
    /// A record needs a dynamic column that the block lacks.
    Missing(Column),
    /// Bytes of a column are left after the last record.
    Unconsumed(Column),
}

/// Why a payload was refused, and the record it happened in, if in one.
#[derive(Clone, Copy, Debug, PartialEq, Eq, Structural)]
pub struct BlockError {
    pub record: Option<usize>,
    pub fault: BlockFault,
}

/// Why records were refused.
#[derive(Clone, Copy, Debug, PartialEq, Eq, Structural)]
pub enum EncodeError {
    /// Input record `record` is not a match record.
    Undecodable { record: usize },
    /// The game id is too far from that of the record before.
    GameIdDelta { record: usize },
    /// The start time is too far from that of the record before.
    StartDelta { record: usize },
    /// The block would give back other bytes than it was given: the lengths of
    /// the input and of what would come back, and where they first differ.
    Mismatch { record: usize, input: usize, decoded: usize, first_diff: usize },
}

/// The contents of all columns, or what is left of them.
#[verifier::ext_equal]
pub struct Streams {
    pub fixed: Seq<Seq<u8>>,
    pub stat: Seq<Seq<u8>>,
    pub rune: Seq<Seq<u8>>,
}

pub open spec fn has_column(s: Streams, c: Column) -> bool {
    match c {
        Column::Fixed(i) => i < s.fixed.len(),
        Column::Stat(i) => i < s.stat.len(),
        Column::Rune(i) => i < s.rune.len(),
    }
}

pub open spec fn column(s: Streams, c: Column) -> Seq<u8> {
    match c {
        Column::Fixed(i) => s.fixed[i as int],
        Column::Stat(i) => s.stat[i as int],
        Column::Rune(i) => s.rune[i as int],
    }
}

pub open spec fn with_column(s: Streams, c: Column, bytes: Seq<u8>) -> Streams {
    match c {
        Column::Fixed(i) => Streams { fixed: s.fixed.update(i as int, bytes), ..s },
        Column::Stat(i) => Streams { stat: s.stat.update(i as int, bytes), ..s },
        Column::Rune(i) => Streams { rune: s.rune.update(i as int, bytes), ..s },
    }
}

/// Reads a varint off a column.
pub open spec fn take_col(s: Streams, c: Column) -> Result<(int, Streams), BlockFault> {
    if !has_column(s, c) {
        Err(BlockFault::Missing(c))
    } else {
        match take_varint(column(s, c)) {
            Ok((v, rest)) => Ok((v, with_column(s, c, rest))),
            Err(f) => Err(BlockFault::Varint(c, f)),
        }
    }
}

/// Reads a number of at most `max` off a column.
pub open spec fn take_max(s: Streams, c: Column, max: int) -> Result<(int, Streams), BlockFault> {
    match take_col(s, c) {
        Ok((v, s1)) => if v <= max {
            Ok((v, s1))
        } else {
            Err(BlockFault::Range(c))
        },
        Err(f) => Err(f),
    }
}

pub open spec fn take_u32(s: Streams, c: Column) -> Result<(int, Streams), BlockFault> {
    take_max(s, c, u32::MAX as int)
}

pub open spec fn take_count(s: Streams, c: Column) -> Result<(int, Streams), BlockFault> {
    take_max(s, c, usize::MAX as int)
}

/// Reads a difference to `prev` off a column; the sum must lie in `lo..=hi`.
pub open spec fn take_delta(s: Streams, c: Column, prev: int, lo: int, hi: int) -> Result<
    (int, Streams),
    BlockFault,
> {
    match take_col(s, c) {
        Ok((v, s1)) => if lo <= prev + unzigzag(v) <= hi {
            Ok((prev + unzigzag(v), s1))
        } else {
            Err(BlockFault::Range(c))
        },
        Err(f) => Err(f),
    }
}

/// Reads `n` bytes off a column.
pub open spec fn take_raw(s: Streams, c: Column, n: int) -> Result<
    (Seq<u8>, Streams),
    BlockFault,
> {
    if n <= column(s, c).len() {
        Ok((column(s, c).take(n), with_column(s, c, column(s, c).skip(n))))
    } else {
        Err(BlockFault::TruncatedBytes(c))
    }
}

/// Reads one value each off `n` neighbouring columns from `base` on.
pub open spec fn take_row(s: Streams, base: int, n: int) -> Result<(Seq<u32>, Streams), BlockFault>
    decreases n,
{
    if n <= 0 {
        Ok((Seq::empty(), s))
    } else {
        match take_u32(s, Column::Fixed(base as usize)) {
            Ok((v, s1)) => match take_row(s1, base + 1, n - 1) {
                Ok((more, s2)) => Ok((seq![v as u32] + more, s2)),
                Err(f) => Err(f),
            },
            Err(f) => Err(f),
        }
    }
}

/// Reads `n` values off one column.
pub open spec fn take_list(s: Streams, c: Column, n: int) -> Result<(Seq<u32>, Streams), BlockFault>
    decreases n,
{
    if n <= 0 {
        Ok((Seq::empty(), s))
    } else {
        match take_u32(s, c) {
            Ok((v, s1)) => match take_list(s1, c, n - 1) {
                Ok((more, s2)) => Ok((seq![v as u32] + more, s2)),
                Err(f) => Err(f),
            },
            Err(f) => Err(f),
        }
    }
}

/// The dynamic column of a list slot: stats and runes each have their own.
pub open spec fn slot(stats: bool, k: int) -> Column {
    if stats {
        Column::Stat(k as usize)
    } else {
        Column::Rune(k as usize)
    }
}

/// Reads one value each off the dynamic columns `k..n`.
pub open spec fn take_slots(s: Streams, stats: bool, k: int, n: int) -> Result<
    (Seq<int>, Streams),
    BlockFault,
>
    decreases n - k,
{
    if k >= n {
        Ok((Seq::empty(), s))
    } else {
        match take_max(
            s,
            slot(stats, k),
            if stats {
                u64::MAX as int
            } else {
                u32::MAX as int
            },
        ) {
            Ok((v, s1)) => match take_slots(s1, stats, k + 1, n) {
                Ok((more, s2)) => Ok((seq![v] + more, s2)),
                Err(f) => Err(f),
            },
            Err(f) => Err(f),
        }
    }
}

pub open spec fn take_participant(s: Streams) -> Result<(FlatV, Streams), BlockFault> {
    match take_row(s, P_PLAYER as int, 5) {
        Err(f) => Err(f),
        Ok((row, s1)) => match take_count(s1, Column::Fixed(P_RUNES_N)) {
            Err(f) => Err(f),
            Ok((n_runes, s2)) => match take_slots(s2, false, 0, n_runes) {
                Err(f) => Err(f),
                Ok((runes, s3)) => match take_count(s3, Column::Fixed(P_STATS_N)) {
                    Err(f) => Err(f),
                    Ok((n_stats, s4)) => match take_slots(s4, true, 0, n_stats) {
                        Err(f) => Err(f),
                        Ok((stats, s5)) => Ok((FlatV { row, lists: seq![runes, stats] }, s5)),
                    },
                },
            },
        },
    }
}

pub open spec fn take_participants(s: Streams, n: int) -> Result<(Seq<FlatV>, Streams), BlockFault>
    decreases n,
{
    if n <= 0 {
        Ok((Seq::empty(), s))
    } else {
        match take_participant(s) {
            Ok((p, s1)) => match take_participants(s1, n - 1) {
                Ok((more, s2)) => Ok((seq![p] + more, s2)),
                Err(f) => Err(f),
            },
            Err(f) => Err(f),
        }
    }
}

/// The value of a list at `k`, or 0 past its end.
pub open spec fn at_or_zero(list: Seq<int>, k: int) -> int {
    if 0 <= k < list.len() {
        list[k]
    } else {
        0
    }
}

/// Reads the values `k..n` of a series, each against the same slot of `prev`.
pub open spec fn take_series(s: Streams, c: Column, prev: Seq<int>, k: int, n: int) -> Result<
    (Seq<int>, Streams),
    BlockFault,
>
    decreases n - k,
{
    if k >= n {
        Ok((Seq::empty(), s))
    } else {
        match take_delta(s, c, at_or_zero(prev, k), 0, u32::MAX as int) {
            Ok((v, s1)) => match take_series(s1, c, prev, k + 1, n) {
                Ok((more, s2)) => Ok((seq![v] + more, s2)),
                Err(f) => Err(f),
            },
            Err(f) => Err(f),
        }
    }
}

/// Reads the series `i..4` of a frame; `prev` holds those of the frame before.
pub open spec fn take_all_series(s: Streams, prev: Seq<Seq<int>>, i: int) -> Result<
    (Seq<Seq<int>>, Streams),
    BlockFault,
>
    decreases 4 - i,
{
    if i >= 4 {
        Ok((Seq::empty(), s))
    } else {
        match take_count(s, Column::Fixed((F_GOLD_N + 2 * i) as usize)) {
            Err(f) => Err(f),
            Ok((n, s1)) => match take_series(
                s1,
                Column::Fixed((F_GOLD_N + 2 * i + 1) as usize),
                prev[i],
                0,
                n,
            ) {
                Err(f) => Err(f),
                Ok((values, s2)) => match take_all_series(s2, prev, i + 1) {
                    Err(f) => Err(f),
                    Ok((more, s3)) => Ok((seq![values] + more, s3)),
                },
            },
        }
    }
}

pub open spec fn take_frames(s: Streams, prev: Seq<Seq<int>>, n: int) -> Result<
    (Seq<FlatV>, Streams),
    BlockFault,
>
    decreases n,
{
    if n <= 0 {
        Ok((Seq::empty(), s))
    } else {
        match take_u32(s, Column::Fixed(F_MINUTE)) {
            Err(f) => Err(f),
            Ok((minute, s1)) => match take_all_series(s1, prev, 0) {
                Err(f) => Err(f),
                Ok((lists, s2)) => match take_frames(s2, lists, n - 1) {
                    Err(f) => Err(f),
                    Ok((more, s3)) => Ok(
                        (seq![FlatV { row: seq![minute as u32], lists }] + more, s3),
                    ),
                },
            },
        }
    }
}

/// Reads `n` events of `scalars` fields: the time against the event before,
/// the other fields as they are.
pub open spec fn take_events(s: Streams, prev: int, base: int, scalars: int, n: int) -> Result<
    (Seq<FlatV>, Streams),
    BlockFault,
>
    decreases n,
{
    if n <= 0 {
        Ok((Seq::empty(), s))
    } else {
        match take_delta(s, Column::Fixed(base as usize), prev, 0, u32::MAX as int) {
            Err(f) => Err(f),
            Ok((t, s1)) => match take_row(s1, base + 1, scalars - 1) {
                Err(f) => Err(f),
                Ok((more, s2)) => match take_events(s2, t, base, scalars, n - 1) {
                    Err(f) => Err(f),
                    Ok((others, s3)) => Ok(
                        (
                            seq![FlatV { row: seq![t as u32] + more, lists: Seq::empty() }]
                                + others,
                            s3,
                        ),
                    ),
                },
            },
        }
    }
}

/// A count and that many events.
pub open spec fn take_event_list(s: Streams, count: usize, base: usize, scalars: int) -> Result<
    (Seq<FlatV>, Streams),
    BlockFault,
> {
    match take_count(s, Column::Fixed(count)) {
        Err(f) => Err(f),
        Ok((n, s1)) => take_events(s1, 0, base as int, scalars, n),
    }
}

pub open spec fn no_series() -> Seq<Seq<int>> {
    seq![Seq::empty(), Seq::empty(), Seq::empty(), Seq::empty()]
}

pub open spec fn take_timeline(s: Streams) -> Result<(Seq<Seq<FlatV>>, Streams), BlockFault> {
    match take_count(s, Column::Fixed(NFRAMES)) {
        Err(f) => Err(f),
        Ok((n, s1)) => match take_frames(s1, no_series(), n) {
            Err(f) => Err(f),
            Ok((frames, s2)) => match take_event_list(s2, NKILLS, K_T, 6) {
                Err(f) => Err(f),
                Ok((kills, s3)) => match take_event_list(s3, NOBJS, O_T, 5) {
                    Err(f) => Err(f),
                    Ok((objectives, s4)) => match take_event_list(s4, NWARDS, W_T, 3) {
                        Err(f) => Err(f),
                        Ok((wards, s5)) => Ok((seq![frames, kills, objectives, wards], s5)),
                    },
                },
            },
        },
    }
}

/// A length and that many bytes.
pub open spec fn take_text(s: Streams, len: usize, text: usize) -> Result<
    (Seq<u8>, Streams),
    BlockFault,
> {
    match take_count(s, Column::Fixed(len)) {
        Err(f) => Err(f),
        Ok((n, s1)) => take_raw(s1, Column::Fixed(text), n),
    }
}

/// The fields before the participants. `game_id` and `start` are those of the
/// record before.
pub open spec fn take_head(s: Streams, game_id: int, start: int) -> Result<
    (RecordV, Streams),
    BlockFault,
> {
    match take_u32(s, Column::Fixed(SCHEMA)) {
        Err(f) => Err(f),
        Ok((schema, s1)) => match take_delta(
            s1,
            Column::Fixed(GID_D),
            game_id,
            0,
            u64::MAX as int,
        ) {
            Err(f) => Err(f),
            Ok((gid, s2)) => match take_text(s2, PLAT_LEN, PLAT) {
                Err(f) => Err(f),
                Ok((platform, s3)) => match take_u32(s3, Column::Fixed(QUEUE)) {
                    Err(f) => Err(f),
                    Ok((queue, s4)) => match take_delta(
                        s4,
                        Column::Fixed(START_D),
                        start,
                        i64::MIN as int,
                        i64::MAX as int,
                    ) {
                        Err(f) => Err(f),
                        Ok((began, s5)) => take_head_tail(
                            s5,
                            RecordV {
                                schema_version: schema as u32,
                                game_id: gid as u64,
                                platform,
                                queue_id: queue as u32,
                                game_start_ms: began as i64,
                                ..crate::record::empty_record()
                            },
                        ),
                    },
                },
            },
        },
    }
}

pub open spec fn take_head_tail(s: Streams, r: RecordV) -> Result<(RecordV, Streams), BlockFault> {
    match take_u32(s, Column::Fixed(DUR)) {
        Err(f) => Err(f),
        Ok((duration, s1)) => match take_max(s1, Column::Fixed(BLUE), 1) {
            Err(f) => Err(f),
            Ok((blue, s2)) => match take_text(s2, GV_LEN, GV) {
                Err(f) => Err(f),
                Ok((version, s3)) => match take_row(s3, PMAJ as int, 2) {
                    Err(f) => Err(f),
                    Ok((patch, s4)) => Ok(
                        (
                            RecordV {
                                duration_s: duration as u32,
                                blue_won: blue == 1,
                                game_version: version,
                                patch_major: patch[0],
                                patch_minor: patch[1],
                                ..r
                            },
                            s4,
                        ),
                    ),
                },
            },
        },
    }
}

/// The timeline, if the record has one.
pub open spec fn take_optional_timeline(s: Streams) -> Result<
    (Option<Seq<Seq<FlatV>>>, Streams),
    BlockFault,
> {
    match take_max(s, Column::Fixed(TL_PRESENT), 1) {
        Err(f) => Err(f),
        Ok((present, s1)) => if present == 1 {
            match take_timeline(s1) {
                Err(f) => Err(f),
                Ok((t, s2)) => Ok((Some(t), s2)),
            }
        } else {
            Ok((None, s1))
        },
    }
}

/// Reads one record.
pub open spec fn take_record(s: Streams, game_id: int, start: int) -> Result<
    (RecordV, Streams),
    BlockFault,
> {
    match take_head(s, game_id, start) {
        Err(f) => Err(f),
        Ok((head, s1)) => match take_count(s1, Column::Fixed(NPARTS)) {
            Err(f) => Err(f),
            Ok((n, s2)) => match take_participants(s2, n) {
                Err(f) => Err(f),
                Ok((participants, s3)) => match take_optional_timeline(s3) {
                    Err(f) => Err(f),
                    Ok((timeline, s4)) => match take_count(s4, Column::Fixed(BANS_N)) {
                        Err(f) => Err(f),
                        Ok((n_bans, s5)) => match take_list(s5, Column::Fixed(BANS), n_bans) {
                            Err(f) => Err(f),
                            Ok((bans, s6)) => Ok(
                                (RecordV { participants, timeline, bans, ..head }, s6),
                            ),
                        },
                    },
                },
            },
        },
    }
}

/// Reads the records `k..n`.
pub open spec fn take_records(s: Streams, game_id: int, start: int, k: int, n: int) -> Result<
    (Seq<RecordV>, Streams),
    BlockError,
>
    decreases n - k,
{
    if k >= n {
        Ok((Seq::empty(), s))
    } else {
        match take_record(s, game_id, start) {
            Err(fault) => Err(BlockError { record: Some(k as usize), fault }),
            Ok((r, s1)) => match take_records(
                s1,
                r.game_id as int,
                r.game_start_ms as int,
                k + 1,
                n,
            ) {
                Err(e) => Err(e),
                Ok((more, s2)) => Ok((seq![r] + more, s2)),
            },
        }
    }
}

/// The first column at or after `i`, in column order, that has bytes left.
pub open spec fn first_unconsumed(s: Streams, i: int) -> Option<Column>
    decreases s.fixed.len() + s.stat.len() + s.rune.len() - i,
{
    if i < 0 || i >= s.fixed.len() + s.stat.len() + s.rune.len() {
        None
    } else if column(s, nth_column(s, i)).len() > 0 {
        Some(nth_column(s, i))
    } else {
        first_unconsumed(s, i + 1)
    }
}

pub open spec fn nth_column(s: Streams, i: int) -> Column {
    if i < s.fixed.len() {
        Column::Fixed(i as usize)
    } else if i < s.fixed.len() + s.stat.len() {
        Column::Stat((i - s.fixed.len()) as usize)
    } else {
        Column::Rune((i - s.fixed.len() - s.stat.len()) as usize)
    }
}

/// `b"LCOL"` and the version.
pub open spec fn preamble() -> Seq<u8> {
    seq![76u8, 67u8, 79u8, 76u8, VERSION]
}

pub open spec fn take_header(b: Seq<u8>, field: HeaderField) -> Result<
    (int, Seq<u8>),
    BlockFault,
> {
    match take_varint(b) {
        Ok((v, rest)) => if v <= usize::MAX {
            Ok((v, rest))
        } else {
            Err(BlockFault::HeaderRange(field))
        },
        Err(f) => Err(BlockFault::HeaderVarint(field, f)),
    }
}

/// Reads the column lengths `k..n`.
pub open spec fn take_lengths(b: Seq<u8>, k: int, n: int) -> Result<
    (Seq<int>, Seq<u8>),
    BlockFault,
>
    decreases n - k,
{
    if k >= n {
        Ok((Seq::empty(), b))
    } else {
        match take_header(b, HeaderField::ColumnLength(k as usize)) {
            Err(f) => Err(f),
            Ok((len, rest)) => match take_lengths(rest, k + 1, n) {
                Err(f) => Err(f),
                Ok((more, after)) => Ok((seq![len] + more, after)),
            },
        }
    }
}

pub open spec fn total(lengths: Seq<int>) -> int
    decreases lengths.len(),
{
    if lengths.len() == 0 {
        0
    } else {
        lengths[0] + total(lengths.skip(1))
    }
}

/// Cuts `b` into pieces of the given lengths.
pub open spec fn cut(b: Seq<u8>, lengths: Seq<int>) -> Seq<Seq<u8>>
    decreases lengths.len(),
{
    if lengths.len() == 0 {
        Seq::empty()
    } else {
        seq![b.take(lengths[0])] + cut(b.skip(lengths[0]), lengths.skip(1))
    }
}

/// A block's header: how many records, and the columns.
pub open spec fn manifest(payload: Seq<u8>) -> Result<(int, Streams), BlockFault> {
    if payload.len() < 5 {
        Err(BlockFault::TruncatedHeader)
    } else if payload.take(4) != preamble().take(4) {
        Err(BlockFault::BadMagic)
    } else if payload[4] != VERSION {
        Err(BlockFault::UnsupportedVersion)
    } else {
        match take_header(payload.skip(5), HeaderField::Records) {
            Err(f) => Err(f),
            Ok((records, b1)) => match take_header(b1, HeaderField::StatColumns) {
                Err(f) => Err(f),
                Ok((stats, b2)) => match take_header(b2, HeaderField::RuneColumns) {
                    Err(f) => Err(f),
                    Ok((runes, b3)) => match take_columns(
                        b3,
                        stats,
                        runes,
                        payload.len() as int,
                    ) {
                        Err(f) => Err(f),
                        Ok(streams) => Ok((records, streams)),
                    },
                },
            },
        }
    }
}

/// The columns that lengths and data describe, at the end of `payload_len` bytes.
pub open spec fn take_columns(b: Seq<u8>, stats: int, runes: int, payload_len: int) -> Result<
    Streams,
    BlockFault,
> {
    let n = NMISC + stats + runes;
    if n > usize::MAX {
        Err(BlockFault::TooManyColumns)
    } else if n > b.len() {
        Err(BlockFault::TruncatedManifest)
    } else {
        match take_lengths(b, 0, n) {
            Err(f) => Err(f),
            Ok((lengths, data)) => if payload_len - data.len() + total(lengths) > usize::MAX {
                Err(BlockFault::LengthsOverflow)
            } else if total(lengths) > data.len() {
                Err(BlockFault::TruncatedData)
            } else if total(lengths) < data.len() {
                Err(BlockFault::TrailingData)
            } else {
                Ok(as_streams(cut(data, lengths), stats))
            },
        }
    }
}

/// Columns in order, sorted into their three groups.
pub open spec fn as_streams(columns: Seq<Seq<u8>>, stats: int) -> Streams {
    Streams {
        fixed: columns.take(NMISC as int),
        stat: columns.subrange(NMISC as int, NMISC + stats),
        rune: columns.skip(NMISC + stats),
    }
}

/// The records that a payload holds.
#[verifier::opaque]
pub open spec fn block_records(payload: Seq<u8>) -> Result<Seq<RecordV>, BlockError> {
    match manifest(payload) {
        Err(fault) => Err(BlockError { record: None, fault }),
        Ok((n, s)) => match take_records(s, 0, 0, 0, n) {
            Err(e) => Err(e),
            Ok((records, left)) => match first_unconsumed(left, 0) {
                Some(c) => Err(BlockError { record: None, fault: BlockFault::Unconsumed(c) }),
                None => Ok(records),
            },
        },
    }
}

/// The canonical encodings of records.
pub open spec fn encodings(records: Seq<RecordV>) -> Seq<Seq<u8>> {
    records.map_values(|r: RecordV| record_bytes(r))
}

pub open spec fn byte_strings(vs: Seq<Vec<u8>>) -> Seq<Seq<u8>> {
    vs.map_values(|v: Vec<u8>| v@)
}

/// What a reading function owes: the value and the streams after it, or the fault.
pub open spec fn reads<T, V>(
    res: Result<T, BlockFault>,
    want: Result<(V, Streams), BlockFault>,
    v: V,
    left: Streams,
) -> bool {
    match res {
        Ok(_) => want == Ok::<(V, Streams), BlockFault>((v, left)),
        Err(f) => want == Err::<(V, Streams), BlockFault>(f),
    }
}

/// A list whose first items are known and whose others come from `more`.
pub open spec fn after<T, E>(first: Seq<T>, more: Result<(Seq<T>, Streams), E>) -> Result<
    (Seq<T>, Streams),
    E,
> {
    match more {
        Ok((items, left)) => Ok((first + items, left)),
        Err(f) => Err(f),
    }
}

proof fn lemma_after_none<T, E>(more: Result<(Seq<T>, Streams), E>)
    ensures
        after(Seq::empty(), more) == more,
{
    match more {
        Ok((items, _)) => {
            assert(Seq::<T>::empty() + items =~= items);
        },
        Err(_) => {},
    }
}

proof fn lemma_after_push<T, E>(first: Seq<T>, v: T, more: Result<(Seq<T>, Streams), E>)
    ensures
        after(first, after(seq![v], more)) == after(first.push(v), more),
{
    match more {
        Ok((items, _)) => {
            assert(first + (seq![v] + items) =~= first.push(v) + items);
        },
        Err(_) => {},
    }
}

proof fn lemma_after_end<T, E>(first: Seq<T>, left: Streams)
    ensures
        after(first, Ok::<(Seq<T>, Streams), E>((Seq::empty(), left))) == Ok::<
            (Seq<T>, Streams),
            E,
        >((first, left)),
{
    assert(first + Seq::<T>::empty() =~= first);
}

/// Cursors over the columns of a payload.
struct Readers<'a> {
    cols: Vec<&'a [u8]>,
    pos: Vec<usize>,
    stats: usize,
    runes: usize,
}

impl<'a> Readers<'a> {
    spec fn wf(&self) -> bool {
        &&& self.cols@.len() == NMISC + self.stats + self.runes
        &&& self.pos@.len() == self.cols@.len()
        &&& self.cols@.len() <= usize::MAX
        &&& forall|i: int|
            0 <= i < self.cols@.len() ==> #[trigger] self.pos@[i] <= self.cols@[i]@.len()
    }

    spec fn left(&self, i: int) -> Seq<u8> {
        self.cols@[i]@.skip(self.pos@[i] as int)
    }

    spec fn spec_index_of(&self, c: Column) -> int {
        match c {
            Column::Fixed(i) => i as int,
            Column::Stat(i) => NMISC + i,
            Column::Rune(i) => NMISC + self.stats + i,
        }
    }

    /// Moves the cursor of column `i` by hand: what the view becomes.
    proof fn lemma_moved(before: &Self, now: &Self, c: Column, bytes: Seq<u8>)
        requires
            before.wf(),
            has_column(before@, c),
            now.cols@ == before.cols@,
            now.stats == before.stats,
            now.runes == before.runes,
            now.pos@.len() == before.pos@.len(),
            now.left(before.spec_index_of(c)) == bytes,
            forall|j: int|
                0 <= j < now.pos@.len() && j != before.spec_index_of(c) ==> #[trigger] now.pos@[j]
                    == before.pos@[j],
        ensures
            now@ == with_column(before@, c, bytes),
    {
        assert(now@.fixed =~= with_column(before@, c, bytes).fixed);
        assert(now@.stat =~= with_column(before@, c, bytes).stat);
        assert(now@.rune =~= with_column(before@, c, bytes).rune);
    }

    fn index_of(&self, c: Column) -> (res: Option<usize>)
        requires
            self.wf(),
            c matches Column::Fixed(i) ==> i < NMISC,
        ensures
            res is Some <==> has_column(self@, c),
            res matches Some(i) ==> i < self.cols@.len() && i == self.spec_index_of(c)
                && self.left(i as int) == column(self@, c),
    {
        match c {
            Column::Fixed(i) => Some(i),
            Column::Stat(i) => if i < self.stats {
                Some(NMISC + i)
            } else {
                None
            },
            Column::Rune(i) => if i < self.runes {
                Some(NMISC + self.stats + i)
            } else {
                None
            },
        }
    }

    fn varint(&mut self, c: Column) -> (res: Result<u64, BlockFault>)
        requires
            old(self).wf(),
            c matches Column::Fixed(i) ==> i < NMISC,
        ensures
            final(self).wf(),
            reads(res, take_col(old(self)@, c), res->Ok_0 as int, final(self)@),
    {
        match self.index_of(c) {
            None => Err(BlockFault::Missing(c)),
            Some(i) => {
                let ghost before = *self;
                match read_varint_at(self.cols[i], self.pos[i]) {
                    Ok((v, next)) => {
                        self.pos.set(i, next);
                        proof {
                            Self::lemma_moved(&before, self, c, self.left(i as int));
                        }
                        Ok(v)
                    },
                    Err(f) => Err(BlockFault::Varint(c, f)),
                }
            },
        }
    }

    fn at_most(&mut self, c: Column, max: u64) -> (res: Result<u64, BlockFault>)
        requires
            old(self).wf(),
            c matches Column::Fixed(i) ==> i < NMISC,
        ensures
            final(self).wf(),
            res matches Ok(v) ==> v <= max,
            reads(res, take_max(old(self)@, c, max as int), res->Ok_0 as int, final(self)@),
    {
        match self.varint(c) {
            Ok(v) => if v <= max {
                Ok(v)
            } else {
                Err(BlockFault::Range(c))
            },
            Err(f) => Err(f),
        }
    }

    fn u32_at(&mut self, col: usize) -> (res: Result<u32, BlockFault>)
        requires
            old(self).wf(),
            col < NMISC,
        ensures
            final(self).wf(),
            reads(
                res,
                take_u32(old(self)@, Column::Fixed(col)),
                res->Ok_0 as int,
                final(self)@,
            ),
    {
        match self.at_most(Column::Fixed(col), 0xffff_ffff) {
            Ok(v) => Ok(v as u32),
            Err(f) => Err(f),
        }
    }

    fn count_at(&mut self, col: usize) -> (res: Result<usize, BlockFault>)
        requires
            old(self).wf(),
            col < NMISC,
        ensures
            final(self).wf(),
            reads(
                res,
                take_count(old(self)@, Column::Fixed(col)),
                res->Ok_0 as int,
                final(self)@,
            ),
    {
        match self.at_most(Column::Fixed(col), usize::MAX as u64) {
            Ok(v) => Ok(v as usize),
            Err(f) => Err(f),
        }
    }

    fn delta_at(&mut self, col: usize, prev: i128, lo: i128, hi: i128) -> (res: Result<
        i128,
        BlockFault,
    >)
        requires
            old(self).wf(),
            col < NMISC,
            -0x1_0000_0000_0000_0000 <= prev <= 0x1_0000_0000_0000_0000,
        ensures
            final(self).wf(),
            res matches Ok(v) ==> lo <= v <= hi,
            reads(
                res,
                take_delta(
                    old(self)@,
                    Column::Fixed(col),
                    prev as int,
                    lo as int,
                    hi as int,
                ),
                res->Ok_0 as int,
                final(self)@,
            ),
    {
        match self.varint(Column::Fixed(col)) {
            Ok(v) => {
                let value: i128 = prev + unzigzag_i64(v) as i128;
                if lo <= value && value <= hi {
                    Ok(value)
                } else {
                    Err(BlockFault::Range(Column::Fixed(col)))
                }
            },
            Err(f) => Err(f),
        }
    }

    fn raw_at(&mut self, col: usize, n: usize) -> (res: Result<Vec<u8>, BlockFault>)
        requires
            old(self).wf(),
            col < NMISC,
        ensures
            final(self).wf(),
            reads(
                res,
                take_raw(old(self)@, Column::Fixed(col), n as int),
                res->Ok_0@,
                final(self)@,
            ),
    {
        let ghost before = *self;
        let pos: usize = self.pos[col];
        let bytes = self.cols[col];
        if n > bytes.len() - pos {
            return Err(BlockFault::TruncatedBytes(Column::Fixed(col)));
        }
        let mut out: Vec<u8> = Vec::new();
        push_all(&mut out, vstd::slice::slice_subrange(bytes, pos, pos + n));
        self.pos.set(col, pos + n);
        proof {
            let was = column(before@, Column::Fixed(col));
            assert(out@ =~= was.take(n as int));
            assert(self.left(col as int) =~= was.skip(n as int));
            Self::lemma_moved(&before, self, Column::Fixed(col), was.skip(n as int));
        }
        Ok(out)
    }

    fn text_at(&mut self, len: usize, text: usize) -> (res: Result<Vec<u8>, BlockFault>)
        requires
            old(self).wf(),
            len < NMISC,
            text < NMISC,
        ensures
            final(self).wf(),
            reads(res, take_text(old(self)@, len, text), res->Ok_0@, final(self)@),
    {
        match self.count_at(len) {
            Ok(n) => self.raw_at(text, n),
            Err(f) => Err(f),
        }
    }

    fn row_at(&mut self, base: usize, n: usize) -> (res: Result<Vec<u32>, BlockFault>)
        requires
            old(self).wf(),
            base + n <= NMISC,
        ensures
            final(self).wf(),
            res matches Ok(row) ==> row@.len() == n,
            reads(
                res,
                take_row(old(self)@, base as int, n as int),
                res->Ok_0@,
                final(self)@,
            ),
    {
        let mut out: Vec<u32> = Vec::new();
        let mut k: usize = 0;
        proof {
            lemma_after_none(take_row(self@, base as int, n as int));
            assert(out@ =~= Seq::empty());
        }
        while k < n
            invariant
                self.wf(),
                base + n <= NMISC,
                k <= n,
                out@.len() == k,
                take_row(old(self)@, base as int, n as int) == after(
                    out@,
                    take_row(self@, base + k, n - k),
                ),
            decreases n - k,
        {
            let ghost before = self@;
            match self.u32_at(base + k) {
                Ok(v) => {
                    proof {
                        lemma_after_push(out@, v, take_row(self@, base + k + 1, n - k - 1));
                    }
                    out.push(v);
                },
                Err(f) => {
                    return Err(f);
                },
            }
            k = k + 1;
        }
        proof {
            lemma_after_end::<_, BlockFault>(out@, self@);
        }
        Ok(out)
    }

    fn list_at(&mut self, col: usize, n: usize) -> (res: Result<Vec<u32>, BlockFault>)
        requires
            old(self).wf(),
            col < NMISC,
        ensures
            final(self).wf(),
            reads(
                res,
                take_list(old(self)@, Column::Fixed(col), n as int),
                res->Ok_0@,
                final(self)@,
            ),
    {
        let mut out: Vec<u32> = Vec::new();
        let mut k: usize = 0;
        proof {
            lemma_after_none(take_list(self@, Column::Fixed(col), n as int));
            assert(out@ =~= Seq::empty());
        }
        while k < n
            invariant
                self.wf(),
                col < NMISC,
                k <= n,
                take_list(old(self)@, Column::Fixed(col), n as int) == after(
                    out@,
                    take_list(self@, Column::Fixed(col), n - k),
                ),
            decreases n - k,
        {
            match self.u32_at(col) {
                Ok(v) => {
                    proof {
                        lemma_after_push(
                            out@,
                            v,
                            take_list(self@, Column::Fixed(col), n - k - 1),
                        );
                    }
                    out.push(v);
                },
                Err(f) => {
                    return Err(f);
                },
            }
            k = k + 1;
        }
        proof {
            lemma_after_end::<_, BlockFault>(out@, self@);
        }
        Ok(out)
    }

    fn runes(&mut self, n: usize) -> (res: Result<Vec<u32>, BlockFault>)
        requires
            old(self).wf(),
        ensures
            final(self).wf(),
            reads(
                res,
                take_slots(old(self)@, false, 0, n as int),
                ints(res->Ok_0@),
                final(self)@,
            ),
    {
        let mut out: Vec<u32> = Vec::new();
        let mut k: usize = 0;
        proof {
            lemma_after_none(take_slots(self@, false, 0, n as int));
            assert(ints(out@) =~= Seq::empty());
        }
        while k < n
            invariant
                self.wf(),
                k <= n,
                take_slots(old(self)@, false, 0, n as int) == after(
                    ints(out@),
                    take_slots(self@, false, k as int, n as int),
                ),
            decreases n - k,
        {
            match self.at_most(Column::Rune(k), 0xffff_ffff) {
                Ok(v) => {
                    let ghost done = ints(out@);
                    out.push(v as u32);
                    proof {
                        lemma_after_push(
                            done,
                            v as int,
                            take_slots(self@, false, k + 1, n as int),
                        );
                        assert(ints(out@) =~= done.push(v as int));
                    }
                },
                Err(f) => {
                    return Err(f);
                },
            }
            k = k + 1;
        }
        proof {
            lemma_after_end::<_, BlockFault>(ints(out@), self@);
        }
        Ok(out)
    }

    fn stats(&mut self, n: usize) -> (res: Result<Vec<i64>, BlockFault>)
        requires
            old(self).wf(),
        ensures
            final(self).wf(),
            reads(
                res,
                take_slots(old(self)@, true, 0, n as int),
                zigzags(res->Ok_0@),
                final(self)@,
            ),
    {
        let mut out: Vec<i64> = Vec::new();
        let mut k: usize = 0;
        proof {
            lemma_after_none(take_slots(self@, true, 0, n as int));
            assert(zigzags(out@) =~= Seq::empty());
        }
        while k < n
            invariant
                self.wf(),
                k <= n,
                take_slots(old(self)@, true, 0, n as int) == after(
                    zigzags(out@),
                    take_slots(self@, true, k as int, n as int),
                ),
            decreases n - k,
        {
            match self.at_most(Column::Stat(k), u64::MAX) {
                Ok(v) => {
                    let ghost done = zigzags(out@);
                    out.push(unzigzag_i64(v));
                    proof {
                        lemma_after_push(
                            done,
                            v as int,
                            take_slots(self@, true, k + 1, n as int),
                        );
                        assert(zigzags(out@) =~= done.push(v as int));
                    }
                },
                Err(f) => {
                    return Err(f);
                },
            }
            k = k + 1;
        }
        proof {
            lemma_after_end::<_, BlockFault>(zigzags(out@), self@);
        }
        Ok(out)
    }
}

impl<'a> View for Readers<'a> {
    type V = Streams;

    closed spec fn view(&self) -> Streams {
        Streams {
            fixed: Seq::new(NMISC as nat, |i: int| self.left(i)),
            stat: Seq::new(self.stats as nat, |i: int| self.left(NMISC + i)),
            rune: Seq::new(self.runes as nat, |i: int| self.left(NMISC + self.stats + i)),
        }
    }
}

/// The four series of a frame.
struct Series {
    gold: Vec<u32>,
    xp: Vec<u32>,
    cs: Vec<u32>,
    dmg: Vec<u32>,
}

impl View for Series {
    type V = Seq<Seq<int>>;

    closed spec fn view(&self) -> Seq<Seq<int>> {
        seq![ints(self.gold@), ints(self.xp@), ints(self.cs@), ints(self.dmg@)]
    }
}

impl<'a> Readers<'a> {
    fn participant(&mut self) -> (res: Result<Participant, BlockFault>)
        requires
            old(self).wf(),
        ensures
            final(self).wf(),
            reads(res, take_participant(old(self)@), (res->Ok_0)@, final(self)@),
    {
        let row = match self.row_at(P_PLAYER, 5) {
            Ok(row) => row,
            Err(f) => {
                return Err(f);
            },
        };
        let n_runes: usize = match self.count_at(P_RUNES_N) {
            Ok(n) => n,
            Err(f) => {
                return Err(f);
            },
        };
        let runes = match self.runes(n_runes) {
            Ok(runes) => runes,
            Err(f) => {
                return Err(f);
            },
        };
        let n_stats: usize = match self.count_at(P_STATS_N) {
            Ok(n) => n,
            Err(f) => {
                return Err(f);
            },
        };
        let stats = match self.stats(n_stats) {
            Ok(stats) => stats,
            Err(f) => {
                return Err(f);
            },
        };
        let p = Participant {
            player_id: row[0],
            champion_id: row[1],
            position: row[2],
            spell1: row[3],
            spell2: row[4],
            runes,
            stats,
        };
        assert(p@.row =~= row@);
        Ok(p)
    }

    fn participants(&mut self, n: usize) -> (res: Result<Vec<Participant>, BlockFault>)
        requires
            old(self).wf(),
        ensures
            final(self).wf(),
            reads(
                res,
                take_participants(old(self)@, n as int),
                views(res->Ok_0@),
                final(self)@,
            ),
    {
        let mut out: Vec<Participant> = Vec::new();
        let mut k: usize = 0;
        proof {
            lemma_after_none(take_participants(self@, n as int));
            assert(views(out@) =~= Seq::empty());
        }
        while k < n
            invariant
                self.wf(),
                k <= n,
                take_participants(old(self)@, n as int) == after(
                    views(out@),
                    take_participants(self@, n - k),
                ),
            decreases n - k,
        {
            match self.participant() {
                Ok(p) => {
                    let ghost done = views(out@);
                    out.push(p);
                    proof {
                        lemma_after_push(done, p@, take_participants(self@, n - k - 1));
                        assert(views(out@) =~= done.push(p@));
                    }
                },
                Err(f) => {
                    return Err(f);
                },
            }
            k = k + 1;
        }
        proof {
            lemma_after_end::<_, BlockFault>(views(out@), self@);
        }
        Ok(out)
    }

    fn series(&mut self, count: usize, prev: &Vec<u32>) -> (res: Result<Vec<u32>, BlockFault>)
        requires
            old(self).wf(),
            count + 1 < NMISC,
        ensures
            final(self).wf(),
            match take_count(old(self)@, Column::Fixed(count)) {
                Err(f) => res == Err::<Vec<u32>, BlockFault>(f),
                Ok((n, s1)) => reads(
                    res,
                    take_series(s1, Column::Fixed((count + 1) as usize), ints(prev@), 0, n),
                    ints(res->Ok_0@),
                    final(self)@,
                ),
            },
    {
        let n: usize = match self.count_at(count) {
            Ok(n) => n,
            Err(f) => {
                return Err(f);
            },
        };
        let ghost c = Column::Fixed((count + 1) as usize);
        let ghost start = self@;
        let mut out: Vec<u32> = Vec::new();
        let mut k: usize = 0;
        proof {
            lemma_after_none(take_series(self@, c, ints(prev@), 0, n as int));
            assert(ints(out@) =~= Seq::empty());
        }
        while k < n
            invariant
                self.wf(),
                count + 1 < NMISC,
                c == Column::Fixed((count + 1) as usize),
                take_count(old(self)@, Column::Fixed(count)) == Ok::<(int, Streams), BlockFault>(
                    (n as int, start),
                ),
                k <= n,
                take_series(start, c, ints(prev@), 0, n as int) == after(
                    ints(out@),
                    take_series(self@, c, ints(prev@), k as int, n as int),
                ),
            decreases n - k,
        {
            let was: u32 = if k < prev.len() {
                prev[k]
            } else {
                0
            };
            assert(was as int == at_or_zero(ints(prev@), k as int));
            match self.delta_at(count + 1, was as i128, 0, 0xffff_ffff) {
                Ok(v) => {
                    let ghost done = ints(out@);
                    out.push(v as u32);
                    proof {
                        lemma_after_push(
                            done,
                            v as int,
                            take_series(self@, c, ints(prev@), k + 1, n as int),
                        );
                        assert(ints(out@) =~= done.push(v as int));
                    }
                },
                Err(f) => {
                    return Err(f);
                },
            }
            k = k + 1;
        }
        proof {
            lemma_after_end::<_, BlockFault>(ints(out@), self@);
        }
        Ok(out)
    }

    fn all_series(&mut self, prev: &Series) -> (res: Result<Series, BlockFault>)
        requires
            old(self).wf(),
        ensures
            final(self).wf(),
            reads(res, take_all_series(old(self)@, prev@, 0), (res->Ok_0)@, final(self)@),
    {
        proof {
            reveal_with_fuel(take_all_series, 5);
        }
        let gold = match self.series(F_GOLD_N, &prev.gold) {
            Ok(v) => v,
            Err(f) => {
                return Err(f);
            },
        };
        let xp = match self.series(F_GOLD_N + 2, &prev.xp) {
            Ok(v) => v,
            Err(f) => {
                return Err(f);
            },
        };
        let cs = match self.series(F_GOLD_N + 4, &prev.cs) {
            Ok(v) => v,
            Err(f) => {
                return Err(f);
            },
        };
        let dmg = match self.series(F_GOLD_N + 6, &prev.dmg) {
            Ok(v) => v,
            Err(f) => {
                return Err(f);
            },
        };
        let out = Series { gold, xp, cs, dmg };
        proof {
            let tail: Seq<Seq<int>> = seq![ints(dmg@)] + Seq::empty();
            assert(out@ =~= seq![ints(gold@)] + (seq![ints(xp@)] + (seq![ints(cs@)] + tail)));
        }
        Ok(out)
    }

    fn frames(&mut self, n: usize) -> (res: Result<Vec<MinuteFrame>, BlockFault>)
        requires
            old(self).wf(),
        ensures
            final(self).wf(),
            reads(
                res,
                take_frames(old(self)@, no_series(), n as int),
                views(res->Ok_0@),
                final(self)@,
            ),
    {
        let mut out: Vec<MinuteFrame> = Vec::new();
        let mut prev = Series {
            gold: Vec::new(),
            xp: Vec::new(),
            cs: Vec::new(),
            dmg: Vec::new(),
        };
        let mut k: usize = 0;
        proof {
            assert(ints(prev.gold@) =~= Seq::empty());
            assert(ints(prev.xp@) =~= Seq::empty());
            assert(ints(prev.cs@) =~= Seq::empty());
            assert(ints(prev.dmg@) =~= Seq::empty());
            assert(prev@ =~= no_series());
            lemma_after_none(take_frames(self@, no_series(), n as int));
            assert(views(out@) =~= Seq::empty());
        }
        while k < n
            invariant
                self.wf(),
                k <= n,
                take_frames(old(self)@, no_series(), n as int) == after(
                    views(out@),
                    take_frames(self@, prev@, n - k),
                ),
            decreases n - k,
        {
            let minute: u32 = match self.u32_at(F_MINUTE) {
                Ok(v) => v,
                Err(f) => {
                    return Err(f);
                },
            };
            let series = match self.all_series(&prev) {
                Ok(v) => v,
                Err(f) => {
                    return Err(f);
                },
            };
            let next = Series {
                gold: copied(&series.gold),
                xp: copied(&series.xp),
                cs: copied(&series.cs),
                dmg: copied(&series.dmg),
            };
            let frame = MinuteFrame {
                minute,
                total_gold: series.gold,
                xp: series.xp,
                cs: series.cs,
                dmg_to_champs: series.dmg,
            };
            let ghost done = views(out@);
            out.push(frame);
            proof {
                assert(next@ =~= frame@.lists);
                lemma_after_push(done, frame@, take_frames(self@, next@, n - k - 1));
                assert(views(out@) =~= done.push(frame@));
            }
            prev = next;
            k = k + 1;
        }
        proof {
            lemma_after_end::<_, BlockFault>(views(out@), self@);
        }
        Ok(out)
    }

    /// One event's fields: the time against `prev`, the others as they are.
    fn event(&mut self, base: usize, scalars: usize, prev: u32) -> (res: Result<
        Vec<u32>,
        BlockFault,
    >)
        requires
            old(self).wf(),
            base + scalars <= NMISC,
            scalars >= 1,
        ensures
            final(self).wf(),
            res matches Ok(row) ==> row@.len() == scalars,
            match take_delta(
                old(self)@,
                Column::Fixed(base),
                prev as int,
                0,
                u32::MAX as int,
            ) {
                Err(f) => res == Err::<Vec<u32>, BlockFault>(f),
                Ok((t, s1)) => match take_row(s1, base + 1, scalars - 1) {
                    Err(f) => res == Err::<Vec<u32>, BlockFault>(f),
                    Ok((more, s2)) => res is Ok && (res->Ok_0)@ == seq![t as u32] + more && t
                        == (res->Ok_0)@[0] && final(self)@ == s2,
                },
            },
    {
        let t: u32 = match self.delta_at(base, prev as i128, 0, 0xffff_ffff) {
            Ok(v) => v as u32,
            Err(f) => {
                return Err(f);
            },
        };
        let mut more = match self.row_at(base + 1, scalars - 1) {
            Ok(v) => v,
            Err(f) => {
                return Err(f);
            },
        };
        let ghost rest = more@;
        more.insert(0, t);
        assert(more@ =~= seq![t] + rest);
        Ok(more)
    }

    fn kills(&mut self) -> (res: Result<Vec<KillEvent>, BlockFault>)
        requires
            old(self).wf(),
        ensures
            final(self).wf(),
            reads(
                res,
                take_event_list(old(self)@, NKILLS, K_T, 6),
                views(res->Ok_0@),
                final(self)@,
            ),
    {
        let n: usize = match self.count_at(NKILLS) {
            Ok(n) => n,
            Err(f) => {
                return Err(f);
            },
        };
        let ghost start = self@;
        let mut out: Vec<KillEvent> = Vec::new();
        let mut prev: u32 = 0;
        let mut k: usize = 0;
        proof {
            lemma_after_none(take_events(self@, 0, K_T as int, 6, n as int));
            assert(views(out@) =~= Seq::empty());
        }
        while k < n
            invariant
                self.wf(),
                k <= n,
                take_count(old(self)@, Column::Fixed(NKILLS)) == Ok::<
                    (int, Streams),
                    BlockFault,
                >((n as int, start)),
                take_events(start, 0, K_T as int, 6, n as int) == after(
                    views(out@),
                    take_events(self@, prev as int, K_T as int, 6, n - k),
                ),
            decreases n - k,
        {
            match self.event(K_T, 6, prev) {
                Ok(row) => {
                    let e = KillEvent {
                        t_s: row[0],
                        killer: row[1],
                        victim: row[2],
                        assist_mask: row[3],
                        x: row[4],
                        y: row[5],
                    };
                    let ghost done = views(out@);
                    prev = row[0];
                    out.push(e);
                    proof {
                        assert(e@.row =~= row@);
                        assert(views(out@) =~= done.push(e@));
                        lemma_after_push(
                            done,
                            e@,
                            take_events(self@, prev as int, K_T as int, 6, n - k - 1),
                        );
                    }
                },
                Err(f) => {
                    return Err(f);
                },
            }
            k = k + 1;
        }
        proof {
            lemma_after_end::<_, BlockFault>(views(out@), self@);
        }
        Ok(out)
    }

    fn objectives(&mut self) -> (res: Result<Vec<ObjectiveEvent>, BlockFault>)
        requires
            old(self).wf(),
        ensures
            final(self).wf(),
            reads(
                res,
                take_event_list(old(self)@, NOBJS, O_T, 5),
                views(res->Ok_0@),
                final(self)@,
            ),
    {
        let n: usize = match self.count_at(NOBJS) {
            Ok(n) => n,
            Err(f) => {
                return Err(f);
            },
        };
        let ghost start = self@;
        let mut out: Vec<ObjectiveEvent> = Vec::new();
        let mut prev: u32 = 0;
        let mut k: usize = 0;
        proof {
            lemma_after_none(take_events(self@, 0, O_T as int, 5, n as int));
            assert(views(out@) =~= Seq::empty());
        }
        while k < n
            invariant
                self.wf(),
                k <= n,
                take_count(old(self)@, Column::Fixed(NOBJS)) == Ok::<
                    (int, Streams),
                    BlockFault,
                >((n as int, start)),
                take_events(start, 0, O_T as int, 5, n as int) == after(
                    views(out@),
                    take_events(self@, prev as int, O_T as int, 5, n - k),
                ),
            decreases n - k,
        {
            match self.event(O_T, 5, prev) {
                Ok(row) => {
                    let e = ObjectiveEvent {
                        t_s: row[0],
                        kind: row[1],
                        killer: row[2],
                        losing_team: row[3],
                        lane: row[4],
                    };
                    let ghost done = views(out@);
                    prev = row[0];
                    out.push(e);
                    proof {
                        assert(e@.row =~= row@);
                        assert(views(out@) =~= done.push(e@));
                        lemma_after_push(
                            done,
                            e@,
                            take_events(self@, prev as int, O_T as int, 5, n - k - 1),
                        );
                    }
                },
                Err(f) => {
                    return Err(f);
                },
            }
            k = k + 1;
        }
        proof {
            lemma_after_end::<_, BlockFault>(views(out@), self@);
        }
        Ok(out)
    }

    fn wards(&mut self) -> (res: Result<Vec<WardEvent>, BlockFault>)
        requires
            old(self).wf(),
        ensures
            final(self).wf(),
            reads(
                res,
                take_event_list(old(self)@, NWARDS, W_T, 3),
                views(res->Ok_0@),
                final(self)@,
            ),
    {
        let n: usize = match self.count_at(NWARDS) {
            Ok(n) => n,
            Err(f) => {
                return Err(f);
            },
        };
        let ghost start = self@;
        let mut out: Vec<WardEvent> = Vec::new();
        let mut prev: u32 = 0;
        let mut k: usize = 0;
        proof {
            lemma_after_none(take_events(self@, 0, W_T as int, 3, n as int));
            assert(views(out@) =~= Seq::empty());
        }
        while k < n
            invariant
                self.wf(),
                k <= n,
                take_count(old(self)@, Column::Fixed(NWARDS)) == Ok::<
                    (int, Streams),
                    BlockFault,
                >((n as int, start)),
                take_events(start, 0, W_T as int, 3, n as int) == after(
                    views(out@),
                    take_events(self@, prev as int, W_T as int, 3, n - k),
                ),
            decreases n - k,
        {
            match self.event(W_T, 3, prev) {
                Ok(row) => {
                    let e = WardEvent { t_s: row[0], kind: row[1], participant: row[2] };
                    let ghost done = views(out@);
                    prev = row[0];
                    out.push(e);
                    proof {
                        assert(e@.row =~= row@);
                        assert(views(out@) =~= done.push(e@));
                        lemma_after_push(
                            done,
                            e@,
                            take_events(self@, prev as int, W_T as int, 3, n - k - 1),
                        );
                    }
                },
                Err(f) => {
                    return Err(f);
                },
            }
            k = k + 1;
        }
        proof {
            lemma_after_end::<_, BlockFault>(views(out@), self@);
        }
        Ok(out)
    }

    fn timeline(&mut self) -> (res: Result<TimelineLite, BlockFault>)
        requires
            old(self).wf(),
        ensures
            final(self).wf(),
            reads(res, take_timeline(old(self)@), (res->Ok_0)@, final(self)@),
    {
        let n: usize = match self.count_at(NFRAMES) {
            Ok(n) => n,
            Err(f) => {
                return Err(f);
            },
        };
        let frames = match self.frames(n) {
            Ok(v) => v,
            Err(f) => {
                return Err(f);
            },
        };
        let kills = match self.kills() {
            Ok(v) => v,
            Err(f) => {
                return Err(f);
            },
        };
        let objectives = match self.objectives() {
            Ok(v) => v,
            Err(f) => {
                return Err(f);
            },
        };
        let wards = match self.wards() {
            Ok(v) => v,
            Err(f) => {
                return Err(f);
            },
        };
        Ok(TimelineLite { frames, kills, objectives, wards })
    }
}

fn copied(v: &Vec<u32>) -> (res: Vec<u32>)
    ensures
        res@ == v@,
{
    let mut res: Vec<u32> = Vec::new();
    let mut i: usize = 0;
    while i < v.len()
        invariant
            i <= v@.len(),
            res@ == v@.take(i as int),
        decreases v@.len() - i,
    {
        res.push(v[i]);
        assert(v@.take(i + 1) =~= v@.take(i as int).push(v@[i as int]));
        i = i + 1;
    }
    assert(v@.take(i as int) =~= v@);
    res
}

/// A decoded record in its canonical encoding, and what the next record's
/// deltas are against.
struct Rebuilt {
    bytes: Vec<u8>,
    game_id: u64,
    game_start_ms: i64,
}

/// A record's fields before its participants, as read.
struct ReadHead {
    schema_version: u32,
    game_id: u64,
    platform: Vec<u8>,
    queue_id: u32,
    game_start_ms: i64,
    duration_s: u32,
    blue_won: bool,
    game_version: Vec<u8>,
    patch_major: u32,
    patch_minor: u32,
}

impl View for ReadHead {
    type V = RecordV;

    closed spec fn view(&self) -> RecordV {
        RecordV {
            schema_version: self.schema_version,
            game_id: self.game_id,
            platform: self.platform@,
            queue_id: self.queue_id,
            game_start_ms: self.game_start_ms,
            duration_s: self.duration_s,
            blue_won: self.blue_won,
            game_version: self.game_version@,
            patch_major: self.patch_major,
            patch_minor: self.patch_minor,
            ..crate::record::empty_record()
        }
    }
}

impl<'a> Readers<'a> {
    fn head_tail(&mut self, head: ReadHead) -> (res: Result<ReadHead, BlockFault>)
        requires
            old(self).wf(),
        ensures
            final(self).wf(),
            reads(res, take_head_tail(old(self)@, head@), (res->Ok_0)@, final(self)@),
    {
        let duration_s: u32 = match self.u32_at(DUR) {
            Ok(v) => v,
            Err(f) => {
                return Err(f);
            },
        };
        let blue: u64 = match self.at_most(Column::Fixed(BLUE), 1) {
            Ok(v) => v,
            Err(f) => {
                return Err(f);
            },
        };
        let game_version = match self.text_at(GV_LEN, GV) {
            Ok(v) => v,
            Err(f) => {
                return Err(f);
            },
        };
        let patch = match self.row_at(PMAJ, 2) {
            Ok(v) => v,
            Err(f) => {
                return Err(f);
            },
        };
        Ok(
            ReadHead {
                schema_version: head.schema_version,
                game_id: head.game_id,
                platform: head.platform,
                queue_id: head.queue_id,
                game_start_ms: head.game_start_ms,
                duration_s,
                blue_won: blue == 1,
                game_version,
                patch_major: patch[0],
                patch_minor: patch[1],
            },
        )
    }

    fn head(&mut self, game_id: u64, start: i64) -> (res: Result<ReadHead, BlockFault>)
        requires
            old(self).wf(),
        ensures
            final(self).wf(),
            reads(
                res,
                take_head(old(self)@, game_id as int, start as int),
                (res->Ok_0)@,
                final(self)@,
            ),
    {
        let schema_version: u32 = match self.u32_at(SCHEMA) {
            Ok(v) => v,
            Err(f) => {
                return Err(f);
            },
        };
        let gid: i128 = match self.delta_at(GID_D, game_id as i128, 0, u64::MAX as i128) {
            Ok(v) => v,
            Err(f) => {
                return Err(f);
            },
        };
        let platform = match self.text_at(PLAT_LEN, PLAT) {
            Ok(v) => v,
            Err(f) => {
                return Err(f);
            },
        };
        let queue_id: u32 = match self.u32_at(QUEUE) {
            Ok(v) => v,
            Err(f) => {
                return Err(f);
            },
        };
        let began: i128 = match self.delta_at(
            START_D,
            start as i128,
            i64::MIN as i128,
            i64::MAX as i128,
        ) {
            Ok(v) => v,
            Err(f) => {
                return Err(f);
            },
        };
        let first = ReadHead {
            schema_version,
            game_id: gid as u64,
            platform,
            queue_id,
            game_start_ms: began as i64,
            duration_s: 0,
            blue_won: false,
            game_version: Vec::new(),
            patch_major: 0,
            patch_minor: 0,
        };
        assert(first@ =~= RecordV {
            schema_version,
            game_id: gid as u64,
            platform: platform@,
            queue_id,
            game_start_ms: began as i64,
            ..crate::record::empty_record()
        });
        self.head_tail(first)
    }

    fn optional_timeline(&mut self) -> (res: Result<Option<TimelineLite>, BlockFault>)
        requires
            old(self).wf(),
        ensures
            final(self).wf(),
            reads(
                res,
                take_optional_timeline(old(self)@),
                match res->Ok_0 {
                    Some(t) => Some(t@),
                    None => None,
                },
                final(self)@,
            ),
    {
        match self.at_most(Column::Fixed(TL_PRESENT), 1) {
            Ok(present) => if present == 1 {
                match self.timeline() {
                    Ok(t) => Ok(Some(t)),
                    Err(f) => Err(f),
                }
            } else {
                Ok(None)
            },
            Err(f) => Err(f),
        }
    }

    fn record(&mut self, game_id: u64, start: i64) -> (res: Result<Rebuilt, BlockFault>)
        requires
            old(self).wf(),
        ensures
            final(self).wf(),
            match take_record(old(self)@, game_id as int, start as int) {
                Err(f) => res == Err::<Rebuilt, BlockFault>(f),
                Ok((r, left)) => res is Ok && (res->Ok_0).bytes@ == record_bytes(r) && (
                res->Ok_0).game_id == r.game_id && (res->Ok_0).game_start_ms == r.game_start_ms
                    && final(self)@ == left,
            },
    {
        let head = match self.head(game_id, start) {
            Ok(v) => v,
            Err(f) => {
                return Err(f);
            },
        };
        let n: usize = match self.count_at(NPARTS) {
            Ok(v) => v,
            Err(f) => {
                return Err(f);
            },
        };
        let participants = match self.participants(n) {
            Ok(v) => v,
            Err(f) => {
                return Err(f);
            },
        };
        let timeline = match self.optional_timeline() {
            Ok(v) => v,
            Err(f) => {
                return Err(f);
            },
        };
        let n_bans: usize = match self.count_at(BANS_N) {
            Ok(v) => v,
            Err(f) => {
                return Err(f);
            },
        };
        let bans = match self.list_at(BANS, n_bans) {
            Ok(v) => v,
            Err(f) => {
                return Err(f);
            },
        };
        let parts = Head {
            schema_version: head.schema_version,
            game_id: head.game_id,
            platform: head.platform.as_slice(),
            queue_id: head.queue_id,
            game_start_ms: head.game_start_ms,
            duration_s: head.duration_s,
            blue_won: head.blue_won,
            game_version: head.game_version.as_slice(),
            patch_major: head.patch_major,
            patch_minor: head.patch_minor,
        };
        let bytes = encode_parts(&parts, &participants, &timeline, &bans);
        Ok(Rebuilt { bytes, game_id: head.game_id, game_start_ms: head.game_start_ms })
    }

    /// The first column that has bytes left.
    fn unconsumed(&self) -> (res: Option<Column>)
        requires
            self.wf(),
        ensures
            res == first_unconsumed(self@, 0),
    {
        let n: usize = self.cols.len();
        let mut i: usize = 0;
        while i < n
            invariant
                self.wf(),
                n == self.cols@.len(),
                i <= n,
                first_unconsumed(self@, 0) == first_unconsumed(self@, i as int),
            decreases n - i,
        {
            let c = if i < NMISC {
                Column::Fixed(i)
            } else if i - NMISC < self.stats {
                Column::Stat(i - NMISC)
            } else {
                Column::Rune(i - NMISC - self.stats)
            };
            assert(c == nth_column(self@, i as int));
            assert(column(self@, c) == self.left(i as int));
            if self.pos[i] < self.cols[i].len() {
                return Some(c);
            }
            i = i + 1;
        }
        None
    }
}

fn header_number(payload: &[u8], pos: usize, field: HeaderField) -> (res: Result<
    (usize, usize),
    BlockFault,
>)
    requires
        pos <= payload@.len(),
    ensures
        match res {
            Ok((v, next)) => pos < next <= payload@.len() && take_header(
                payload@.skip(pos as int),
                field,
            ) == Ok::<(int, Seq<u8>), BlockFault>((v as int, payload@.skip(next as int))),
            Err(f) => take_header(payload@.skip(pos as int), field) == Err::<
                (int, Seq<u8>),
                BlockFault,
            >(f),
        },
{
    match read_varint_at(payload, pos) {
        Ok((v, next)) => if v <= usize::MAX as u64 {
            Ok((v as usize, next))
        } else {
            Err(BlockFault::HeaderRange(field))
        },
        Err(f) => Err(BlockFault::HeaderVarint(field, f)),
    }
}

pub open spec fn usizes(values: Seq<usize>) -> Seq<int> {
    values.map_values(|v: usize| v as int)
}

/// Lengths whose first items are known and whose others come from `more`.
pub open spec fn after_lengths(
    first: Seq<int>,
    more: Result<(Seq<int>, Seq<u8>), BlockFault>,
) -> Result<(Seq<int>, Seq<u8>), BlockFault> {
    match more {
        Ok((items, data)) => Ok((first + items, data)),
        Err(f) => Err(f),
    }
}

fn header_lengths(payload: &[u8], pos: usize, n: usize) -> (res: Result<
    (Vec<usize>, usize),
    BlockFault,
>)
    requires
        pos <= payload@.len(),
    ensures
        match res {
            Ok((lengths, next)) => pos <= next <= payload@.len() && lengths@.len() == n
                && take_lengths(payload@.skip(pos as int), 0, n as int) == Ok::<
                (Seq<int>, Seq<u8>),
                BlockFault,
            >((usizes(lengths@), payload@.skip(next as int))),
            Err(f) => take_lengths(payload@.skip(pos as int), 0, n as int) == Err::<
                (Seq<int>, Seq<u8>),
                BlockFault,
            >(f),
        },
{
    let mut lengths: Vec<usize> = Vec::new();
    let mut at: usize = pos;
    let mut k: usize = 0;
    let ghost goal = take_lengths(payload@.skip(pos as int), 0, n as int);
    proof {
        assert(usizes(lengths@) =~= Seq::empty());
        match goal {
            Ok((items, _)) => {
                assert(Seq::<int>::empty() + items =~= items);
            },
            Err(_) => {},
        }
    }
    while k < n
        invariant
            pos <= at <= payload@.len(),
            k <= n,
            lengths@.len() == k,
            goal == take_lengths(payload@.skip(pos as int), 0, n as int),
            goal == after_lengths(
                usizes(lengths@),
                take_lengths(payload@.skip(at as int), k as int, n as int),
            ),
        decreases n - k,
    {
        match header_number(payload, at, HeaderField::ColumnLength(k)) {
            Ok((len, next)) => {
                let ghost done = usizes(lengths@);
                lengths.push(len);
                proof {
                    assert(usizes(lengths@) =~= done.push(len as int));
                    match take_lengths(payload@.skip(next as int), k + 1, n as int) {
                        Ok((items, _)) => {
                            assert(done + (seq![len as int] + items) =~= done.push(len as int)
                                + items);
                        },
                        Err(_) => {},
                    }
                }
                at = next;
            },
            Err(f) => {
                return Err(f);
            },
        }
        k = k + 1;
    }
    proof {
        assert(usizes(lengths@) + Seq::<int>::empty() =~= usizes(lengths@));
    }
    Ok((lengths, at))
}

proof fn lemma_total_push(lengths: Seq<int>, v: int)
    ensures
        total(lengths.push(v)) == total(lengths) + v,
    decreases lengths.len(),
{
    reveal_with_fuel(total, 2);
    if lengths.len() > 0 {
        assert(lengths.push(v).skip(1) =~= lengths.skip(1).push(v));
        lemma_total_push(lengths.skip(1), v);
    } else {
        assert(lengths.push(v).skip(1) =~= Seq::empty());
    }
}

proof fn lemma_total_prefix(lengths: Seq<int>, k: int)
    requires
        0 <= k <= lengths.len(),
        forall|i: int| 0 <= i < lengths.len() ==> #[trigger] lengths[i] >= 0,
    ensures
        0 <= total(lengths.take(k)) <= total(lengths),
    decreases lengths.len() - k,
{
    if k == lengths.len() {
        assert(lengths.take(k) =~= lengths);
        lemma_total_nonneg(lengths);
    } else {
        lemma_total_prefix(lengths, k + 1);
        assert(lengths.take(k + 1) =~= lengths.take(k).push(lengths[k]));
        lemma_total_push(lengths.take(k), lengths[k]);
        lemma_total_nonneg(lengths.take(k));
    }
}

proof fn lemma_total_nonneg(lengths: Seq<int>)
    requires
        forall|i: int| 0 <= i < lengths.len() ==> #[trigger] lengths[i] >= 0,
    ensures
        total(lengths) >= 0,
    decreases lengths.len(),
{
    if lengths.len() > 0 {
        lemma_total_nonneg(lengths.skip(1));
    }
}

/// Each piece is the stretch between the sums of the lengths before it.
proof fn lemma_cut(b: Seq<u8>, lengths: Seq<int>, i: int)
    requires
        0 <= i < lengths.len(),
        total(lengths) == b.len(),
        forall|j: int| 0 <= j < lengths.len() ==> #[trigger] lengths[j] >= 0,
    ensures
        cut(b, lengths).len() == lengths.len(),
        cut(b, lengths)[i] == b.subrange(
            total(lengths.take(i)),
            total(lengths.take(i)) + lengths[i],
        ),
    decreases lengths.len(),
{
    lemma_cut_len(b, lengths);
    lemma_total_prefix(lengths, i);
    lemma_total_prefix(lengths, i + 1);
    assert(lengths.take(i + 1) =~= lengths.take(i).push(lengths[i]));
    lemma_total_push(lengths.take(i), lengths[i]);
    lemma_total_nonneg(lengths.skip(1));
    if i > 0 {
        lemma_cut(b.skip(lengths[0]), lengths.skip(1), i - 1);
        assert(lengths.take(i).skip(1) =~= lengths.skip(1).take(i - 1));
        let at = total(lengths.skip(1).take(i - 1));
        lemma_total_prefix(lengths.skip(1), i - 1);
        assert(b.skip(lengths[0]).subrange(at, at + lengths[i]) =~= b.subrange(
            lengths[0] + at,
            lengths[0] + at + lengths[i],
        ));
    } else {
        assert(lengths.take(0) =~= Seq::empty());
    }
}

proof fn lemma_cut_len(b: Seq<u8>, lengths: Seq<int>)
    ensures
        cut(b, lengths).len() == lengths.len(),
    decreases lengths.len(),
{
    if lengths.len() > 0 {
        lemma_cut_len(b.skip(lengths[0]), lengths.skip(1));
    }
}

/// The sum of lengths, unless it passes `usize::MAX - base`.
fn sum_lengths(lengths: &Vec<usize>, base: usize) -> (res: Option<usize>)
    ensures
        match res {
            Some(v) => v == total(usizes(lengths@)) && base + v <= usize::MAX,
            None => base + total(usizes(lengths@)) > usize::MAX,
        },
{
    let mut sum: usize = 0;
    let mut i: usize = 0;
    proof {
        assert(usizes(lengths@.take(0)) =~= Seq::empty());
    }
    while i < lengths.len()
        invariant
            i <= lengths@.len(),
            sum == total(usizes(lengths@.take(i as int))),
            base + sum <= usize::MAX,
        decreases lengths@.len() - i,
    {
        proof {
            let all = usizes(lengths@);
            assert(all.take(i + 1) =~= usizes(lengths@.take(i as int)).push(all[i as int]));
            assert(all.take(i + 1) =~= usizes(lengths@.take(i + 1)));
            lemma_total_push(usizes(lengths@.take(i as int)), all[i as int]);
            lemma_total_prefix(all, i + 1);
        }
        if lengths[i] > usize::MAX - base - sum {
            return None;
        }
        sum = sum + lengths[i];
        i = i + 1;
    }
    assert(lengths@.take(i as int) =~= lengths@);
    Some(sum)
}

/// Sets cursors over the columns that start at `data`.
fn open_columns<'a>(
    payload: &'a [u8],
    data: usize,
    lengths: &Vec<usize>,
    stats: usize,
    runes: usize,
) -> (res: Readers<'a>)
    requires
        data <= payload@.len(),
        lengths@.len() == NMISC + stats + runes,
        total(usizes(lengths@)) == payload@.len() - data,
    ensures
        res.wf(),
        res@ == as_streams(cut(payload@.skip(data as int), usizes(lengths@)), stats as int),
{
    let ghost b = payload@.skip(data as int);
    let ghost all = usizes(lengths@);
    let mut cols: Vec<&'a [u8]> = Vec::new();
    let mut pos: Vec<usize> = Vec::new();
    let mut off: usize = data;
    let mut i: usize = 0;
    let size: usize = payload.len();
    proof {
        assert(all.take(0) =~= Seq::empty());
        lemma_cut_len(b, all);
    }
    while i < lengths.len()
        invariant
            i <= lengths@.len(),
            data <= payload@.len(),
            size == payload@.len(),
            b == payload@.skip(data as int),
            all == usizes(lengths@),
            total(all) == b.len(),
            off == data + total(all.take(i as int)),
            off <= payload@.len(),
            cols@.len() == i,
            pos@.len() == i,
            forall|j: int| 0 <= j < i ==> #[trigger] pos@[j] == 0,
            forall|j: int| 0 <= j < i ==> (#[trigger] cols@[j])@ == cut(b, all)[j],
        decreases lengths@.len() - i,
    {
        proof {
            lemma_total_prefix(all, i + 1);
            assert(all.take(i + 1) =~= all.take(i as int).push(all[i as int]));
            lemma_total_push(all.take(i as int), all[i as int]);
            lemma_cut(b, all, i as int);
            lemma_total_prefix(all, i as int);
            assert(off + lengths@[i as int] <= size);
        }
        let end: usize = off + lengths[i];
        let col = vstd::slice::slice_subrange(payload, off, end);
        assert(col@ =~= cut(b, all)[i as int]);
        cols.push(col);
        pos.push(0);
        off = end;
        i = i + 1;
    }
    let res = Readers { cols, pos, stats, runes };
    proof {
        let want = as_streams(cut(b, all), stats as int);
        assert forall|j: int| 0 <= j < lengths@.len() implies #[trigger] res.left(j) == cut(
            b,
            all,
        )[j] by {
            assert(res.pos@[j] == 0);
            assert(res.cols@[j]@.skip(0) =~= res.cols@[j]@);
        }
        assert(res@.fixed =~= want.fixed);
        assert(res@.stat =~= want.stat);
        assert(res@.rune =~= want.rune);
    }
    res
}

/// Reads a block's header and sets cursors over its columns.
fn parse_manifest<'a>(payload: &'a [u8]) -> (res: Result<(usize, Readers<'a>), BlockFault>)
    ensures
        match res {
            Ok((n, readers)) => readers.wf() && manifest(payload@) == Ok::<
                (int, Streams),
                BlockFault,
            >((n as int, readers@)),
            Err(f) => manifest(payload@) == Err::<(int, Streams), BlockFault>(f),
        },
{
    if payload.len() < 5 {
        return Err(BlockFault::TruncatedHeader);
    }
    if !(payload[0] == 76 && payload[1] == 67 && payload[2] == 79 && payload[3] == 76) {
        proof {
            if payload@.take(4) == preamble().take(4) {
                assert(payload@.take(4)[0] == preamble().take(4)[0]);
                assert(payload@.take(4)[1] == preamble().take(4)[1]);
                assert(payload@.take(4)[2] == preamble().take(4)[2]);
                assert(payload@.take(4)[3] == preamble().take(4)[3]);
            }
        }
        return Err(BlockFault::BadMagic);
    }
    assert(payload@.take(4) =~= preamble().take(4));
    if payload[4] != VERSION {
        return Err(BlockFault::UnsupportedVersion);
    }
    let (records, p1): (usize, usize) = match header_number(payload, 5, HeaderField::Records) {
        Ok(v) => v,
        Err(f) => {
            return Err(f);
        },
    };
    let (stats, p2): (usize, usize) = match header_number(
        payload,
        p1,
        HeaderField::StatColumns,
    ) {
        Ok(v) => v,
        Err(f) => {
            return Err(f);
        },
    };
    let (runes, p3): (usize, usize) = match header_number(
        payload,
        p2,
        HeaderField::RuneColumns,
    ) {
        Ok(v) => v,
        Err(f) => {
            return Err(f);
        },
    };
    if stats > usize::MAX - NMISC || runes > usize::MAX - NMISC - stats {
        return Err(BlockFault::TooManyColumns);
    }
    let n: usize = NMISC + stats + runes;
    if n > payload.len() - p3 {
        return Err(BlockFault::TruncatedManifest);
    }
    let (lengths, data): (Vec<usize>, usize) = match header_lengths(payload, p3, n) {
        Ok(v) => v,
        Err(f) => {
            return Err(f);
        },
    };
    assert(payload@.skip(data as int).len() == payload@.len() - data);
    let size: usize = match sum_lengths(&lengths, data) {
        Some(v) => v,
        None => {
            return Err(BlockFault::LengthsOverflow);
        },
    };
    if size > payload.len() - data {
        return Err(BlockFault::TruncatedData);
    }
    if size < payload.len() - data {
        return Err(BlockFault::TrailingData);
    }
    Ok((records, open_columns(payload, data, &lengths, stats, runes)))
}

/// The canonical encodings of the records that a payload holds, in order.
pub fn decode_block(payload: &[u8]) -> (res: Result<Vec<Vec<u8>>, BlockError>)
    ensures
        match block_records(payload@) {
            Ok(records) => res is Ok && byte_strings((res->Ok_0)@) == encodings(records),
            Err(e) => res == Err::<Vec<Vec<u8>>, BlockError>(e),
        },
{
    proof {
        reveal(block_records);
    }
    let (n, mut cols): (usize, Readers) = match parse_manifest(payload) {
        Ok(v) => v,
        Err(fault) => {
            return Err(BlockError { record: None, fault });
        },
    };
    let ghost start = cols@;
    let ghost mut done: Seq<RecordV> = Seq::empty();
    let mut out: Vec<Vec<u8>> = Vec::new();
    let mut game_id: u64 = 0;
    let mut game_start_ms: i64 = 0;
    let mut k: usize = 0;
    proof {
        lemma_after_none(take_records(start, 0, 0, 0, n as int));
        assert(byte_strings(out@) =~= encodings(done));
    }
    while k < n
        invariant
            cols.wf(),
            k <= n,
            manifest(payload@) == Ok::<(int, Streams), BlockFault>((n as int, start)),
            byte_strings(out@) == encodings(done),
            take_records(start, 0, 0, 0, n as int) == after(
                done,
                take_records(cols@, game_id as int, game_start_ms as int, k as int, n as int),
            ),
        decreases n - k,
    {
        let ghost here = cols@;
        proof {
            reveal(block_records);
        }
        match cols.record(game_id, game_start_ms) {
            Ok(rebuilt) => {
                let ghost was = out@;
                proof {
                    match take_record(here, game_id as int, game_start_ms as int) {
                        Ok((r, left)) => {
                            lemma_after_push(
                                done,
                                r,
                                take_records(
                                    left,
                                    r.game_id as int,
                                    r.game_start_ms as int,
                                    k + 1,
                                    n as int,
                                ),
                            );
                            assert(encodings(done.push(r)) =~= encodings(done).push(
                                record_bytes(r),
                            ));
                            done = done.push(r);
                        },
                        Err(_) => {},
                    }
                }
                game_id = rebuilt.game_id;
                game_start_ms = rebuilt.game_start_ms;
                out.push(rebuilt.bytes);
                assert(byte_strings(out@) =~= byte_strings(was).push(rebuilt.bytes@));
            },
            Err(fault) => {
                return Err(BlockError { record: Some(k), fault });
            },
        }
        k = k + 1;
    }
    proof {
        lemma_after_end::<_, BlockError>(done, cols@);
    }
    match cols.unconsumed() {
        Some(c) => Err(BlockError { record: None, fault: BlockFault::Unconsumed(c) }),
        None => Ok(out),
    }
}

} // verus!
