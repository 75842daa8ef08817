//! Building the columnar form of a block of records.

use crate::columnar::{
    at_or_zero, block_records, byte_strings, column, encodings, has_column, no_series, preamble,
    Column, EncodeError, Streams, BANS, BANS_N, BLUE, DUR, F_GOLD_N, F_MINUTE, GID_D, GV, GV_LEN,
    K_T, NFRAMES, NKILLS, NMISC, NOBJS, NPARTS, NWARDS, O_T, PLAT, PLAT_LEN, PMAJ, P_PLAYER,
    P_RUNES_N, P_STATS_N, QUEUE, SCHEMA, START_D, TL_PRESENT, VERSION, W_T,
};
use crate::columnar_laws::{
    has_slots, lemma_frame_small, lemma_list_width, lemma_put_event_list, lemma_put_events,
    lemma_block_slots, lemma_put_frames, lemma_put_optional_timeline, lemma_put_record,
    lemma_put_records, lemma_put_timeline, lemma_put_all_series, lemma_put_participants,
    lemma_put_series, small, all_columns, all_deltas_fit, block_payload, block_streams, block_width,
    concat, deltas_fit, empty_columns, empty_streams, flat_sized, flats_sized, law_block_roundtrip,
    lengths, list_width, max, payload_of, put_all_series, put_col, put_event_list, put_events,
    put_frames, put_head, put_head_tail, put_list, put_optional_timeline, put_participant,
    put_participants, put_raw, put_record, put_records, put_row, put_series, put_slots, put_text,
    put_timeline, record_sized, records_sized, same_widths, timeline_sized,
};
use crate::record::{
    has_shape, lemma_record_valid, record_valid, participant_shape, timeline_shape, Flat, Shape,
    record_bytes, record_decoded, views, MatchRecord, MinuteFrame, Participant, RecordV,
    TimelineLite,
};
use crate::record_laws::law_record_roundtrip;
use crate::wire::{ints, push_all, varint, varints, write_varint, zigzag, zigzag_i64, zigzags};
use vstd::prelude::*;
use vstd::utf8::encode_utf8;

verus! {

/// Two sets of columns, one after the other, column by column. The first may
/// lack dynamic columns that the second has.
pub open spec fn join(first: Streams, rest: Streams) -> Streams {
    Streams {
        fixed: join_columns(first.fixed, rest.fixed),
        stat: join_columns(first.stat, rest.stat),
        rune: join_columns(first.rune, rest.rune),
    }
}

pub open spec fn join_columns(first: Seq<Seq<u8>>, rest: Seq<Seq<u8>>) -> Seq<Seq<u8>> {
    Seq::new(
        rest.len(),
        |i: int|
            if i < first.len() {
                first[i] + rest[i]
            } else {
                rest[i]
            },
    )
}

/// The second set has every column of the first.
pub open spec fn fits(first: Streams, rest: Streams) -> bool {
    &&& first.fixed.len() == NMISC
    &&& rest.fixed.len() == NMISC
    &&& first.stat.len() <= rest.stat.len()
    &&& first.rune.len() <= rest.rune.len()
    &&& rest.stat.len() <= usize::MAX
    &&& rest.rune.len() <= usize::MAX
}

/// Columns under construction.
struct Cols {
    fixed: Vec<Vec<u8>>,
    stat: Vec<Vec<u8>>,
    rune: Vec<Vec<u8>>,
}

impl View for Cols {
    type V = Streams;

    closed spec fn view(&self) -> Streams {
        Streams {
            fixed: byte_strings(self.fixed@),
            stat: byte_strings(self.stat@),
            rune: byte_strings(self.rune@),
        }
    }
}

fn new_columns(n: usize) -> (res: Vec<Vec<u8>>)
    ensures
        byte_strings(res@) == empty_columns(n as int),
{
    let mut res: Vec<Vec<u8>> = Vec::new();
    let mut i: usize = 0;
    assert(byte_strings(res@) =~= empty_columns(0));
    while i < n
        invariant
            i <= n,
            byte_strings(res@) == empty_columns(i as int),
        decreases n - i,
    {
        let ghost before = byte_strings(res@);
        res.push(Vec::new());
        proof {
            assert(byte_strings(res@) =~= before.push(Seq::empty()));
            assert(byte_strings(res@) =~= empty_columns(i + 1));
        }
        i = i + 1;
    }
    res
}

/// Appends to one column, growing the set of columns up to it if need be.
fn append_column(cols: &mut Vec<Vec<u8>>, i: usize, value: u64)
    requires
        i < usize::MAX,
    ensures
        byte_strings(final(cols)@).len() == max(old(cols)@.len() as int, i + 1),
        final(cols)@.len() == max(old(cols)@.len() as int, i + 1),
        forall|rest: Seq<Seq<u8>>|
            rest.len() >= final(cols)@.len() ==> #[trigger] join_columns(
                byte_strings(final(cols)@),
                rest,
            ) == join_columns(
                byte_strings(old(cols)@),
                rest.update(i as int, varint(value as int) + rest[i as int]),
            ),
{
    let ghost before = byte_strings(cols@);
    while cols.len() <= i
        invariant
            i < usize::MAX,
            before == byte_strings(old(cols)@),
            old(cols)@.len() <= cols@.len() <= max(old(cols)@.len() as int, i + 1),
            forall|j: int|
                0 <= j < cols@.len() ==> (#[trigger] cols@[j])@ == (if j < before.len() {
                    before[j]
                } else {
                    Seq::empty()
                }),
        decreases i + 1 - cols@.len(),
    {
        cols.push(Vec::new());
    }
    let ghost grown = cols@;
    let mut col: Vec<u8> = Vec::new();
    std::mem::swap(&mut col, &mut cols[i]);
    write_varint(&mut col, value);
    cols.set(i, col);
    proof {
        let now = byte_strings(cols@);
        assert forall|rest: Seq<Seq<u8>>| rest.len() >= cols@.len() implies #[trigger] join_columns(
            now,
            rest,
        ) == join_columns(
            before,
            rest.update(i as int, varint(value as int) + rest[i as int]),
        ) by {
            let put = rest.update(i as int, varint(value as int) + rest[i as int]);
            assert forall|j: int| 0 <= j < rest.len() implies join_columns(now, rest)[j]
                =~= join_columns(before, put)[j] by {
                if j < cols@.len() {
                    let was = if j < before.len() {
                        before[j]
                    } else {
                        Seq::empty()
                    };
                    assert(grown[j]@ == was);
                    if j == i {
                        assert(now[j] =~= was + varint(value as int));
                        assert(now[j] + rest[j] =~= was + (varint(value as int) + rest[j]));
                    } else {
                        assert(now[j] == grown[j]@);
                    }
                }
            }
            assert(join_columns(now, rest) =~= join_columns(before, put));
        }
    }
}

impl Cols {
    spec fn wf(&self) -> bool {
        self.fixed@.len() == NMISC
    }

    fn new() -> (res: Self)
        ensures
            res.wf(),
            res@ == empty_streams(0, 0),
    {
        let res = Cols { fixed: new_columns(NMISC), stat: Vec::new(), rune: Vec::new() };
        proof {
            assert(byte_strings(res.fixed@).len() == NMISC);
            assert(res@.stat =~= empty_columns(0));
            assert(res@.rune =~= empty_columns(0));
        }
        res
    }

    /// Appends a varint to a fixed column.
    fn wv(&mut self, col: usize, v: u64)
        requires
            old(self).wf(),
            col < NMISC,
        ensures
            final(self).wf(),
            final(self)@.stat == old(self)@.stat,
            final(self)@.rune == old(self)@.rune,
            forall|rest: Streams|
                fits(final(self)@, rest) ==> #[trigger] join(final(self)@, rest) == join(
                    old(self)@,
                    put_col(rest, Column::Fixed(col), v as int),
                ),
    {
        append_column(&mut self.fixed, col, v);
    }

    /// Appends raw bytes to a fixed column.
    fn wbytes(&mut self, col: usize, bytes: &[u8])
        requires
            old(self).wf(),
            col < NMISC,
        ensures
            final(self).wf(),
            final(self)@.stat == old(self)@.stat,
            final(self)@.rune == old(self)@.rune,
            forall|rest: Streams|
                fits(final(self)@, rest) ==> #[trigger] join(final(self)@, rest) == join(
                    old(self)@,
                    put_raw(rest, Column::Fixed(col), bytes@),
                ),
    {
        let ghost before = self.fixed@;
        let mut column: Vec<u8> = Vec::new();
        std::mem::swap(&mut column, &mut self.fixed[col]);
        push_all(&mut column, bytes);
        self.fixed.set(col, column);
        proof {
            let now = byte_strings(self.fixed@);
            let was = byte_strings(before);
            assert forall|rest: Seq<Seq<u8>>| rest.len() == NMISC implies #[trigger] join_columns(
                now,
                rest,
            ) == join_columns(was, rest.update(col as int, bytes@ + rest[col as int])) by {
                let put = rest.update(col as int, bytes@ + rest[col as int]);
                assert forall|j: int| 0 <= j < rest.len() implies join_columns(now, rest)[j]
                    =~= join_columns(was, put)[j] by {
                    if j == col {
                        assert(now[j] + rest[j] =~= was[j] + (bytes@ + rest[j]));
                    } else {
                        assert(now[j] == was[j]);
                    }
                }
                assert(join_columns(now, rest) =~= join_columns(was, put));
            }
        }
    }

    /// Appends to a rune column.
    fn rune(&mut self, idx: usize, v: u64)
        requires
            old(self).wf(),
            idx < usize::MAX,
        ensures
            final(self).wf(),
            final(self)@.stat == old(self)@.stat,
            final(self)@.rune.len() == max(old(self)@.rune.len() as int, idx + 1),
            forall|rest: Streams|
                fits(final(self)@, rest) ==> #[trigger] join(final(self)@, rest) == join(
                    old(self)@,
                    put_col(rest, Column::Rune(idx), v as int),
                ),
    {
        append_column(&mut self.rune, idx, v);
    }

    /// Appends to a stat column.
    fn stat(&mut self, idx: usize, v: u64)
        requires
            old(self).wf(),
            idx < usize::MAX,
        ensures
            final(self).wf(),
            final(self)@.rune == old(self)@.rune,
            final(self)@.stat.len() == max(old(self)@.stat.len() as int, idx + 1),
            forall|rest: Streams|
                fits(final(self)@, rest) ==> #[trigger] join(final(self)@, rest) == join(
                    old(self)@,
                    put_col(rest, Column::Stat(idx), v as int),
                ),
    {
        append_column(&mut self.stat, idx, v);
    }

    /// Appends a text: its length and its bytes.
    fn text(&mut self, len: usize, text: usize, bytes: &[u8])
        requires
            old(self).wf(),
            len < NMISC,
            text < NMISC,
        ensures
            final(self).wf(),
            final(self)@.stat == old(self)@.stat,
            final(self)@.rune == old(self)@.rune,
            forall|rest: Streams|
                fits(final(self)@, rest) ==> #[trigger] join(final(self)@, rest) == join(
                    old(self)@,
                    put_text(rest, len, text, bytes@),
                ),
    {
        self.wv(len, bytes.len() as u64);
        self.wbytes(text, bytes);
    }

    fn row(&mut self, row: &[u32], base: usize)
        requires
            old(self).wf(),
            base + row@.len() <= NMISC,
        ensures
            final(self).wf(),
            final(self)@.stat == old(self)@.stat,
            final(self)@.rune == old(self)@.rune,
            forall|rest: Streams|
                fits(final(self)@, rest) ==> #[trigger] join(final(self)@, rest) == join(
                    old(self)@,
                    put_row(rest, row@, base as int, 0),
                ),
    {
        let mut k: usize = 0;
        while k < row.len()
            invariant
                self.wf(),
                k <= row@.len(),
                base + row@.len() <= NMISC,
                self@.stat == old(self)@.stat,
                self@.rune == old(self)@.rune,
                forall|rest: Streams|
                    fits(self@, rest) ==> join(
                        self@,
                        #[trigger] put_row(rest, row@, base as int, k as int),
                    ) == join(old(self)@, put_row(rest, row@, base as int, 0)),
            decreases row@.len() - k,
        {
            let ghost before = self@;
            self.wv(base + k, row[k] as u64);
            proof {
                assert forall|rest: Streams| fits(self@, rest) implies join(
                    self@,
                    #[trigger] put_row(rest, row@, base as int, k + 1),
                ) == join(old(self)@, put_row(rest, row@, base as int, 0)) by {
                    lemma_row_widths(rest, row@, base as int, k + 1);
                    let more = put_row(rest, row@, base as int, k + 1);
                    assert(join(self@, more) == join(
                        before,
                        put_row(rest, row@, base as int, k as int),
                    ));
                }
            }
            k = k + 1;
        }
        proof {
            assert forall|rest: Streams| fits(self@, rest) implies #[trigger] join(self@, rest)
                == join(old(self)@, put_row(rest, row@, base as int, 0)) by {
                assert(put_row(rest, row@, base as int, k as int) == rest);
            }
        }
    }

    fn list(&mut self, col: usize, list: &Vec<u32>)
        requires
            old(self).wf(),
            col < NMISC,
        ensures
            final(self).wf(),
            final(self)@.stat == old(self)@.stat,
            final(self)@.rune == old(self)@.rune,
            forall|rest: Streams|
                fits(final(self)@, rest) ==> #[trigger] join(final(self)@, rest) == join(
                    old(self)@,
                    put_list(rest, Column::Fixed(col), list@, 0),
                ),
    {
        let ghost c = Column::Fixed(col);
        let mut k: usize = 0;
        while k < list.len()
            invariant
                self.wf(),
                k <= list@.len(),
                col < NMISC,
                c == Column::Fixed(col),
                self@.stat == old(self)@.stat,
                self@.rune == old(self)@.rune,
                forall|rest: Streams|
                    fits(self@, rest) ==> join(
                        self@,
                        #[trigger] put_list(rest, c, list@, k as int),
                    ) == join(old(self)@, put_list(rest, c, list@, 0)),
            decreases list@.len() - k,
        {
            let ghost before = self@;
            self.wv(col, list[k] as u64);
            proof {
                assert forall|rest: Streams| fits(self@, rest) implies join(
                    self@,
                    #[trigger] put_list(rest, c, list@, k + 1),
                ) == join(old(self)@, put_list(rest, c, list@, 0)) by {
                    lemma_list_widths(rest, c, list@, k + 1);
                    let more = put_list(rest, c, list@, k + 1);
                    assert(join(self@, more) == join(before, put_list(rest, c, list@, k as int)));
                }
            }
            k = k + 1;
        }
        proof {
            assert forall|rest: Streams| fits(self@, rest) implies #[trigger] join(self@, rest)
                == join(old(self)@, put_list(rest, c, list@, 0)) by {
                assert(put_list(rest, c, list@, k as int) == rest);
            }
        }
    }

    fn runes(&mut self, list: &Vec<u32>)
        requires
            old(self).wf(),
        ensures
            final(self).wf(),
            final(self)@.stat == old(self)@.stat,
            final(self)@.rune.len() == max(old(self)@.rune.len() as int, list@.len() as int),
            forall|rest: Streams|
                fits(final(self)@, rest) ==> #[trigger] join(final(self)@, rest) == join(
                    old(self)@,
                    put_slots(rest, false, ints(list@), 0),
                ),
    {
        let ghost all = ints(list@);
        let mut k: usize = 0;
        while k < list.len()
            invariant
                self.wf(),
                k <= list@.len(),
                all == ints(list@),
                self@.stat == old(self)@.stat,
                self@.rune.len() == max(old(self)@.rune.len() as int, k as int),
                forall|rest: Streams|
                    fits(self@, rest) && list@.len() <= rest.rune.len() ==> join(
                        self@,
                        #[trigger] put_slots(rest, false, all, k as int),
                    ) == join(old(self)@, put_slots(rest, false, all, 0)),
            decreases list@.len() - k,
        {
            let ghost before = self@;
            self.rune(k, list[k] as u64);
            proof {
                assert forall|rest: Streams|
                    fits(self@, rest) && list@.len() <= rest.rune.len() implies join(
                    self@,
                    #[trigger] put_slots(rest, false, all, k + 1),
                ) == join(old(self)@, put_slots(rest, false, all, 0)) by {
                    lemma_slots_widths(rest, false, all, k + 1);
                    let more = put_slots(rest, false, all, k + 1);
                    assert(join(self@, more) == join(
                        before,
                        put_slots(rest, false, all, k as int),
                    ));
                }
            }
            k = k + 1;
        }
        proof {
            assert forall|rest: Streams| fits(self@, rest) implies #[trigger] join(self@, rest)
                == join(old(self)@, put_slots(rest, false, all, 0)) by {
                assert(put_slots(rest, false, all, k as int) == rest);
            }
        }
    }

    fn stats(&mut self, list: &Vec<i64>)
        requires
            old(self).wf(),
        ensures
            final(self).wf(),
            final(self)@.rune == old(self)@.rune,
            final(self)@.stat.len() == max(old(self)@.stat.len() as int, list@.len() as int),
            forall|rest: Streams|
                fits(final(self)@, rest) ==> #[trigger] join(final(self)@, rest) == join(
                    old(self)@,
                    put_slots(rest, true, zigzags(list@), 0),
                ),
    {
        let ghost all = zigzags(list@);
        let mut k: usize = 0;
        while k < list.len()
            invariant
                self.wf(),
                k <= list@.len(),
                all == zigzags(list@),
                self@.rune == old(self)@.rune,
                self@.stat.len() == max(old(self)@.stat.len() as int, k as int),
                forall|rest: Streams|
                    fits(self@, rest) && list@.len() <= rest.stat.len() ==> join(
                        self@,
                        #[trigger] put_slots(rest, true, all, k as int),
                    ) == join(old(self)@, put_slots(rest, true, all, 0)),
            decreases list@.len() - k,
        {
            let ghost before = self@;
            self.stat(k, zigzag_i64(list[k]));
            proof {
                assert forall|rest: Streams|
                    fits(self@, rest) && list@.len() <= rest.stat.len() implies join(
                    self@,
                    #[trigger] put_slots(rest, true, all, k + 1),
                ) == join(old(self)@, put_slots(rest, true, all, 0)) by {
                    lemma_slots_widths(rest, true, all, k + 1);
                    let more = put_slots(rest, true, all, k + 1);
                    assert(join(self@, more) == join(
                        before,
                        put_slots(rest, true, all, k as int),
                    ));
                }
            }
            k = k + 1;
        }
        proof {
            assert forall|rest: Streams| fits(self@, rest) implies #[trigger] join(self@, rest)
                == join(old(self)@, put_slots(rest, true, all, 0)) by {
                assert(put_slots(rest, true, all, k as int) == rest);
            }
        }
    }
}

proof fn lemma_row_widths(s: Streams, row: Seq<u32>, base: int, k: int)
    requires
        0 <= base,
        base + row.len() <= s.fixed.len() <= usize::MAX,
    ensures
        same_widths(put_row(s, row, base, k), s),
    decreases row.len() - k,
{
    if 0 <= k < row.len() {
        lemma_row_widths(s, row, base, k + 1);
    }
}

proof fn lemma_list_widths(s: Streams, c: Column, list: Seq<u32>, k: int)
    requires
        has_column(s, c),
    ensures
        same_widths(put_list(s, c, list, k), s),
    decreases list.len() - k,
{
    if 0 <= k < list.len() {
        lemma_list_widths(s, c, list, k + 1);
    }
}

proof fn lemma_slots_widths(s: Streams, stats: bool, list: Seq<int>, k: int)
    requires
        list.len() <= (if stats {
            s.stat.len()
        } else {
            s.rune.len()
        }),
        list.len() <= usize::MAX,
    ensures
        same_widths(put_slots(s, stats, list, k), s),
    decreases list.len() - k,
{
    if 0 <= k < list.len() {
        lemma_slots_widths(s, stats, list, k + 1);
    }
}

impl Cols {
    fn participant(&mut self, p: &Participant)
        requires
            old(self).wf(),
        ensures
            final(self).wf(),
            final(self)@.rune.len() == max(
                old(self)@.rune.len() as int,
                p@.lists[0].len() as int,
            ),
            final(self)@.stat.len() == max(
                old(self)@.stat.len() as int,
                p@.lists[1].len() as int,
            ),
            forall|rest: Streams|
                fits(final(self)@, rest) ==> #[trigger] join(final(self)@, rest) == join(
                    old(self)@,
                    put_participant(rest, p@),
                ),
    {
        let row = p.row();
        proof {
            p.lemma_shape();
        }
        self.row(row.as_slice(), P_PLAYER);
        let ghost c1 = self@;
        self.wv(P_RUNES_N, p.runes.len() as u64);
        let ghost c2 = self@;
        self.runes(&p.runes);
        let ghost c3 = self@;
        self.wv(P_STATS_N, p.stats.len() as u64);
        let ghost c4 = self@;
        self.stats(&p.stats);
        proof {
            let runes = p@.lists[0];
            let stats = p@.lists[1];
            p.lemma_shape();
            assert forall|rest: Streams| fits(self@, rest) implies #[trigger] join(self@, rest)
                == join(old(self)@, put_participant(rest, p@)) by {
                lemma_slots_widths(rest, true, stats, 0);
                let s4 = put_slots(rest, true, stats, 0);
                let s3 = put_col(s4, Column::Fixed(P_STATS_N), stats.len() as int);
                lemma_slots_widths(s3, false, runes, 0);
                let s2 = put_slots(s3, false, runes, 0);
                let s1 = put_col(s2, Column::Fixed(P_RUNES_N), runes.len() as int);
                assert(join(self@, rest) == join(c4, s4));
                assert(join(c4, s4) == join(c3, s3));
                assert(join(c3, s3) == join(c2, s2));
                assert(join(c2, s2) == join(c1, s1));
            }
        }
    }

    fn participants(&mut self, ps: &Vec<Participant>)
        requires
            old(self).wf(),
        ensures
            final(self).wf(),
            final(self)@.rune.len() == max(
                old(self)@.rune.len() as int,
                list_width(views(ps@), 0),
            ),
            final(self)@.stat.len() == max(
                old(self)@.stat.len() as int,
                list_width(views(ps@), 1),
            ),
            forall|rest: Streams|
                fits(final(self)@, rest) ==> #[trigger] join(final(self)@, rest) == join(
                    old(self)@,
                    put_participants(rest, views(ps@), 0),
                ),
    {
        let ghost all = views(ps@);
        let mut k: usize = 0;
        proof {
            assert(all.take(0) =~= Seq::empty());
            assert forall|i: int| 0 <= i < all.len() implies has_shape(
                #[trigger] all[i],
                participant_shape(),
            ) by {
                ps@[i].lemma_shape();
            }
        }
        while k < ps.len()
            invariant
                self.wf(),
                k <= ps@.len(),
                all == views(ps@),
                forall|i: int|
                    0 <= i < all.len() ==> has_shape(#[trigger] all[i], participant_shape()),
                self@.rune.len() == max(
                    old(self)@.rune.len() as int,
                    list_width(all.take(k as int), 0),
                ),
                self@.stat.len() == max(
                    old(self)@.stat.len() as int,
                    list_width(all.take(k as int), 1),
                ),
                forall|rest: Streams|
                    fits(self@, rest) && has_slots(rest, all) ==> join(
                        self@,
                        #[trigger] put_participants(rest, all, k as int),
                    ) == join(old(self)@, put_participants(rest, all, 0)),
            decreases ps@.len() - k,
        {
            let ghost before = self@;
            self.participant(&ps[k]);
            proof {
                assert(all.take(k + 1).drop_last() =~= all.take(k as int));
                assert(all.take(k + 1).last() == ps@[k as int]@);
                assert forall|rest: Streams| fits(self@, rest) && has_slots(
                    rest,
                    all,
                ) implies join(self@, #[trigger] put_participants(rest, all, k + 1)) == join(
                    old(self)@,
                    put_participants(rest, all, 0),
                ) by {
                    lemma_put_participants(rest, all, k + 1);
                    let more = put_participants(rest, all, k + 1);
                    assert(join(self@, more) == join(
                        before,
                        put_participants(rest, all, k as int),
                    ));
                }
            }
            k = k + 1;
        }
        proof {
            assert(all.take(k as int) =~= all);
            assert forall|rest: Streams| fits(self@, rest) implies #[trigger] join(self@, rest)
                == join(old(self)@, put_participants(rest, all, 0)) by {
                assert forall|i: int| 0 <= i < all.len() implies (#[trigger] all[i]).lists[0].len()
                    <= rest.rune.len() && all[i].lists[1].len() <= rest.stat.len() by {
                    lemma_list_width(all, 0, i);
                    lemma_list_width(all, 1, i);
                }
                assert(put_participants(rest, all, k as int) == rest);
            }
        }
    }

    /// Appends one series of a frame against the same series of the one before.
    fn series(&mut self, count: usize, prev: &Vec<u32>, list: &Vec<u32>)
        requires
            old(self).wf(),
            count + 1 < NMISC,
        ensures
            final(self).wf(),
            final(self)@.stat == old(self)@.stat,
            final(self)@.rune == old(self)@.rune,
            forall|rest: Streams|
                fits(final(self)@, rest) ==> #[trigger] join(final(self)@, rest) == join(
                    old(self)@,
                    put_col(
                        put_series(
                            rest,
                            Column::Fixed((count + 1) as usize),
                            ints(prev@),
                            ints(list@),
                            0,
                        ),
                        Column::Fixed(count),
                        list@.len() as int,
                    ),
                ),
    {
        let ghost c = Column::Fixed((count + 1) as usize);
        let ghost was = ints(prev@);
        let ghost all = ints(list@);
        self.wv(count, list.len() as u64);
        let ghost start = self@;
        let mut k: usize = 0;
        while k < list.len()
            invariant
                self.wf(),
                k <= list@.len(),
                count + 1 < NMISC,
                c == Column::Fixed((count + 1) as usize),
                was == ints(prev@),
                all == ints(list@),
                self@.stat == start.stat,
                self@.rune == start.rune,
                forall|rest: Streams|
                    fits(self@, rest) ==> join(
                        self@,
                        #[trigger] put_series(rest, c, was, all, k as int),
                    ) == join(start, put_series(rest, c, was, all, 0)),
            decreases list@.len() - k,
        {
            let ghost before = self@;
            let p: u32 = if k < prev.len() {
                prev[k]
            } else {
                0
            };
            assert(p as int == at_or_zero(was, k as int));
            self.wv(count + 1, zigzag_i64(list[k] as i64 - p as i64));
            proof {
                assert forall|rest: Streams| fits(self@, rest) implies join(
                    self@,
                    #[trigger] put_series(rest, c, was, all, k + 1),
                ) == join(start, put_series(rest, c, was, all, 0)) by {
                    lemma_put_series(rest, c, was, all, k + 1);
                    let more = put_series(rest, c, was, all, k + 1);
                    assert(join(self@, more) == join(
                        before,
                        put_series(rest, c, was, all, k as int),
                    ));
                }
            }
            k = k + 1;
        }
        proof {
            assert forall|rest: Streams| fits(self@, rest) implies #[trigger] join(self@, rest)
                == join(
                old(self)@,
                put_col(
                    put_series(rest, c, was, all, 0),
                    Column::Fixed(count),
                    list@.len() as int,
                ),
            ) by {
                lemma_put_series(rest, c, was, all, 0);
                assert(put_series(rest, c, was, all, k as int) == rest);
                let s1 = put_series(rest, c, was, all, 0);
                assert(join(self@, rest) == join(start, s1));
            }
        }
    }

    fn frame(&mut self, prev: Option<&MinuteFrame>, frame: &MinuteFrame)
        requires
            old(self).wf(),
        ensures
            final(self).wf(),
            final(self)@.stat == old(self)@.stat,
            final(self)@.rune == old(self)@.rune,
            forall|rest: Streams|
                fits(final(self)@, rest) ==> #[trigger] join(final(self)@, rest) == join(
                    old(self)@,
                    put_col(
                        put_all_series(rest, lists_before(prev), frame@.lists, 0),
                        Column::Fixed(F_MINUTE),
                        frame@.row[0] as int,
                    ),
                ),
    {
        let none: Vec<u32> = Vec::new();
        let ghost before = lists_before(prev);
        let (gold, xp, cs, dmg) = match prev {
            Some(f) => (&f.total_gold, &f.xp, &f.cs, &f.dmg_to_champs),
            None => (&none, &none, &none, &none),
        };
        proof {
            assert(ints(none@) =~= Seq::empty());
            assert(before =~= seq![ints(gold@), ints(xp@), ints(cs@), ints(dmg@)]);
        }
        self.wv(F_MINUTE, frame.minute as u64);
        let ghost c0 = self@;
        self.series(F_GOLD_N, gold, &frame.total_gold);
        let ghost c1 = self@;
        self.series(F_GOLD_N + 2, xp, &frame.xp);
        let ghost c2 = self@;
        self.series(F_GOLD_N + 4, cs, &frame.cs);
        let ghost c3 = self@;
        self.series(F_GOLD_N + 6, dmg, &frame.dmg_to_champs);
        proof {
            let lists = frame@.lists;
            assert forall|rest: Streams| fits(self@, rest) implies #[trigger] join(self@, rest)
                == join(
                old(self)@,
                put_col(
                    put_all_series(rest, before, lists, 0),
                    Column::Fixed(F_MINUTE),
                    frame@.row[0] as int,
                ),
            ) by {
                assert forall|j: int| 0 <= j < 4 implies small(#[trigger] before[j]) by {}
                assert forall|j: int| 0 <= j < 4 implies small(#[trigger] lists[j]) by {}
                assert forall|j: int| 0 <= j < 4 implies (#[trigger] lists[j]).len()
                    <= usize::MAX by {
                    assert(frame.total_gold.len() == lists[0].len());
                    assert(frame.xp.len() == lists[1].len());
                    assert(frame.cs.len() == lists[2].len());
                    assert(frame.dmg_to_champs.len() == lists[3].len());
                }
                lemma_put_all_series(rest, before, lists, 4);
                lemma_put_all_series(rest, before, lists, 3);
                lemma_put_all_series(rest, before, lists, 2);
                lemma_put_all_series(rest, before, lists, 1);
                lemma_put_all_series(rest, before, lists, 0);
                assert(put_all_series(rest, before, lists, 4) == rest);
                let s3 = put_all_series(rest, before, lists, 3);
                let s2 = put_all_series(rest, before, lists, 2);
                let s1 = put_all_series(rest, before, lists, 1);
                let s0 = put_all_series(rest, before, lists, 0);
                assert(join(self@, rest) == join(c3, s3));
                assert(join(c3, s3) == join(c2, s2));
                assert(join(c2, s2) == join(c1, s1));
                assert(join(c1, s1) == join(c0, s0));
            }
        }
    }
}

/// The series that a frame's are measured against.
spec fn lists_before(prev: Option<&MinuteFrame>) -> Seq<Seq<int>> {
    match prev {
        Some(f) => f@.lists,
        None => no_series(),
    }
}

impl Cols {
    fn frames(&mut self, frames: &Vec<MinuteFrame>)
        requires
            old(self).wf(),
        ensures
            final(self).wf(),
            final(self)@.stat == old(self)@.stat,
            final(self)@.rune == old(self)@.rune,
            forall|rest: Streams|
                fits(final(self)@, rest) ==> #[trigger] join(final(self)@, rest) == join(
                    old(self)@,
                    put_frames(rest, no_series(), views(frames@), 0),
                ),
    {
        let ghost all = views(frames@);
        let ghost mut before_lists = no_series();
        let mut k: usize = 0;
        proof {
            assert(frames.len() == frames@.len());
            lemma_flats_ok(frames@);
        }
        while k < frames.len()
            invariant
                self.wf(),
                k <= frames@.len(),
                all == views(frames@),
                flats_sized(all),
                forall|i: int|
                    0 <= i < all.len() ==> has_shape(#[trigger] all[i], timeline_shape(1)),
                before_lists == (if k == 0 {
                    no_series()
                } else {
                    all[k - 1].lists
                }),
                self@.stat == old(self)@.stat,
                self@.rune == old(self)@.rune,
                forall|rest: Streams|
                    fits(self@, rest) ==> join(
                        self@,
                        #[trigger] put_frames(rest, before_lists, all, k as int),
                    ) == join(old(self)@, put_frames(rest, no_series(), all, 0)),
            decreases frames@.len() - k,
        {
            let ghost before = self@;
            let ghost next = all[k as int].lists;
            let prev = if k == 0 {
                None
            } else {
                Some(&frames[k - 1])
            };
            self.frame(prev, &frames[k]);
            proof {
                lemma_frame_small(all[k as int]);
                assert forall|rest: Streams| fits(self@, rest) implies join(
                    self@,
                    #[trigger] put_frames(rest, next, all, k + 1),
                ) == join(old(self)@, put_frames(rest, no_series(), all, 0)) by {
                    lemma_put_frames(rest, next, all, k + 1);
                    let more = put_frames(rest, next, all, k + 1);
                    assert(lists_before(prev) == before_lists);
                    assert(join(self@, more) == join(
                        before,
                        put_frames(rest, before_lists, all, k as int),
                    ));
                }
                before_lists = next;
            }
            k = k + 1;
        }
        proof {
            assert forall|rest: Streams| fits(self@, rest) implies #[trigger] join(self@, rest)
                == join(old(self)@, put_frames(rest, no_series(), all, 0)) by {
                assert(put_frames(rest, before_lists, all, k as int) == rest);
            }
        }
    }

    /// Appends one event: its time against `prev`, its other fields as they are.
    fn event(&mut self, base: usize, row: &Vec<u32>, prev: u32)
        requires
            old(self).wf(),
            row@.len() >= 1,
            base + row@.len() <= NMISC,
        ensures
            final(self).wf(),
            final(self)@.stat == old(self)@.stat,
            final(self)@.rune == old(self)@.rune,
            forall|rest: Streams|
                fits(final(self)@, rest) ==> #[trigger] join(final(self)@, rest) == join(
                    old(self)@,
                    put_col(
                        put_row(rest, row@.skip(1), base + 1, 0),
                        Column::Fixed(base),
                        zigzag(row@[0] - prev),
                    ),
                ),
    {
        self.wv(base, zigzag_i64(row[0] as i64 - prev as i64));
        let ghost mid = self@;
        let tail = vstd::slice::slice_subrange(row.as_slice(), 1, row.len());
        assert(tail@ =~= row@.skip(1));
        self.row(tail, base + 1);
        proof {
            assert forall|rest: Streams| fits(self@, rest) implies #[trigger] join(self@, rest)
                == join(
                old(self)@,
                put_col(
                    put_row(rest, row@.skip(1), base + 1, 0),
                    Column::Fixed(base),
                    zigzag(row@[0] - prev),
                ),
            ) by {
                lemma_row_widths(rest, row@.skip(1), base + 1, 0);
                let s1 = put_row(rest, row@.skip(1), base + 1, 0);
                assert(join(self@, rest) == join(mid, s1));
            }
        }
    }

    fn events<M: Flat>(&mut self, count: usize, base: usize, scalars: usize, items: &Vec<M>)
        requires
            old(self).wf(),
            count < NMISC,
            scalars >= 1,
            base + scalars <= NMISC,
            M::shape() == (Shape { scalars: scalars as int, signed: Seq::empty() }),
        ensures
            final(self).wf(),
            final(self)@.stat == old(self)@.stat,
            final(self)@.rune == old(self)@.rune,
            forall|rest: Streams|
                fits(final(self)@, rest) ==> #[trigger] join(final(self)@, rest) == join(
                    old(self)@,
                    put_event_list(rest, count, base, views(items@)),
                ),
    {
        let ghost all = views(items@);
        let ghost b = base as int;
        self.wv(count, items.len() as u64);
        let ghost start = self@;
        let mut prev: u32 = 0;
        let mut k: usize = 0;
        proof {
            assert forall|i: int| 0 <= i < all.len() implies (#[trigger] all[i]).row.len()
                == scalars && all[i].lists.len() == 0 by {
                items@[i].lemma_shape();
            }
        }
        while k < items.len()
            invariant
                self.wf(),
                k <= items@.len(),
                scalars >= 1,
                base + scalars <= NMISC,
                b == base,
                all == views(items@),
                forall|i: int|
                    0 <= i < all.len() ==> (#[trigger] all[i]).row.len() == scalars
                        && all[i].lists.len() == 0,
                self@.stat == start.stat,
                self@.rune == start.rune,
                forall|rest: Streams|
                    fits(self@, rest) ==> join(
                        self@,
                        #[trigger] put_events(rest, prev as int, b, all, k as int),
                    ) == join(start, put_events(rest, 0, b, all, 0)),
            decreases items@.len() - k,
        {
            let ghost before = self@;
            let row = items[k].row();
            assert(row@ == all[k as int].row);
            self.event(base, &row, prev);
            let t: u32 = row[0];
            proof {
                assert forall|rest: Streams| fits(self@, rest) implies join(
                    self@,
                    #[trigger] put_events(rest, t as int, b, all, k + 1),
                ) == join(start, put_events(rest, 0, b, all, 0)) by {
                    lemma_put_events(rest, t as int, b, scalars as int, all, k + 1);
                    let more = put_events(rest, t as int, b, all, k + 1);
                    assert(join(self@, more) == join(
                        before,
                        put_events(rest, prev as int, b, all, k as int),
                    ));
                }
            }
            prev = t;
            k = k + 1;
        }
        proof {
            assert forall|rest: Streams| fits(self@, rest) implies #[trigger] join(self@, rest)
                == join(old(self)@, put_event_list(rest, count, base, all)) by {
                lemma_put_events(rest, 0, b, scalars as int, all, 0);
                assert(put_events(rest, prev as int, b, all, k as int) == rest);
                let s1 = put_events(rest, 0, b, all, 0);
                assert(join(self@, rest) == join(start, s1));
            }
        }
    }

    fn timeline(&mut self, t: &TimelineLite)
        requires
            old(self).wf(),
        ensures
            final(self).wf(),
            final(self)@.stat == old(self)@.stat,
            final(self)@.rune == old(self)@.rune,
            forall|rest: Streams|
                fits(final(self)@, rest) ==> #[trigger] join(final(self)@, rest) == join(
                    old(self)@,
                    put_timeline(rest, t@),
                ),
    {
        self.wv(NFRAMES, t.frames.len() as u64);
        let ghost c1 = self@;
        self.frames(&t.frames);
        let ghost c2 = self@;
        self.events(NKILLS, K_T, 6, &t.kills);
        let ghost c3 = self@;
        self.events(NOBJS, O_T, 5, &t.objectives);
        let ghost c4 = self@;
        self.events(NWARDS, W_T, 3, &t.wards);
        proof {
            lemma_timeline_sized(*t);
            assert forall|rest: Streams| fits(self@, rest) implies #[trigger] join(self@, rest)
                == join(old(self)@, put_timeline(rest, t@)) by {
                assert forall|k: int, i: int| 0 <= k < 4 && 0 <= i < t@[k].len() implies has_shape(
                    #[trigger] t@[k][i],
                    timeline_shape(k + 1),
                ) by {}
                assert(flats_sized(t@[0]) && flats_sized(t@[1]) && flats_sized(t@[2])
                    && flats_sized(t@[3]));
                let s4 = put_event_list(rest, NWARDS, W_T, t@[3]);
                lemma_put_event_list(rest, NWARDS, W_T, 3, t@[3]);
                let s3 = put_event_list(s4, NOBJS, O_T, t@[2]);
                lemma_put_event_list(s4, NOBJS, O_T, 5, t@[2]);
                let s2 = put_event_list(s3, NKILLS, K_T, t@[1]);
                lemma_put_event_list(s3, NKILLS, K_T, 6, t@[1]);
                let s1 = put_frames(s2, no_series(), t@[0], 0);
                lemma_put_frames(s2, no_series(), t@[0], 0);
                assert(join(self@, rest) == join(c4, s4));
                assert(join(c4, s4) == join(c3, s3));
                assert(join(c3, s3) == join(c2, s2));
                assert(join(c2, s2) == join(c1, s1));
            }
        }
    }
}

proof fn lemma_flats_ok(frames: Seq<MinuteFrame>)
    requires
        frames.len() <= usize::MAX,
    ensures
        flats_sized(views(frames)),
        forall|i: int|
            0 <= i < frames.len() ==> has_shape(#[trigger] views(frames)[i], timeline_shape(1)),
{
    assert forall|i: int| 0 <= i < frames.len() implies has_shape(
        #[trigger] views(frames)[i],
        timeline_shape(1),
    ) && flat_sized(views(frames)[i]) by {
        let f = frames[i];
        f.lemma_shape();
        assert(f.total_gold.len() == f@.lists[0].len());
        assert(f.xp.len() == f@.lists[1].len());
        assert(f.cs.len() == f@.lists[2].len());
        assert(f.dmg_to_champs.len() == f@.lists[3].len());
        assert forall|k: int| 0 <= k < f@.lists.len() implies (#[trigger] f@.lists[k]).len()
            <= usize::MAX by {
            assert(k == 0 || k == 1 || k == 2 || k == 3);
        }
    }
}

/// Every timeline's lengths are machine integers.
pub proof fn lemma_timeline_sized(t: TimelineLite)
    ensures
        timeline_sized(t@),
{
    assert(t.frames.len() == t@[0].len());
    assert(t.kills.len() == t@[1].len());
    assert(t.objectives.len() == t@[2].len());
    assert(t.wards.len() == t@[3].len());
    lemma_flats_ok(t.frames@);
    assert forall|k: int, i: int| #![trigger t@[k][i]]
        0 <= k < 4 && 0 <= i < t@[k].len() implies has_shape(t@[k][i], timeline_shape(k + 1)) by {
        if k == 1 {
            t.kills@[i].lemma_shape();
        } else if k == 2 {
            t.objectives@[i].lemma_shape();
        } else if k == 3 {
            t.wards@[i].lemma_shape();
        }
    }
    assert forall|k: int| 0 <= k < t@.len() implies flats_sized(#[trigger] t@[k]) by {
        assert forall|i: int| 0 <= i < t@[k].len() implies flat_sized(#[trigger] t@[k][i]) by {
            if k > 0 {
                assert(has_shape(t@[k][i], timeline_shape(k + 1)));
            }
        }
    }
}

/// Every match record's lengths are machine integers.
pub proof fn lemma_record_sized(r: MatchRecord)
    requires
        encode_utf8(r.platform@).len() <= usize::MAX,
        encode_utf8(r.game_version@).len() <= usize::MAX,
    ensures
        record_sized(r@),
{
    assert(r.bans.len() == r@.bans.len());
    assert(r.participants.len() == r@.participants.len());
    lemma_record_valid(r);
    assert forall|i: int| 0 <= i < r@.participants.len() implies flat_sized(
        #[trigger] r@.participants[i],
    ) by {
        let p = r.participants@[i];
        assert(p.runes.len() == p@.lists[0].len());
        assert(p.stats.len() == p@.lists[1].len());
        assert forall|k: int| 0 <= k < p@.lists.len() implies (#[trigger] p@.lists[k]).len()
            <= usize::MAX by {
            assert(k == 0 || k == 1);
        }
    }
    match r.timeline {
        Some(t) => lemma_timeline_sized(t),
        None => {},
    }
}

impl Cols {
    fn head_tail(&mut self, r: &MatchRecord)
        requires
            old(self).wf(),
        ensures
            final(self).wf(),
            final(self)@.stat == old(self)@.stat,
            final(self)@.rune == old(self)@.rune,
            forall|rest: Streams|
                fits(final(self)@, rest) ==> #[trigger] join(final(self)@, rest) == join(
                    old(self)@,
                    put_head_tail(rest, r@),
                ),
    {
        let version = r.game_version.as_str().as_bytes();
        self.wv(DUR, r.duration_s as u64);
        let ghost c1 = self@;
        self.wv(
            BLUE,
            if r.blue_won {
                1
            } else {
                0
            },
        );
        let ghost c2 = self@;
        self.text(GV_LEN, GV, version);
        let ghost c3 = self@;
        let patch: [u32; 2] = [r.patch_major, r.patch_minor];
        assert(patch@ =~= seq![r.patch_major, r.patch_minor]);
        self.row(patch.as_slice(), PMAJ);
        proof {
            let won: int = if r.blue_won {
                1
            } else {
                0
            };
            assert forall|rest: Streams| fits(self@, rest) implies #[trigger] join(self@, rest)
                == join(old(self)@, put_head_tail(rest, r@)) by {
                lemma_row_widths(rest, patch@, PMAJ as int, 0);
                let s3 = put_row(rest, patch@, PMAJ as int, 0);
                let s2 = put_text(s3, GV_LEN, GV, r@.game_version);
                let s1 = put_col(s2, Column::Fixed(BLUE), won);
                assert(join(self@, rest) == join(c3, s3));
                assert(join(c3, s3) == join(c2, s2));
                assert(join(c2, s2) == join(c1, s1));
            }
        }
    }

    fn head(&mut self, r: &MatchRecord, gid_d: i64, start_d: i64)
        requires
            old(self).wf(),
        ensures
            final(self).wf(),
            final(self)@.stat == old(self)@.stat,
            final(self)@.rune == old(self)@.rune,
            forall|rest: Streams|
                fits(final(self)@, rest) ==> #[trigger] join(final(self)@, rest) == join(
                    old(self)@,
                    put_head(rest, r@, r.game_id - gid_d, r.game_start_ms - start_d),
                ),
    {
        let platform = r.platform.as_str().as_bytes();
        self.wv(SCHEMA, r.schema_version as u64);
        let ghost c1 = self@;
        self.wv(GID_D, zigzag_i64(gid_d));
        let ghost c2 = self@;
        self.text(PLAT_LEN, PLAT, platform);
        let ghost c3 = self@;
        self.wv(QUEUE, r.queue_id as u64);
        let ghost c4 = self@;
        self.wv(START_D, zigzag_i64(start_d));
        let ghost c5 = self@;
        self.head_tail(r);
        proof {
            assert forall|rest: Streams| fits(self@, rest) implies #[trigger] join(self@, rest)
                == join(
                old(self)@,
                put_head(rest, r@, r.game_id - gid_d, r.game_start_ms - start_d),
            ) by {
                lemma_row_widths(rest, seq![r.patch_major, r.patch_minor], PMAJ as int, 0);
                let s5 = put_head_tail(rest, r@);
                let s4 = put_col(s5, Column::Fixed(START_D), zigzag(start_d as int));
                let s3 = put_col(s4, Column::Fixed(QUEUE), r.queue_id as int);
                let s2 = put_text(s3, PLAT_LEN, PLAT, r@.platform);
                let s1 = put_col(s2, Column::Fixed(GID_D), zigzag(gid_d as int));
                assert(join(self@, rest) == join(c5, s5));
                assert(join(c5, s5) == join(c4, s4));
                assert(join(c4, s4) == join(c3, s3));
                assert(join(c3, s3) == join(c2, s2));
                assert(join(c2, s2) == join(c1, s1));
            }
        }
    }

    fn optional_timeline(&mut self, t: &Option<TimelineLite>)
        requires
            old(self).wf(),
        ensures
            final(self).wf(),
            final(self)@.stat == old(self)@.stat,
            final(self)@.rune == old(self)@.rune,
            forall|rest: Streams|
                fits(final(self)@, rest) ==> #[trigger] join(final(self)@, rest) == join(
                    old(self)@,
                    put_optional_timeline(
                        rest,
                        match *t {
                            Some(t) => Some(t@),
                            None => None,
                        },
                    ),
                ),
    {
        match t {
            Some(t) => {
                self.wv(TL_PRESENT, 1);
                let ghost c1 = self@;
                self.timeline(t);
                proof {
                    lemma_timeline_sized(*t);
                    assert forall|rest: Streams| fits(self@, rest) implies #[trigger] join(
                        self@,
                        rest,
                    ) == join(old(self)@, put_optional_timeline(rest, Some(t@))) by {
                        lemma_put_timeline(rest, t@);
                        let s1 = put_timeline(rest, t@);
                        assert(join(self@, rest) == join(c1, s1));
                    }
                }
            },
            None => {
                self.wv(TL_PRESENT, 0);
            },
        }
    }

    /// Appends a record, given how far its game id and start time are from
    /// those of the record before.
    fn record(&mut self, r: &MatchRecord, gid_d: i64, start_d: i64)
        requires
            old(self).wf(),
        ensures
            final(self).wf(),
            final(self)@.rune.len() == max(
                old(self)@.rune.len() as int,
                list_width(r@.participants, 0),
            ),
            final(self)@.stat.len() == max(
                old(self)@.stat.len() as int,
                list_width(r@.participants, 1),
            ),
            forall|rest: Streams|
                fits(final(self)@, rest) ==> #[trigger] join(final(self)@, rest) == join(
                    old(self)@,
                    put_record(rest, r@, r.game_id - gid_d, r.game_start_ms - start_d),
                ),
    {
        self.head(r, gid_d, start_d);
        let ghost c1 = self@;
        self.wv(NPARTS, r.participants.len() as u64);
        let ghost c2 = self@;
        self.participants(&r.participants);
        let ghost c3 = self@;
        self.optional_timeline(&r.timeline);
        let ghost c4 = self@;
        self.wv(BANS_N, r.bans.len() as u64);
        let ghost c5 = self@;
        self.list(BANS, &r.bans);
        proof {
            let all = r@.participants;
            match &r.timeline {
                Some(t) => lemma_timeline_sized(*t),
                None => {},
            }
            lemma_record_valid(*r);
            assert forall|rest: Streams| fits(self@, rest) implies #[trigger] join(self@, rest)
                == join(
                old(self)@,
                put_record(rest, r@, r.game_id - gid_d, r.game_start_ms - start_d),
            ) by {
                lemma_list_widths(rest, Column::Fixed(BANS), r@.bans, 0);
                let s5 = put_list(rest, Column::Fixed(BANS), r@.bans, 0);
                let s4 = put_col(s5, Column::Fixed(BANS_N), r@.bans.len() as int);
                lemma_put_optional_timeline(s4, r@.timeline);
                let s3 = put_optional_timeline(s4, r@.timeline);
                assert forall|i: int| 0 <= i < all.len() implies (#[trigger] all[i]).lists[0].len()
                    <= s3.rune.len() && all[i].lists[1].len() <= s3.stat.len() by {
                    lemma_list_width(all, 0, i);
                    lemma_list_width(all, 1, i);
                }
                lemma_put_participants(s3, all, 0);
                let s2 = put_participants(s3, all, 0);
                let s1 = put_col(s2, Column::Fixed(NPARTS), all.len() as int);
                assert(join(self@, rest) == join(c5, s5));
                assert(join(c5, s5) == join(c4, s4));
                assert(join(c4, s4) == join(c3, s3));
                assert(join(c3, s3) == join(c2, s2));
                assert(join(c2, s2) == join(c1, s1));
            }
        }
    }
}

/// What the first record of a block would be measured against after `rs`.
pub open spec fn last_id(rs: Seq<RecordV>, game_id: int) -> int {
    if rs.len() == 0 {
        game_id
    } else {
        rs.last().game_id as int
    }
}

pub open spec fn last_start(rs: Seq<RecordV>, start: int) -> int {
    if rs.len() == 0 {
        start
    } else {
        rs.last().game_start_ms as int
    }
}

proof fn lemma_put_records_push(
    rest: Streams,
    rs: Seq<RecordV>,
    r: RecordV,
    game_id: int,
    start: int,
    k: int,
)
    requires
        0 <= k <= rs.len(),
        k > 0 ==> game_id == rs[k - 1].game_id && start == rs[k - 1].game_start_ms,
    ensures
        ({
            let (g, t) = if k == rs.len() {
                (game_id, start)
            } else {
                (last_id(rs, game_id), last_start(rs, start))
            };
            put_records(rest, rs.push(r), game_id, start, k) == put_records(
                put_record(rest, r, g, t),
                rs,
                game_id,
                start,
                k,
            )
        }),
    decreases rs.len() - k,
{
    reveal_with_fuel(put_records, 2);
    let all = rs.push(r);
    if k < rs.len() {
        assert(all[k] == rs[k]);
        lemma_put_records_push(
            rest,
            rs,
            r,
            rs[k].game_id as int,
            rs[k].game_start_ms as int,
            k + 1,
        );
    } else {
        assert(all[k] == r);
    }
}

proof fn lemma_deltas_push(rs: Seq<RecordV>, r: RecordV, game_id: int, start: int, k: int)
    requires
        0 <= k <= rs.len(),
        k > 0 ==> game_id == rs[k - 1].game_id && start == rs[k - 1].game_start_ms,
        all_deltas_fit(rs, game_id, start, k),
        ({
            let (g, t) = if k == rs.len() {
                (game_id, start)
            } else {
                (last_id(rs, game_id), last_start(rs, start))
            };
            deltas_fit(r, g, t)
        }),
    ensures
        all_deltas_fit(rs.push(r), game_id, start, k),
    decreases rs.len() - k,
{
    reveal_with_fuel(all_deltas_fit, 2);
    let all = rs.push(r);
    if k < rs.len() {
        assert(all[k] == rs[k]);
        lemma_deltas_push(rs, r, rs[k].game_id as int, rs[k].game_start_ms as int, k + 1);
    } else {
        assert(all[k] == r);
    }
}

/// The inputs from `k` on as records, or the first of them that cannot be taken.
pub open spec fn input_records(
    inputs: Seq<Seq<u8>>,
    game_id: int,
    start: int,
    k: int,
) -> Result<Seq<RecordV>, EncodeError>
    decreases inputs.len() - k,
{
    if k < 0 || k >= inputs.len() {
        Ok(Seq::empty())
    } else {
        match record_decoded(inputs[k]) {
            None => Err(EncodeError::Undecodable { record: k as usize }),
            Some(r) => if !(i64::MIN <= r.game_id - game_id <= i64::MAX) {
                Err(EncodeError::GameIdDelta { record: k as usize })
            } else if !(i64::MIN <= r.game_start_ms - start <= i64::MAX) {
                Err(EncodeError::StartDelta { record: k as usize })
            } else {
                match input_records(inputs, r.game_id as int, r.game_start_ms as int, k + 1) {
                    Ok(more) => Ok(seq![r] + more),
                    Err(e) => Err(e),
                }
            },
        }
    }
}

/// Where two byte strings first differ; a proper prefix differs at its end.
pub open spec fn first_diff(a: Seq<u8>, b: Seq<u8>, i: int) -> int
    decreases a.len() - i,
{
    if 0 <= i < a.len() && i < b.len() && a[i] == b[i] {
        first_diff(a, b, i + 1)
    } else {
        i
    }
}

/// The first input from `k` on that differs from what the block would give back.
pub open spec fn first_mismatch(
    inputs: Seq<Seq<u8>>,
    decoded: Seq<Seq<u8>>,
    k: int,
) -> Option<EncodeError>
    decreases inputs.len() - k,
{
    if k < 0 || k >= inputs.len() {
        None
    } else if inputs[k] != decoded[k] {
        Some(
            EncodeError::Mismatch {
                record: k as usize,
                input: inputs[k].len() as usize,
                decoded: decoded[k].len() as usize,
                first_diff: first_diff(inputs[k], decoded[k], 0) as usize,
            },
        )
    } else {
        first_mismatch(inputs, decoded, k + 1)
    }
}

/// The payload for inputs, or why they are refused.
#[verifier::opaque]
pub open spec fn block_encoded(inputs: Seq<Seq<u8>>) -> Result<Seq<u8>, EncodeError> {
    match input_records(inputs, 0, 0, 0) {
        Err(e) => Err(e),
        Ok(rs) => match first_mismatch(inputs, encodings(rs), 0) {
            Some(e) => Err(e),
            None => Ok(block_payload(rs)),
        },
    }
}

fn write_columns(out: &mut Vec<u8>, cols: &Vec<Vec<u8>>)
    ensures
        final(out)@ == old(out)@ + concat(byte_strings(cols@)),
{
    let ghost all = byte_strings(cols@);
    let mut i: usize = 0;
    proof {
        assert(all.skip(0) =~= all);
        assert(out@ + concat(all) =~= old(out)@ + concat(all));
    }
    while i < cols.len()
        invariant
            i <= cols@.len(),
            all == byte_strings(cols@),
            out@ + concat(all.skip(i as int)) == old(out)@ + concat(all),
        decreases cols@.len() - i,
    {
        let ghost before = out@;
        push_all(out, cols[i].as_slice());
        proof {
            assert(all.skip(i as int).skip(1) =~= all.skip(i + 1));
            assert(before + concat(all.skip(i as int)) =~= out@ + concat(all.skip(i + 1)));
        }
        i = i + 1;
    }
    proof {
        assert(all.skip(i as int) =~= Seq::empty());
        assert(out@ + concat(all.skip(i as int)) =~= out@);
    }
}

fn write_lengths(out: &mut Vec<u8>, cols: &Vec<Vec<u8>>)
    ensures
        final(out)@ == old(out)@ + varints(lengths(byte_strings(cols@))),
{
    let ghost all = lengths(byte_strings(cols@));
    let mut i: usize = 0;
    proof {
        assert(all.skip(0) =~= all);
        assert(out@ + varints(all) =~= old(out)@ + varints(all));
    }
    while i < cols.len()
        invariant
            i <= cols@.len(),
            all == lengths(byte_strings(cols@)),
            out@ + varints(all.skip(i as int)) == old(out)@ + varints(all),
        decreases cols@.len() - i,
    {
        let ghost before = out@;
        write_varint(out, cols[i].len() as u64);
        proof {
            assert(all.skip(i as int).skip(1) =~= all.skip(i + 1));
            assert(before + varints(all.skip(i as int)) =~= out@ + varints(all.skip(i + 1)));
        }
        i = i + 1;
    }
    proof {
        assert(all.skip(i as int) =~= Seq::empty());
        assert(out@ + varints(all.skip(i as int)) =~= out@);
    }
}

proof fn lemma_varints_append(a: Seq<int>, b: Seq<int>)
    ensures
        varints(a + b) == varints(a) + varints(b),
    decreases a.len(),
{
    if a.len() == 0 {
        assert(a + b =~= b);
        assert(varints(a) + varints(b) =~= varints(b));
    } else {
        assert((a + b).skip(1) =~= a.skip(1) + b);
        lemma_varints_append(a.skip(1), b);
        assert(varints(a + b) =~= varints(a) + varints(b));
    }
}

proof fn lemma_concat_append(a: Seq<Seq<u8>>, b: Seq<Seq<u8>>)
    ensures
        concat(a + b) == concat(a) + concat(b),
    decreases a.len(),
{
    if a.len() == 0 {
        assert(a + b =~= b);
        assert(concat(a) + concat(b) =~= concat(b));
    } else {
        assert((a + b).skip(1) =~= a.skip(1) + b);
        lemma_concat_append(a.skip(1), b);
        assert(concat(a + b) =~= concat(a) + concat(b));
    }
}

fn encode_payload(records: usize, cols: &Cols) -> (out: Vec<u8>)
    ensures
        out@ == payload_of(records as int, cols@),
{
    let mut out: Vec<u8> = vec![76, 67, 79, 76, VERSION];
    assert(out@ =~= preamble());
    write_varint(&mut out, records as u64);
    write_varint(&mut out, cols.stat.len() as u64);
    write_varint(&mut out, cols.rune.len() as u64);
    let ghost head = out@;
    write_lengths(&mut out, &cols.fixed);
    write_lengths(&mut out, &cols.stat);
    write_lengths(&mut out, &cols.rune);
    let ghost mid = out@;
    write_columns(&mut out, &cols.fixed);
    write_columns(&mut out, &cols.stat);
    write_columns(&mut out, &cols.rune);
    proof {
        let s = cols@;
        let lf = lengths(s.fixed);
        let ls = lengths(s.stat);
        let lr = lengths(s.rune);
        assert(lengths(all_columns(s)) =~= lf + ls + lr);
        lemma_varints_append(lf + ls, lr);
        lemma_varints_append(lf, ls);
        assert(mid =~= head + varints(lf + ls + lr));
        lemma_concat_append(s.fixed + s.stat, s.rune);
        lemma_concat_append(s.fixed, s.stat);
        assert(out@ =~= mid + concat(all_columns(s)));
    }
    out
}

/// Where two byte strings first differ, if they do.
fn difference(a: &[u8], b: &[u8]) -> (res: Option<usize>)
    ensures
        match res {
            Some(i) => a@ != b@ && i == first_diff(a@, b@, 0),
            None => a@ == b@,
        },
{
    let mut i: usize = 0;
    while i < a.len() && i < b.len() && a[i] == b[i]
        invariant
            i <= a@.len(),
            i <= b@.len(),
            forall|j: int| 0 <= j < i ==> a@[j] == b@[j],
            first_diff(a@, b@, 0) == first_diff(a@, b@, i as int),
        decreases a@.len() - i,
    {
        i = i + 1;
    }
    if i == a.len() && i == b.len() {
        assert(a@ =~= b@);
        return None;
    }
    proof {
        if a@ == b@ {
            assert(a@.len() == b@.len());
        }
    }
    Some(i)
}

/// The first record whose bytes are not its canonical encoding.
fn find_mismatch(records: &[Vec<u8>], canonical: &Vec<Vec<u8>>) -> (res: Option<EncodeError>)
    requires
        records@.len() == canonical@.len(),
    ensures
        res == first_mismatch(byte_strings(records@), byte_strings(canonical@), 0),
        res is None ==> byte_strings(records@) == byte_strings(canonical@),
{
    let ghost inputs = byte_strings(records@);
    let ghost decoded = byte_strings(canonical@);
    let mut i: usize = 0;
    while i < records.len()
        invariant
            i <= records@.len(),
            canonical@.len() == records@.len(),
            inputs == byte_strings(records@),
            decoded == byte_strings(canonical@),
            first_mismatch(inputs, decoded, 0) == first_mismatch(inputs, decoded, i as int),
            forall|j: int| 0 <= j < i ==> #[trigger] inputs[j] == decoded[j],
        decreases records@.len() - i,
    {
        match difference(records[i].as_slice(), canonical[i].as_slice()) {
            Some(at) => {
                return Some(
                    EncodeError::Mismatch {
                        record: i,
                        input: records[i].len(),
                        decoded: canonical[i].len(),
                        first_diff: at,
                    },
                );
            },
            None => {},
        }
        i = i + 1;
    }
    assert(inputs =~= decoded);
    None
}

/// Records whose first are known and whose others come from `more`.
spec fn after_inputs(
    first: Seq<RecordV>,
    more: Result<Seq<RecordV>, EncodeError>,
) -> Result<Seq<RecordV>, EncodeError> {
    match more {
        Ok(rs) => Ok(first + rs),
        Err(e) => Err(e),
    }
}

proof fn lemma_cols_are_block(cols: Streams, rs: Seq<RecordV>)
    requires
        cols.fixed.len() == NMISC,
        cols.stat.len() == block_width(rs, 1),
        cols.rune.len() == block_width(rs, 0),
        cols.stat.len() <= usize::MAX,
        cols.rune.len() <= usize::MAX,
        forall|rest: Streams|
            fits(cols, rest) ==> #[trigger] join(cols, rest) == join(
                empty_streams(0, 0),
                put_records(rest, rs, 0, 0, 0),
            ),
        same_widths(
            block_streams(rs),
            empty_streams(block_width(rs, 1), block_width(rs, 0)),
        ),
    ensures
        cols == block_streams(rs),
{
    let rest = empty_streams(block_width(rs, 1), block_width(rs, 0));
    let put = block_streams(rs);
    assert(fits(cols, rest));
    assert(join(cols, rest) == join(empty_streams(0, 0), put));
    let a = join(cols, rest);
    assert forall|i: int| 0 <= i < NMISC implies a.fixed[i] == cols.fixed[i] by {
        assert(cols.fixed[i] + rest.fixed[i] =~= cols.fixed[i]);
    }
    assert forall|i: int| 0 <= i < cols.stat.len() implies a.stat[i] == cols.stat[i] by {
        assert(cols.stat[i] + rest.stat[i] =~= cols.stat[i]);
    }
    assert forall|i: int| 0 <= i < cols.rune.len() implies a.rune[i] == cols.rune[i] by {
        assert(cols.rune[i] + rest.rune[i] =~= cols.rune[i]);
    }
    assert(a =~= cols);
    let b = join(empty_streams(0, 0), put);
    assert forall|i: int| 0 <= i < NMISC implies b.fixed[i] == put.fixed[i] by {
        assert(Seq::<u8>::empty() + put.fixed[i] =~= put.fixed[i]);
    }
    assert(b =~= put);
}

/// Puts records into columnar form. Each input is the encoding of one record.
///
/// The payload gives the inputs back byte for byte. An input that is not the
/// canonical encoding of a record, say because it carries unknown fields, is
/// refused, for the block could not give it back.
pub fn encode_block(records: &[Vec<u8>]) -> (res: Result<Vec<u8>, EncodeError>)
    ensures
        match block_encoded(byte_strings(records@)) {
            Ok(payload) => res is Ok && (res->Ok_0)@ == payload,
            Err(e) => res == Err::<Vec<u8>, EncodeError>(e),
        },
        res matches Ok(payload) ==> {
            &&& block_records(payload@) is Ok
            &&& encodings(block_records(payload@)->Ok_0) == byte_strings(records@)
        },
{
    let ghost inputs = byte_strings(records@);
    let ghost mut done: Seq<RecordV> = Seq::empty();
    let mut cols = Cols::new();
    let mut canonical: Vec<Vec<u8>> = Vec::new();
    let mut game_id: u64 = 0;
    let mut game_start_ms: i64 = 0;
    let mut k: usize = 0;
    proof {
        reveal(block_encoded);
        match input_records(inputs, 0, 0, 0) {
            Ok(rs) => {
                assert(done + rs =~= rs);
            },
            Err(_) => {},
        }
        assert(byte_strings(canonical@) =~= encodings(done));
        assert forall|rest: Streams| fits(cols@, rest) implies #[trigger] join(cols@, rest)
            == join(empty_streams(0, 0), put_records(rest, done, 0, 0, 0)) by {
            assert(put_records(rest, done, 0, 0, 0) == rest);
        }
    }
    while k < records.len()
        invariant
            cols.wf(),
            k <= records@.len(),
            inputs == byte_strings(records@),
            done.len() == k,
            game_id == last_id(done, 0),
            game_start_ms == last_start(done, 0),
            records_sized(done),
            all_deltas_fit(done, 0, 0, 0),
            byte_strings(canonical@) == encodings(done),
            cols@.stat.len() == block_width(done, 1),
            cols@.rune.len() == block_width(done, 0),
            forall|rest: Streams|
                fits(cols@, rest) ==> #[trigger] join(cols@, rest) == join(
                    empty_streams(0, 0),
                    put_records(rest, done, 0, 0, 0),
                ),
            input_records(inputs, 0, 0, 0) == after_inputs(
                done,
                input_records(inputs, game_id as int, game_start_ms as int, k as int),
            ),
        decreases records@.len() - k,
    {
        proof {
            reveal(block_encoded);
            assert(inputs[k as int] == records@[k as int]@);
        }
        let record = match MatchRecord::decode(records[k].as_slice()) {
            Some(r) => r,
            None => {
                return Err(EncodeError::Undecodable { record: k });
            },
        };
        let gid_d: i128 = record.game_id as i128 - game_id as i128;
        if gid_d < i64::MIN as i128 || gid_d > i64::MAX as i128 {
            return Err(EncodeError::GameIdDelta { record: k });
        }
        let start_d: i128 = record.game_start_ms as i128 - game_start_ms as i128;
        if start_d < i64::MIN as i128 || start_d > i64::MAX as i128 {
            return Err(EncodeError::StartDelta { record: k });
        }
        let ghost before = cols@;
        let ghost r = record@;
        let ghost next = done.push(r);
        let platform_len: usize = record.platform.as_str().as_bytes().len();
        let version_len: usize = record.game_version.as_str().as_bytes().len();
        cols.record(&record, gid_d as i64, start_d as i64);
        let bytes = record.encode_to_vec();
        proof {
            lemma_record_sized(record);
            lemma_put_records_push(empty_streams(0, 0), done, r, 0, 0, 0);
            assert forall|rest: Streams| fits(cols@, rest) implies #[trigger] join(cols@, rest)
                == join(empty_streams(0, 0), put_records(rest, next, 0, 0, 0)) by {
                lemma_put_records_push(rest, done, r, 0, 0, 0);
                let s1 = put_record(rest, r, game_id as int, game_start_ms as int);
                lemma_record_widths(rest, record, game_id as int, game_start_ms as int);
                assert(join(cols@, rest) == join(before, s1));
            }
            lemma_deltas_push(done, r, 0, 0, 0);
            assert(next.drop_last() =~= done);
            assert(encodings(next) =~= encodings(done).push(record_bytes(r)));
            match input_records(inputs, r.game_id as int, r.game_start_ms as int, k + 1) {
                Ok(more) => {
                    assert(done + (seq![r] + more) =~= next + more);
                },
                Err(_) => {},
            }
        }
        let ghost was = canonical@;
        game_id = record.game_id;
        game_start_ms = record.game_start_ms;
        canonical.push(bytes);
        proof {
            assert(byte_strings(canonical@) =~= byte_strings(was).push(bytes@));
            done = next;
        }
        k = k + 1;
    }
    proof {
        assert(done + Seq::<RecordV>::empty() =~= done);
        assert(byte_strings(canonical@).len() == canonical@.len());
        assert(cols.stat.len() == cols@.stat.len());
        assert(cols.rune.len() == cols@.rune.len());
    }
    match find_mismatch(records, &canonical) {
        Some(e) => {
            return Err(e);
        },
        None => {},
    }
    let out = encode_payload(records.len(), &cols);
    proof {
        assert(encodings(done) =~= inputs);
        lemma_block_widths_kept(done);
        lemma_cols_are_block(cols@, done);
        assert(out.len() == out@.len());
        law_block_roundtrip(done);
    }
    Ok(out)
}

/// Putting a record in front keeps the columns that are there.
proof fn lemma_record_widths(rest: Streams, r: MatchRecord, game_id: int, start: int)
    requires
        rest.fixed.len() == NMISC,
        rest.stat.len() <= usize::MAX,
        rest.rune.len() <= usize::MAX,
        list_width(r@.participants, 0) <= rest.rune.len(),
        list_width(r@.participants, 1) <= rest.stat.len(),
        deltas_fit(r@, game_id, start),
        record_sized(r@),
    ensures
        same_widths(put_record(rest, r@, game_id, start), rest),
{
    let all = r@.participants;
    assert forall|i: int| 0 <= i < all.len() implies (#[trigger] all[i]).lists[0].len()
        <= rest.rune.len() && all[i].lists[1].len() <= rest.stat.len() by {
        lemma_list_width(all, 0, i);
        lemma_list_width(all, 1, i);
    }
    lemma_put_record(rest, r@, game_id, start);
}

proof fn lemma_block_widths_kept(rs: Seq<RecordV>)
    requires
        records_sized(rs),
        all_deltas_fit(rs, 0, 0, 0),
    ensures
        same_widths(
            block_streams(rs),
            empty_streams(block_width(rs, 1), block_width(rs, 0)),
        ),
{
    lemma_block_slots(rs);
    lemma_put_records(empty_streams(block_width(rs, 1), block_width(rs, 0)), rs, 0, 0, 0);
}

proof fn lemma_input_records(rs: Seq<RecordV>, game_id: int, start: int, k: int)
    requires
        0 <= k <= rs.len(),
        forall|i: int|
            0 <= i < rs.len() ==> record_valid(#[trigger] rs[i]) && record_bytes(rs[i]).len()
                <= u64::MAX,
        all_deltas_fit(rs, game_id, start, k),
    ensures
        input_records(encodings(rs), game_id, start, k) == Ok::<Seq<RecordV>, EncodeError>(
            rs.skip(k),
        ),
    decreases rs.len() - k,
{
    if k < rs.len() {
        let r = rs[k];
        law_record_roundtrip(r);
        lemma_input_records(rs, r.game_id as int, r.game_start_ms as int, k + 1);
        assert(seq![r] + rs.skip(k + 1) =~= rs.skip(k));
    } else {
        assert(rs.skip(k) =~= Seq::empty());
    }
}

proof fn lemma_no_mismatch(inputs: Seq<Seq<u8>>, k: int)
    ensures
        first_mismatch(inputs, inputs, k) is None,
    decreases inputs.len() - k,
{
    if 0 <= k < inputs.len() {
        lemma_no_mismatch(inputs, k + 1);
    }
}

/// Canonical encodings of records always go into a block, as long as
/// neighbouring game ids and start times are within a signed 64-bit distance.
pub proof fn law_canonical_records_are_accepted(rs: Seq<RecordV>)
    requires
        forall|i: int|
            0 <= i < rs.len() ==> record_valid(#[trigger] rs[i]) && record_bytes(rs[i]).len()
                <= u64::MAX,
        all_deltas_fit(rs, 0, 0, 0),
    ensures
        block_encoded(encodings(rs)) == Ok::<Seq<u8>, EncodeError>(block_payload(rs)),
{
    reveal(block_encoded);
    lemma_input_records(rs, 0, 0, 0);
    assert(rs.skip(0) =~= rs);
    lemma_no_mismatch(encodings(rs), 0);
}

} // verus!
