//! A look at a segment: what its records hold, added up.

use crate::columnar::byte_strings;
use crate::named::Named;
use crate::raw::sum_up;
use crate::record::{record_decoded, MatchRecord, RecordV};
use crate::registry::one_more;
use crate::sorted::{lists, name_sorted};
use crate::text::{decimal, push_decimal};
use vstd::prelude::*;
use vstd::string::StringExecFns;

verus! {

/// What the records of a segment hold.
pub struct Summary {
    pub decoded: u64,
    pub decode_errors: u64,
    pub raw_bytes: u64,
    pub with_timeline: u64,
    /// Records of each patch, in the order of the patches as texts.
    pub by_patch: Vec<(String, u64)>,
    /// The first record that could be read.
    pub sample: Option<MatchRecord>,
}

/// What some records hold, added up.
#[verifier::ext_equal]
pub struct SummaryV {
    pub decoded: u64,
    pub decode_errors: u64,
    pub raw_bytes: u64,
    pub with_timeline: u64,
    pub by_patch: Map<Seq<char>, u64>,
    pub sample: Option<RecordV>,
}

pub open spec fn patch_text(r: RecordV) -> Seq<char> {
    decimal(r.patch_major as int) + "."@ + decimal(r.patch_minor as int)
}

/// The sum with one more record.
pub open spec fn with_record(s: SummaryV, bytes: Seq<u8>) -> SummaryV {
    let t = SummaryV { raw_bytes: sum_up(s.raw_bytes, bytes.len()), ..s };
    match record_decoded(bytes) {
        None => SummaryV { decode_errors: one_more(s.decode_errors), ..t },
        Some(r) => SummaryV {
            decoded: one_more(s.decoded),
            with_timeline: if r.timeline is Some {
                one_more(s.with_timeline)
            } else {
                s.with_timeline
            },
            by_patch: s.by_patch.insert(
                patch_text(r),
                one_more(
                    if s.by_patch.contains_key(patch_text(r)) {
                        s.by_patch[patch_text(r)]
                    } else {
                        0
                    },
                ),
            ),
            sample: match s.sample {
                Some(first) => Some(first),
                None => Some(r),
            },
            ..t
        },
    }
}

/// The sum over some records.
pub open spec fn summed(records: Seq<Seq<u8>>) -> SummaryV
    decreases records.len(),
{
    if records.len() == 0 {
        SummaryV {
            decoded: 0,
            decode_errors: 0,
            raw_bytes: 0,
            with_timeline: 0,
            by_patch: Map::empty(),
            sample: None,
        }
    } else {
        with_record(summed(records.drop_last()), records.last())
    }
}

/// Adds up the records of a segment.
pub fn summarize(records: &Vec<Vec<u8>>) -> (res: Summary)
    ensures
        ({
            let s = summed(byte_strings(records@));
            &&& res.decoded == s.decoded
            &&& res.decode_errors == s.decode_errors
            &&& res.raw_bytes == s.raw_bytes
            &&& res.with_timeline == s.with_timeline
            &&& name_sorted(res.by_patch@)
            &&& forall|p: Seq<char>, n: u64| #[trigger]
                lists(res.by_patch@, p, n) <==> s.by_patch.contains_key(p) && s.by_patch[p] == n
            &&& match res.sample {
                Some(r) => s.sample == Some(r@),
                None => s.sample is None,
            }
        }),
{
    let ghost all = byte_strings(records@);
    let mut decoded: u64 = 0;
    let mut decode_errors: u64 = 0;
    let mut raw_bytes: u64 = 0;
    let mut with_timeline: u64 = 0;
    let mut by_patch: Named<u64> = Named::new();
    let mut sample: Option<MatchRecord> = None;
    let mut i: usize = 0;
    assert(all.take(0) =~= Seq::empty());
    while i < records.len()
        invariant
            all == byte_strings(records@),
            i <= records@.len(),
            by_patch.wf(),
            summed(all.take(i as int)) == (SummaryV {
                decoded,
                decode_errors,
                raw_bytes,
                with_timeline,
                by_patch: by_patch@,
                sample: match sample {
                    Some(r) => Some(r@),
                    None => None,
                },
            }),
        decreases records@.len() - i,
    {
        assert(all.take(i + 1).drop_last() =~= all.take(i as int));
        assert(all.take(i + 1).last() == records@[i as int]@);
        raw_bytes = raw_bytes.saturating_add(records[i].len() as u64);
        match MatchRecord::decode(records[i].as_slice()) {
            Some(rec) => {
                decoded = decoded.saturating_add(1);
                if rec.timeline.is_some() {
                    with_timeline = with_timeline.saturating_add(1);
                }
                let mut patch = String::new();
                push_decimal(&mut patch, rec.patch_major as u64);
                patch.append(".");
                push_decimal(&mut patch, rec.patch_minor as u64);
                assert(patch@ =~= patch_text(rec@));
                let n: u64 = match by_patch.get(patch.as_str()) {
                    Some(n) => *n,
                    None => 0,
                };
                by_patch.put(patch, n.saturating_add(1));
                if sample.is_none() {
                    sample = Some(rec);
                }
            },
            None => {
                decode_errors = decode_errors.saturating_add(1);
            },
        }
        i = i + 1;
    }
    assert(all.take(i as int) =~= all);
    Summary {
        decoded,
        decode_errors,
        raw_bytes,
        with_timeline,
        by_patch: by_patch.by_name(),
        sample,
    }
}

} // verus!
