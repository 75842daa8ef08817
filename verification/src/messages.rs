//! What is said about segments that cannot be read or rewritten.

use crate::columnar::EncodeError;
use crate::recompact::RecompactError;
use crate::segment::{BadRecord, LookupError, SegmentError, SegmentFault};
use crate::text::{decimal, push_decimal};
use vstd::prelude::*;
use vstd::string::StringExecFns;

verus! {

/// A text and a number.
pub open spec fn numbered(text: Seq<char>, n: int) -> Seq<char> {
    text + decimal(n)
}

fn say(out: &mut String, text: &str, n: u64)
    ensures
        final(out)@ == old(out)@ + numbered(text@, n as int),
{
    let ghost was = out@;
    out.append(text);
    push_decimal(out, n);
    assert(out@ =~= was + numbered(text@, n as int));
}

/// What is said about a block that cannot be read.
pub open spec fn fault_text(e: SegmentError) -> Seq<char> {
    let at = e.at as int;
    match e.fault {
        SegmentFault::TruncatedHeader => numbered("truncated segment header at "@, at),
        SegmentFault::UnknownMagic(m) => numbered("unknown segment block magic "@, m as int)
            + numbered(" at "@, at),
        SegmentFault::TruncatedBlock => numbered("truncated segment block at "@, at),
        SegmentFault::CompressedTooLarge(n) => numbered(
            "compressed segment block too large at "@,
            at,
        ) + numbered(": "@, n as int) + " bytes"@,
        SegmentFault::UncompressedTooLarge(n) => numbered(
            "uncompressed segment block too large at "@,
            at,
        ) + numbered(": "@, n as int) + " bytes"@,
        SegmentFault::CrcMismatch => numbered("crc mismatch at segment block "@, at),
        SegmentFault::BadContent => numbered("zstd decompress failed at "@, at),
        SegmentFault::TruncatedRowLength(off) => numbered(
            "truncated row record length at byte offset "@,
            off as int,
        ),
        SegmentFault::TruncatedRowBody(off) => numbered(
            "truncated row record body at byte offset "@,
            off as int,
        ),
        SegmentFault::Columnar(_) => numbered("columnar decode failed at "@, at),
        SegmentFault::TooManyRecords => "columnar block has too many records"@,
    }
}

impl SegmentError {
    pub fn message(&self) -> (res: String)
        ensures
            res@ == fault_text(*self),
    {
        let mut out = String::new();
        match self.fault {
            SegmentFault::TruncatedHeader => say(&mut out, "truncated segment header at ", self.at),
            SegmentFault::UnknownMagic(m) => {
                say(&mut out, "unknown segment block magic ", m as u64);
                say(&mut out, " at ", self.at);
            },
            SegmentFault::TruncatedBlock => say(&mut out, "truncated segment block at ", self.at),
            SegmentFault::CompressedTooLarge(n) => {
                say(&mut out, "compressed segment block too large at ", self.at);
                say(&mut out, ": ", n as u64);
                out.append(" bytes");
            },
            SegmentFault::UncompressedTooLarge(n) => {
                say(&mut out, "uncompressed segment block too large at ", self.at);
                say(&mut out, ": ", n as u64);
                out.append(" bytes");
            },
            SegmentFault::CrcMismatch => say(&mut out, "crc mismatch at segment block ", self.at),
            SegmentFault::BadContent => say(&mut out, "zstd decompress failed at ", self.at),
            SegmentFault::TruncatedRowLength(off) => say(
                &mut out,
                "truncated row record length at byte offset ",
                off as u64,
            ),
            SegmentFault::TruncatedRowBody(off) => say(
                &mut out,
                "truncated row record body at byte offset ",
                off as u64,
            ),
            SegmentFault::Columnar(_) => say(&mut out, "columnar decode failed at ", self.at),
            SegmentFault::TooManyRecords => out.append("columnar block has too many records"),
        }
        assert(out@ =~= fault_text(*self));
        out
    }
}

/// What is said about a record that is not where it is looked for.
pub open spec fn lookup_text(e: LookupError, block_off: u64) -> Seq<char> {
    match e {
        LookupError::Block(b) => fault_text(b),
        LookupError::NoSuchRow(off) => numbered("row record offset "@, off as int) + numbered(
            " not found in block "@,
            block_off as int,
        ),
        LookupError::NoSuchOrdinal(n) => numbered("columnar record ordinal "@, n as int)
            + numbered(" not found in block "@, block_off as int),
    }
}

impl LookupError {
    pub fn message(&self, block_off: u64) -> (res: String)
        ensures
            res@ == lookup_text(*self, block_off),
    {
        let mut out = String::new();
        match self {
            LookupError::Block(b) => {
                return b.message();
            },
            LookupError::NoSuchRow(off) => {
                say(&mut out, "row record offset ", *off as u64);
                say(&mut out, " not found in block ", block_off);
            },
            LookupError::NoSuchOrdinal(n) => {
                say(&mut out, "columnar record ordinal ", *n as u64);
                say(&mut out, " not found in block ", block_off);
            },
        }
        assert(out@ =~= lookup_text(*self, block_off));
        out
    }
}

/// What is said about a record that is no match record.
pub open spec fn bad_record_text(r: BadRecord) -> Seq<char> {
    numbered("decode game_id at block "@, r.block_off as int) + numbered(
        " rec_off "@,
        r.rec_off as int,
    )
}

/// What is said about records that cannot be written as columns.
pub open spec fn encode_text(e: EncodeError) -> Seq<char> {
    match e {
        EncodeError::Undecodable { record } => numbered("decode input record "@, record as int),
        EncodeError::GameIdDelta { record } => numbered(
            "game_id delta out of range at record "@,
            record as int,
        ),
        EncodeError::StartDelta { record } => numbered(
            "game_start_ms delta out of range at record "@,
            record as int,
        ),
        EncodeError::Mismatch { record, input, decoded, first_diff } => numbered(
            "columnar self-check mismatch at record "@,
            record as int,
        ) + numbered(": input "@, input as int) + numbered(
            " bytes, decoded "@,
            decoded as int,
        ) + numbered(" bytes, first diff at "@, first_diff as int),
    }
}

impl EncodeError {
    pub fn message(&self) -> (res: String)
        ensures
            res@ == encode_text(*self),
    {
        let mut out = String::new();
        match self {
            EncodeError::Undecodable { record } => say(
                &mut out,
                "decode input record ",
                *record as u64,
            ),
            EncodeError::GameIdDelta { record } => say(
                &mut out,
                "game_id delta out of range at record ",
                *record as u64,
            ),
            EncodeError::StartDelta { record } => say(
                &mut out,
                "game_start_ms delta out of range at record ",
                *record as u64,
            ),
            EncodeError::Mismatch { record, input, decoded, first_diff } => {
                say(&mut out, "columnar self-check mismatch at record ", *record as u64);
                say(&mut out, ": input ", *input as u64);
                say(&mut out, " bytes, decoded ", *decoded as u64);
                say(&mut out, " bytes, first diff at ", *first_diff as u64);
            },
        }
        assert(out@ =~= encode_text(*self));
        out
    }
}

/// What a refusal to drop a torn tail begins with.
pub open spec fn tail_text(valid_len: u64, dropped_bytes: u64) -> Seq<char> {
    numbered("refusing to drop torn segment tail at byte "@, valid_len as int) + numbered(
        " ("@,
        dropped_bytes as int,
    ) + " bytes): "@
}

/// What is said about a segment that is not rewritten.
pub open spec fn recompact_text(e: RecompactError) -> Seq<char> {
    match e {
        RecompactError::BadRecord(r) => bad_record_text(r),
        RecompactError::TailWithMalformedIdx { valid_len, dropped_bytes } => tail_text(
            valid_len,
            dropped_bytes,
        ) + "idx is malformed"@,
        RecompactError::TailIndexed { valid_len, dropped_bytes, game_id, block_off } => tail_text(
            valid_len,
            dropped_bytes,
        ) + numbered("idx entry game_id="@, game_id as int) + numbered(
            " references block_off="@,
            block_off as int,
        ) + " at/behind the tail"@,
        RecompactError::Encode(e) => encode_text(e),
        RecompactError::Compress => "compress columnar block"@,
        RecompactError::BlockTooLarge => "block exceeds u32"@,
        RecompactError::VerifyTorn =>
        "rewritten segment ended with an invalid/truncated tail"@,
        RecompactError::VerifyBadRecord(r) => bad_record_text(r),
        RecompactError::VerifyCount { want, got } => numbered(
            "recompact verify record count mismatch: want "@,
            want as int,
        ) + numbered(" got "@, got as int),
        RecompactError::VerifyBytes { record } => numbered(
            "recompact verify byte mismatch at record "@,
            record as int,
        ),
    }
}

fn say_tail(out: &mut String, valid_len: u64, dropped_bytes: u64)
    ensures
        final(out)@ == old(out)@ + tail_text(valid_len, dropped_bytes),
{
    let ghost was = out@;
    say(out, "refusing to drop torn segment tail at byte ", valid_len);
    say(out, " (", dropped_bytes);
    out.append(" bytes): ");
    assert(out@ =~= was + tail_text(valid_len, dropped_bytes));
}

fn say_record(out: &mut String, r: &BadRecord)
    ensures
        final(out)@ == old(out)@ + bad_record_text(*r),
{
    let ghost was = out@;
    say(out, "decode game_id at block ", r.block_off);
    say(out, " rec_off ", r.rec_off as u64);
    assert(out@ =~= was + bad_record_text(*r));
}

impl RecompactError {
    pub fn message(&self) -> (res: String)
        ensures
            res@ == recompact_text(*self),
    {
        let mut out = String::new();
        match self {
            RecompactError::BadRecord(r) => say_record(&mut out, r),
            RecompactError::TailWithMalformedIdx { valid_len, dropped_bytes } => {
                say_tail(&mut out, *valid_len, *dropped_bytes);
                out.append("idx is malformed");
            },
            RecompactError::TailIndexed { valid_len, dropped_bytes, game_id, block_off } => {
                say_tail(&mut out, *valid_len, *dropped_bytes);
                say(&mut out, "idx entry game_id=", *game_id);
                say(&mut out, " references block_off=", *block_off);
                out.append(" at/behind the tail");
            },
            RecompactError::Encode(e) => {
                return e.message();
            },
            RecompactError::Compress => out.append("compress columnar block"),
            RecompactError::BlockTooLarge => out.append("block exceeds u32"),
            RecompactError::VerifyTorn => out.append(
                "rewritten segment ended with an invalid/truncated tail",
            ),
            RecompactError::VerifyBadRecord(r) => say_record(&mut out, r),
            RecompactError::VerifyCount { want, got } => {
                say(&mut out, "recompact verify record count mismatch: want ", *want as u64);
                say(&mut out, " got ", *got as u64);
            },
            RecompactError::VerifyBytes { record } => say(
                &mut out,
                "recompact verify byte mismatch at record ",
                *record as u64,
            ),
        }
        assert(out@ =~= recompact_text(*self));
        out
    }
}

} // verus!
