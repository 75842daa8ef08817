//! Raw samples: a share of the answers of the game's servers is kept as it
//! came, each in a file of its own, compressed.
//!
//! Once there are enough of them a dictionary is trained, and the samples are
//! compressed again with it, which makes them several times smaller.

use crate::codec::{
    dict_id_in_frame, frame_dict_id, zstd_compress, zstd_decode_all, zstd_decoded, zstd_frame,
};
use crate::columnar::byte_strings;
use crate::le::{get_u32, le_value};
use crate::recompact::same_bytes;
use crate::record::string_from_utf8;
use crate::text::{chars_of, ends_with, has_suffix};
use vstd::prelude::*;
use vstd::string::StringExecFns;
use vstd::utf8::{encode_utf8, valid_utf8};
use zstd::bulk::{Compressor, Decompressor};

verus! {

/// The file of the dictionary.
pub const RAW_DICT_NAME: &'static str = "match-v1.dict";

pub const RAW_DICT_MAX_BYTES: usize = 131_072;

/// With fewer samples no dictionary is trained.
pub const RAW_DICT_MIN_SAMPLES: usize = 500;

/// A dictionary is trained with no more samples.
pub const RAW_DICT_MAX_TRAINING_SAMPLES: usize = 4_000;

pub const RAW_RECOMPACT_ZSTD_LEVEL: i32 = 19;

/// The level at which samples are first written.
pub const RAW_PLAIN_ZSTD_LEVEL: i32 = 3;

/// Samples younger than this are left alone: they may still be written.
pub const RAW_RECOMPACT_MIN_AGE_SECS: u64 = 3_600;

// ---- dictionaries ----

/// A compressor of `zstd` for many pieces of data.
#[verifier::external_type_specification]
#[verifier::external_body]
pub struct ExCompressor<'a>(Compressor<'a>);

/// A decompressor of `zstd` for many pieces of data.
#[verifier::external_type_specification]
#[verifier::external_body]
pub struct ExDecompressor<'a>(Decompressor<'a>);

/// The dictionary that a compressor holds.
pub uninterp spec fn compressor_dict(c: Compressor<'static>) -> Seq<u8>;

/// The level that a compressor compresses at.
pub uninterp spec fn compressor_level(c: Compressor<'static>) -> int;

/// The dictionary that a decompressor holds.
pub uninterp spec fn decompressor_dict(d: Decompressor<'static>) -> Seq<u8>;

/// What `zstd::bulk::Decompressor::decompress` finds in a frame with a
/// dictionary, given room enough.
pub uninterp spec fn dict_content(frame: Seq<u8>, dict: Seq<u8>) -> Option<Seq<u8>>;

/// What reading a `zstd::stream::Decoder` with a dictionary to its end gives.
pub uninterp spec fn dict_decoded(frame: Seq<u8>, dict: Seq<u8>) -> Option<Seq<u8>>;

/// `zstd::bulk::Compressor::with_dictionary`: a compressor that holds the
/// dictionary and compresses at the level. It fails where the dictionary cannot
/// be loaded, which is not said further.
#[verifier::external_body]
fn new_compressor(dict: &[u8], level: i32) -> (res: Option<Compressor<'static>>)
    ensures
        res matches Some(c) ==> compressor_dict(c) == dict@ && compressor_level(c) == level,
{
    Compressor::with_dictionary(level, dict).ok()
}

/// `zstd::bulk::Compressor::set_parameter`: frames from now on say which
/// dictionary they need. The dictionary and the level stay the same; whether
/// it worked is returned.
#[verifier::external_body]
fn write_dict_ids(c: &mut Compressor<'static>) -> (res: bool)
    ensures
        compressor_dict(*final(c)) == compressor_dict(*old(c)),
        compressor_level(*final(c)) == compressor_level(*old(c)),
{
    c.set_parameter(zstd::zstd_safe::CParameter::DictIdFlag(true)).is_ok()
}

/// `zstd::bulk::Compressor::compress`: a frame from which the data can be read
/// back with the dictionary, in one piece or as a stream. It may fail, and
/// which frame it is is not said.
#[verifier::external_body]
fn compress_with(c: &mut Compressor<'static>, data: &[u8]) -> (res: Option<Vec<u8>>)
    ensures
        compressor_dict(*final(c)) == compressor_dict(*old(c)),
        compressor_level(*final(c)) == compressor_level(*old(c)),
        res matches Some(frame) ==> dict_decoded(frame@, compressor_dict(*old(c))) == Some(data@)
            && dict_content(frame@, compressor_dict(*old(c))) == Some(data@),
{
    c.compress(data).ok()
}

/// `zstd::bulk::Decompressor::with_dictionary`: a decompressor that holds the
/// dictionary. It fails where the dictionary cannot be loaded, which is not
/// said further.
#[verifier::external_body]
fn new_decompressor(dict: &[u8]) -> (res: Option<Decompressor<'static>>)
    ensures
        res matches Some(d) ==> decompressor_dict(d) == dict@,
{
    Decompressor::with_dictionary(dict).ok()
}

/// `zstd::bulk::Decompressor::decompress`: what a frame holds. It fails where
/// the frame is not sound, and may fail where it holds more than `capacity`
/// bytes.
#[verifier::external_body]
fn decompress_with(d: &mut Decompressor<'static>, frame: &[u8], capacity: usize) -> (res: Option<
    Vec<u8>,
>)
    ensures
        decompressor_dict(*final(d)) == decompressor_dict(*old(d)),
        res matches Some(data) ==> dict_content(frame@, decompressor_dict(*old(d))) == Some(data@),
        res is None ==> (dict_content(frame@, decompressor_dict(*old(d))) matches Some(data)
            ==> data.len() > capacity),
{
    d.decompress(frame, capacity).ok()
}

/// `zstd::stream::Decoder::with_dictionary`, read to its end.
#[verifier::external_body]
fn decode_with_dict(frame: &[u8], dict: &[u8]) -> (res: Option<Vec<u8>>)
    ensures
        match res {
            Some(data) => dict_decoded(frame@, dict@) == Some(data@),
            None => dict_decoded(frame@, dict@) is None,
        },
{
    let mut decoder = zstd::stream::Decoder::with_dictionary(frame, dict).ok()?;
    let mut out = Vec::new();
    std::io::Read::read_to_end(&mut decoder, &mut out).ok()?;
    Some(out)
}

/// The id of a dictionary, 0 if it has none: four bytes behind the four that
/// mark a dictionary.
pub open spec fn dict_id_of(dict: Seq<u8>) -> u32 {
    if dict.len() >= 8 && le_value(dict.subrange(0, 4)) == 0xEC30_A437 {
        le_value(dict.subrange(4, 8)) as u32
    } else {
        0
    }
}

/// The id that is written in a dictionary, 0 for none.
fn dict_id(dict: &[u8]) -> (res: u32)
    ensures
        res == dict_id_of(dict@),
{
    if dict.len() < 8 || get_u32(dict, 0) != 0xEC30_A437 {
        0
    } else {
        get_u32(dict, 4)
    }
}

/// `zstd::dict::from_samples`: a dictionary for data like the samples. It may
/// fail, for lack of memory or of anything that the samples share. Nothing is
/// said of the dictionary: it fills the room that the allocator gave, which is
/// what was asked for or more.
#[verifier::external_body]
fn train_dict(samples: &Vec<Vec<u8>>, max_bytes: usize) -> (res: Option<Vec<u8>>) {
    zstd::dict::from_samples(samples, max_bytes).ok()
}

// ---- reading ----

/// Why a raw sample could not be read or compressed again.
#[derive(Clone, Debug, PartialEq, Eq)]
pub enum RawError {
    /// The bytes do not decompress.
    Undecodable,
    /// The text is not UTF-8.
    NotUtf8,
    /// The sample needs a dictionary, and there is none.
    NoDict,
    /// A dictionary has no id.
    NoDictId,
    /// A sample needs another dictionary.
    WrongDict { found: u32, expected: u32 },
    /// The dictionary cannot be loaded.
    BadDict,
    /// Compression failed.
    Compress,
    /// The data could not be read back.
    Roundtrip,
    /// No dictionary could be trained.
    Training,
    /// A trained dictionary is too large.
    DictTooLarge(usize),
}

/// The data of a sample, read with a dictionary if it needs one.
pub open spec fn sample_data(bytes: Seq<u8>, dict: Option<Seq<u8>>) -> Result<Seq<u8>, RawError> {
    let id = frame_dict_id(bytes);
    if id == 0 {
        match zstd_decoded(bytes) {
            Some(data) => Ok(data),
            None => Err(RawError::Undecodable),
        }
    } else {
        match dict {
            None => Err(RawError::NoDict),
            Some(d) => if dict_id_of(d) == 0 {
                Err(RawError::NoDictId)
            } else if dict_id_of(d) != id {
                Err(RawError::WrongDict { found: id, expected: dict_id_of(d) })
            } else {
                match dict_decoded(bytes, d) {
                    Some(data) => Ok(data),
                    None => Err(RawError::Undecodable),
                }
            },
        }
    }
}

/// Reads a raw sample, with the dictionary if it was compressed with one.
pub fn read_raw_sample(bytes: &[u8], dict: Option<&[u8]>) -> (res: Result<String, RawError>)
    ensures
        match sample_data(
            bytes@,
            match dict {
                Some(d) => Some(d@),
                None => None,
            },
        ) {
            Err(e) => res == Err::<String, RawError>(e),
            Ok(data) => match res {
                Ok(text) => valid_utf8(data) && encode_utf8(text@) == data,
                Err(e) => e == RawError::NotUtf8 && !valid_utf8(data),
            },
        },
{
    let id: u32 = dict_id_in_frame(bytes);
    let data: Vec<u8> = if id == 0 {
        match zstd_decode_all(bytes) {
            Some(data) => data,
            None => {
                return Err(RawError::Undecodable);
            },
        }
    } else {
        let d: &[u8] = match dict {
            Some(d) => d,
            None => {
                return Err(RawError::NoDict);
            },
        };
        let expected: u32 = dict_id(d);
        if expected == 0 {
            return Err(RawError::NoDictId);
        }
        if expected != id {
            return Err(RawError::WrongDict { found: id, expected });
        }
        match decode_with_dict(bytes, d) {
            Some(data) => data,
            None => {
                return Err(RawError::Undecodable);
            },
        }
    };
    match string_from_utf8(data.as_slice()) {
        Some(text) => Ok(text),
        None => Err(RawError::NotUtf8),
    }
}

// ---- writing ----

/// The bytes that a new sample is written as.
pub fn raw_sample_bytes(json: &str) -> (res: Option<Vec<u8>>)
    ensures
        res matches Some(bytes) ==> bytes@ == zstd_frame(
            encode_utf8(json@),
            RAW_PLAIN_ZSTD_LEVEL as int,
        ) && sample_data(bytes@, None) == Ok::<Seq<u8>, RawError>(encode_utf8(json@)),
{
    zstd_compress(json.as_bytes(), RAW_PLAIN_ZSTD_LEVEL)
}

/// The file of a match sample has this name.
pub open spec fn match_file(match_id: Seq<char>) -> Seq<char> {
    match_id + ".match.json.zst"@
}

/// The file of a timeline sample has this name.
pub open spec fn timeline_file(match_id: Seq<char>) -> Seq<char> {
    match_id + ".timeline.json.zst"@
}

/// A file with this name is a raw sample.
pub open spec fn names_sample(name: Seq<char>) -> bool {
    has_suffix(name, ".match.json.zst"@) || has_suffix(name, ".timeline.json.zst"@)
}

/// The file of a match sample.
pub fn match_sample_name(match_id: &str) -> (res: String)
    ensures
        res@ == match_file(match_id@),
{
    let mut out = match_id.to_string();
    out.append(".match.json.zst");
    out
}

/// The file of a timeline sample.
pub fn timeline_sample_name(match_id: &str) -> (res: String)
    ensures
        res@ == timeline_file(match_id@),
{
    let mut out = match_id.to_string();
    out.append(".timeline.json.zst");
    out
}

/// Whether a file is a raw sample, by its name.
pub fn is_raw_sample_name(name: &str) -> (res: bool)
    ensures
        res == names_sample(name@),
{
    let text = chars_of(name);
    ends_with(&text, &chars_of(".match.json.zst")) || ends_with(
        &text,
        &chars_of(".timeline.json.zst"),
    )
}

// ---- training ----

/// A sample file: its bytes, and whether it is old enough to be rewritten.
pub struct RawFile {
    pub bytes: Vec<u8>,
    pub old_enough: bool,
}

#[verifier::ext_equal]
pub struct RawFileV {
    pub bytes: Seq<u8>,
    pub old_enough: bool,
}

impl View for RawFile {
    type V = RawFileV;

    open spec fn view(&self) -> RawFileV {
        RawFileV { bytes: self.bytes@, old_enough: self.old_enough }
    }
}

/// A sample that a dictionary can be trained with.
pub open spec fn is_trainable(f: RawFileV) -> bool {
    f.old_enough && frame_dict_id(f.bytes) == 0 && zstd_decoded(f.bytes) is Some
}

/// More samples are of use.
pub open spec fn takes_samples(n: nat) -> bool {
    n < RAW_DICT_MAX_TRAINING_SAMPLES
}

/// There are too few samples for a dictionary.
pub open spec fn too_few(n: nat) -> bool {
    n < RAW_DICT_MIN_SAMPLES
}

/// The samples with one more, if it can be used.
pub open spec fn offered(before: Seq<Seq<u8>>, f: RawFileV) -> Seq<Seq<u8>> {
    if takes_samples(before.len()) && is_trainable(f) {
        before.push(zstd_decoded(f.bytes)->0)
    } else {
        before
    }
}

/// The samples that a dictionary is trained with: the first of those that can
/// be used.
pub open spec fn training_set(files: Seq<RawFileV>) -> Seq<Seq<u8>>
    decreases files.len(),
{
    if files.len() == 0 {
        Seq::empty()
    } else {
        offered(training_set(files.drop_last()), files.last())
    }
}

/// Samples collected for a dictionary.
pub struct Training {
    samples: Vec<Vec<u8>>,
}

impl View for Training {
    type V = Seq<Seq<u8>>;

    closed spec fn view(&self) -> Seq<Seq<u8>> {
        byte_strings(self.samples@)
    }
}

/// What came of a training.
pub enum Trained {
    /// There are too few samples.
    TooFew,
    Dict(Vec<u8>),
}

/// What speaks against a trained dictionary, if anything.
pub open spec fn dict_objection(d: Seq<u8>) -> Option<RawError> {
    if d.len() > RAW_DICT_MAX_BYTES {
        Some(RawError::DictTooLarge(d.len() as usize))
    } else if dict_id_of(d) == 0 {
        Some(RawError::NoDictId)
    } else {
        None
    }
}

/// Whether a trained dictionary can be used.
pub fn check_dict(trained: Option<Vec<u8>>) -> (res: Result<Vec<u8>, RawError>)
    ensures
        match trained {
            None => res == Err::<Vec<u8>, RawError>(RawError::Training),
            Some(d) => match dict_objection(d@) {
                Some(e) => res == Err::<Vec<u8>, RawError>(e),
                None => res == Ok::<Vec<u8>, RawError>(d),
            },
        },
{
    match trained {
        None => Err(RawError::Training),
        Some(d) => {
            let n: usize = d.len();
            if n > RAW_DICT_MAX_BYTES {
                Err(RawError::DictTooLarge(n))
            } else if dict_id(d.as_slice()) == 0 {
                Err(RawError::NoDictId)
            } else {
                Ok(d)
            }
        },
    }
}

impl Training {
    pub fn new() -> (res: Self)
        ensures
            res@ == Seq::<Seq<u8>>::empty(),
    {
        let res = Training { samples: Vec::new() };
        assert(res@ =~= Seq::empty());
        res
    }

    /// How many samples there are.
    pub fn len(&self) -> (res: usize)
        ensures
            res == self@.len(),
    {
        self.samples.len()
    }

    /// Whether more samples are of use.
    pub fn wants_more(&self) -> (res: bool)
        ensures
            res == takes_samples(self@.len()),
    {
        self.samples.len() < RAW_DICT_MAX_TRAINING_SAMPLES
    }

    /// Adds a sample if it can be used.
    pub fn offer(&mut self, file: &RawFile)
        ensures
            final(self)@ == offered(old(self)@, file@),
    {
        if !self.wants_more() || !file.old_enough || dict_id_in_frame(file.bytes.as_slice()) != 0 {
            return;
        }
        if let Some(data) = zstd_decode_all(file.bytes.as_slice()) {
            let ghost was = self.samples@;
            let ghost d = data@;
            self.samples.push(data);
            assert(self@ =~= byte_strings(was).push(d));
        }
    }

    /// Trains a dictionary, if there are enough samples. What comes of it is
    /// checked before it is used.
    pub fn train(&self) -> (res: Result<Trained, RawError>)
        ensures
            too_few(self@.len()) <==> (res is Ok && res->Ok_0 is TooFew),
            res matches Ok(Trained::Dict(d)) ==> d@.len() <= RAW_DICT_MAX_BYTES && dict_id_of(d@)
                != 0,
            res matches Err(e) ==> e is Training || e is DictTooLarge || e is NoDictId,
    {
        if self.samples.len() < RAW_DICT_MIN_SAMPLES {
            return Ok(Trained::TooFew);
        }
        match check_dict(train_dict(&self.samples, RAW_DICT_MAX_BYTES)) {
            Ok(d) => Ok(Trained::Dict(d)),
            Err(e) => Err(e),
        }
    }
}

// ---- compressing again ----

/// What is done with a sample.
pub enum Packing {
    /// It was compressed with a dictionary before.
    AlreadyDict,
    /// These bytes take its place.
    Packed(Vec<u8>),
}

/// A dictionary ready for use.
pub struct Packer {
    dict: Vec<u8>,
    id: u32,
    compressor: Compressor<'static>,
    decompressor: Decompressor<'static>,
}

impl View for Packer {
    type V = Seq<u8>;

    /// The dictionary.
    closed spec fn view(&self) -> Seq<u8> {
        self.dict@
    }
}

/// These bytes can take the place of a sample: they hold the same data, and
/// need the dictionary.
pub open spec fn is_packed(before: Seq<u8>, after: Seq<u8>, dict: Seq<u8>) -> bool {
    &&& frame_dict_id(before) == 0
    &&& zstd_decoded(before) is Some
    &&& frame_dict_id(after) == dict_id_of(dict)
    &&& dict_decoded(after, dict) == zstd_decoded(before)
    &&& dict_content(after, dict) == zstd_decoded(before)
}

/// What speaks against bytes that a sample was compressed to, if anything.
pub open spec fn packed_objection(
    after: Seq<u8>,
    back: Option<Seq<u8>>,
    plain: Seq<u8>,
    expected: u32,
) -> Option<RawError> {
    if frame_dict_id(after) != expected {
        Some(RawError::WrongDict { found: frame_dict_id(after), expected })
    } else if back == Some(plain) {
        None
    } else {
        Some(RawError::Roundtrip)
    }
}

/// Checks bytes that a sample was compressed to: they need the dictionary with
/// the expected id, and what was read back from them is the data.
pub fn check_packed(
    after: Vec<u8>,
    back: Option<Vec<u8>>,
    plain: &Vec<u8>,
    expected: u32,
) -> (res: Result<Vec<u8>, RawError>)
    ensures
        res == (match packed_objection(
            after@,
            match back {
                Some(b) => Some(b@),
                None => None,
            },
            plain@,
            expected,
        ) {
            Some(e) => Err::<Vec<u8>, RawError>(e),
            None => Ok(after),
        }),
{
    let found: u32 = dict_id_in_frame(after.as_slice());
    if found != expected {
        return Err(RawError::WrongDict { found, expected });
    }
    match back {
        Some(b) => {
            if same_bytes(&b, plain) {
                Ok(after)
            } else {
                Err(RawError::Roundtrip)
            }
        },
        None => Err(RawError::Roundtrip),
    }
}

impl Packer {
    pub closed spec fn wf(&self) -> bool {
        &&& self.id == dict_id_of(self.dict@)
        &&& self.id != 0
        &&& compressor_dict(self.compressor) == self.dict@
        &&& compressor_level(self.compressor) == RAW_RECOMPACT_ZSTD_LEVEL
        &&& decompressor_dict(self.decompressor) == self.dict@
    }

    /// Prepares a dictionary.
    pub fn new(dict: Vec<u8>) -> (res: Result<Packer, RawError>)
        ensures
            match res {
                Ok(p) => p.wf() && p@ == dict@ && dict_id_of(dict@) != 0,
                Err(e) => e == (if dict_id_of(dict@) == 0 {
                    RawError::NoDictId
                } else {
                    RawError::BadDict
                }),
            },
    {
        let id: u32 = dict_id(dict.as_slice());
        if id == 0 {
            return Err(RawError::NoDictId);
        }
        let mut compressor = match new_compressor(dict.as_slice(), RAW_RECOMPACT_ZSTD_LEVEL) {
            Some(c) => c,
            None => {
                return Err(RawError::BadDict);
            },
        };
        if !write_dict_ids(&mut compressor) {
            return Err(RawError::BadDict);
        }
        let decompressor = match new_decompressor(dict.as_slice()) {
            Some(d) => d,
            None => {
                return Err(RawError::BadDict);
            },
        };
        Ok(Packer { dict, id, compressor, decompressor })
    }

    /// The dictionary.
    pub fn dict(&self) -> (res: &Vec<u8>)
        ensures
            res@ == self@,
    {
        &self.dict
    }

    /// Compresses a sample again. The result is read back and compared before
    /// it is given out.
    pub fn pack(&mut self, before: &Vec<u8>) -> (res: Result<Packing, RawError>)
        requires
            old(self).wf(),
        ensures
            final(self).wf(),
            final(self)@ == old(self)@,
            frame_dict_id(before@) != 0 <==> (res is Ok && res->Ok_0 is AlreadyDict),
            frame_dict_id(before@) == 0 ==> (zstd_decoded(before@) is None <==> res == Err::<
                Packing,
                RawError,
            >(RawError::Undecodable)),
            res matches Ok(Packing::Packed(after)) ==> is_packed(before@, after@, old(self)@),
            res matches Err(e) ==> e is Undecodable || e is Compress || (e matches
                RawError::WrongDict { found, expected } && found != expected && expected
                == dict_id_of(old(self)@)),
    {
        if dict_id_in_frame(before.as_slice()) != 0 {
            return Ok(Packing::AlreadyDict);
        }
        let plain = match zstd_decode_all(before.as_slice()) {
            Some(plain) => plain,
            None => {
                return Err(RawError::Undecodable);
            },
        };
        let after = match compress_with(&mut self.compressor, plain.as_slice()) {
            Some(after) => after,
            None => {
                return Err(RawError::Compress);
            },
        };
        let back = decompress_with(&mut self.decompressor, after.as_slice(), plain.len());
        match check_packed(after, back, &plain, self.id) {
            Ok(after) => Ok(Packing::Packed(after)),
            Err(e) => Err(e),
        }
    }
}

/// What a run over the samples did.
#[derive(Clone, Debug, PartialEq, Eq, Structural)]
pub struct RawSampleRecompactOutcome {
    pub dict_created: bool,
    pub dict_bytes: u64,
    pub training_samples: usize,
    pub files_seen: usize,
    pub files_upgraded: usize,
    pub files_already_dict: usize,
    pub files_skipped_recent: usize,
    pub files_skipped_changed: usize,
    pub files_failed: usize,
    pub before_bytes: u64,
    pub after_bytes: u64,
}

impl Default for RawSampleRecompactOutcome {
    fn default() -> (res: Self)
        ensures
            res == no_outcome(),
    {
        RawSampleRecompactOutcome {
            dict_created: false,
            dict_bytes: 0,
            training_samples: 0,
            files_seen: 0,
            files_upgraded: 0,
            files_already_dict: 0,
            files_skipped_recent: 0,
            files_skipped_changed: 0,
            files_failed: 0,
            before_bytes: 0,
            after_bytes: 0,
        }
    }
}

/// Nothing was done.
pub open spec fn no_outcome() -> RawSampleRecompactOutcome {
    RawSampleRecompactOutcome {
        dict_created: false,
        dict_bytes: 0,
        training_samples: 0,
        files_seen: 0,
        files_upgraded: 0,
        files_already_dict: 0,
        files_skipped_recent: 0,
        files_skipped_changed: 0,
        files_failed: 0,
        before_bytes: 0,
        after_bytes: 0,
    }
}

/// One more, up to the largest number.
pub open spec fn count_up(n: usize) -> usize {
    if n < usize::MAX {
        (n + 1) as usize
    } else {
        n
    }
}

/// A sum, up to the largest number.
pub open spec fn sum_up(a: u64, n: nat) -> u64 {
    if a + n <= u64::MAX {
        (a + n) as u64
    } else {
        u64::MAX
    }
}

/// How a rewritten sample was put into its place.
#[derive(Clone, Copy, Debug, PartialEq, Eq, Structural)]
pub enum Settled {
    Replaced,
    /// The file had changed meanwhile, and was left as it is.
    Changed,
    /// It could not be written.
    Failed,
}

/// The outcome with one more sample that was rewritten.
pub open spec fn settled_as(
    o: RawSampleRecompactOutcome,
    how: Settled,
    before_len: nat,
    after_len: nat,
) -> RawSampleRecompactOutcome {
    match how {
        Settled::Replaced => RawSampleRecompactOutcome {
            files_upgraded: count_up(o.files_upgraded),
            before_bytes: sum_up(o.before_bytes, before_len),
            after_bytes: sum_up(o.after_bytes, after_len),
            ..o
        },
        Settled::Changed => RawSampleRecompactOutcome {
            files_skipped_changed: count_up(o.files_skipped_changed),
            ..o
        },
        Settled::Failed => RawSampleRecompactOutcome {
            files_failed: count_up(o.files_failed),
            ..o
        },
    }
}

/// A run over the samples.
pub struct RawRun {
    packer: Packer,
    outcome: RawSampleRecompactOutcome,
}

/// A run: its dictionary, and what it did so far.
pub struct RawRunV {
    pub dict: Seq<u8>,
    pub outcome: RawSampleRecompactOutcome,
}

impl View for RawRun {
    type V = RawRunV;

    closed spec fn view(&self) -> RawRunV {
        RawRunV { dict: self.packer@, outcome: self.outcome }
    }
}

impl RawRun {
    pub closed spec fn wf(&self) -> bool {
        self.packer.wf()
    }

    /// Begins a run with a dictionary that is there or was just trained.
    pub fn new(dict: Vec<u8>, created: bool, training_samples: usize, files_seen: usize) -> (res:
        Result<RawRun, RawError>)
        ensures
            match res {
                Ok(run) => {
                    &&& run.wf()
                    &&& dict_id_of(dict@) != 0
                    &&& run@.dict == dict@
                    &&& run@.outcome == (RawSampleRecompactOutcome {
                        dict_created: created,
                        dict_bytes: dict@.len() as u64,
                        training_samples,
                        files_seen,
                        ..no_outcome()
                    })
                },
                Err(e) => e == (if dict_id_of(dict@) == 0 {
                    RawError::NoDictId
                } else {
                    RawError::BadDict
                }),
            },
    {
        let dict_bytes: u64 = dict.len() as u64;
        let packer = match Packer::new(dict) {
            Ok(p) => p,
            Err(e) => {
                return Err(e);
            },
        };
        let mut outcome: RawSampleRecompactOutcome = Default::default();
        outcome.dict_created = created;
        outcome.dict_bytes = dict_bytes;
        outcome.training_samples = training_samples;
        outcome.files_seen = files_seen;
        Ok(RawRun { packer, outcome })
    }

    /// Looks at a sample. If it is to be rewritten its new bytes are given, and
    /// how that went is to be said with [`RawRun::settle`]; otherwise it is
    /// counted.
    pub fn look(&mut self, file: &RawFile) -> (res: Option<Vec<u8>>)
        requires
            old(self).wf(),
        ensures
            final(self).wf(),
            final(self)@.dict == old(self)@.dict,
            match res {
                Some(after) => {
                    &&& file.old_enough
                    &&& is_packed(file@.bytes, after@, old(self)@.dict)
                    &&& final(self)@.outcome == old(self)@.outcome
                },
                None => final(self)@.outcome == passed_over(old(self)@.outcome, file@),
            },
    {
        if !file.old_enough {
            self.outcome.files_skipped_recent = self.outcome.files_skipped_recent.saturating_add(1);
            return None;
        }
        match self.packer.pack(&file.bytes) {
            Ok(Packing::AlreadyDict) => {
                self.outcome.files_already_dict = self.outcome.files_already_dict.saturating_add(1);
                None
            },
            Ok(Packing::Packed(after)) => Some(after),
            Err(_) => {
                self.outcome.files_failed = self.outcome.files_failed.saturating_add(1);
                None
            },
        }
    }

    /// Counts a sample that was rewritten.
    pub fn settle(&mut self, how: Settled, before_len: usize, after_len: usize)
        requires
            old(self).wf(),
        ensures
            final(self).wf(),
            final(self)@.dict == old(self)@.dict,
            final(self)@.outcome == settled_as(
                old(self)@.outcome,
                how,
                before_len as nat,
                after_len as nat,
            ),
    {
        match how {
            Settled::Replaced => {
                self.outcome.files_upgraded = self.outcome.files_upgraded.saturating_add(1);
                self.outcome.before_bytes =
                self.outcome.before_bytes.saturating_add(before_len as u64);
                self.outcome.after_bytes = self.outcome.after_bytes.saturating_add(after_len as u64);
            },
            Settled::Changed => {
                self.outcome.files_skipped_changed =
                self.outcome.files_skipped_changed.saturating_add(1);
            },
            Settled::Failed => {
                self.outcome.files_failed = self.outcome.files_failed.saturating_add(1);
            },
        }
    }

    /// What the run did.
    pub fn outcome(&self) -> (res: &RawSampleRecompactOutcome)
        ensures
            *res == self@.outcome,
    {
        &self.outcome
    }
}

/// The outcome with one more sample that was left as it is.
pub open spec fn passed_over(o: RawSampleRecompactOutcome, f: RawFileV) -> RawSampleRecompactOutcome {
    if !f.old_enough {
        RawSampleRecompactOutcome { files_skipped_recent: count_up(o.files_skipped_recent), ..o }
    } else if frame_dict_id(f.bytes) != 0 {
        RawSampleRecompactOutcome { files_already_dict: count_up(o.files_already_dict), ..o }
    } else {
        RawSampleRecompactOutcome { files_failed: count_up(o.files_failed), ..o }
    }
}

/// Sample files as they are.
pub open spec fn file_views(files: Seq<RawFile>) -> Seq<RawFileV> {
    files.map_values(|f: RawFile| f@)
}

/// A sample stayed as it is, or was old enough and is packed now.
pub open spec fn kept_or_packed(before: RawFileV, after: RawFileV, dict: Seq<u8>) -> bool {
    after == before || (before.old_enough && after.old_enough && is_packed(
        before.bytes,
        after.bytes,
        dict,
    ))
}

/// What a run did to the first `k` samples, added up.
pub open spec fn tallied(
    o: RawSampleRecompactOutcome,
    before: Seq<RawFileV>,
    after: Seq<RawFileV>,
    k: int,
) -> RawSampleRecompactOutcome
    decreases k,
{
    if k <= 0 {
        o
    } else {
        let rest = tallied(o, before, after, k - 1);
        let (b, a) = (before[k - 1], after[k - 1]);
        if a == b {
            passed_over(rest, b)
        } else {
            settled_as(rest, Settled::Replaced, b.bytes.len(), a.bytes.len())
        }
    }
}

/// The samples after a run, and the dictionary that they need.
pub struct Recompacted {
    pub outcome: RawSampleRecompactOutcome,
    pub dict: Option<Vec<u8>>,
}

fn pack_all(files: &mut Vec<RawFile>, run: &mut RawRun)
    requires
        old(run).wf(),
        dict_id_of(old(run)@.dict) != 0,
    ensures
        final(run).wf(),
        final(run)@.dict == old(run)@.dict,
        final(files)@.len() == old(files)@.len(),
        forall|i: int|
            0 <= i < old(files)@.len() ==> kept_or_packed(
                #[trigger] old(files)@[i]@,
                final(files)@[i]@,
                old(run)@.dict,
            ),
        final(run)@.outcome == tallied(
            old(run)@.outcome,
            file_views(old(files)@),
            file_views(final(files)@),
            old(files)@.len() as int,
        ),
{
    let ghost given = files@;
    let ghost dict = run@.dict;
    let ghost start = run@.outcome;
    let mut i: usize = 0;
    while i < files.len()
        invariant
            run.wf(),
            run@.dict == dict,
            dict_id_of(dict) != 0,
            i <= given.len(),
            files@.len() == given.len(),
            forall|k: int|
                0 <= k < i ==> kept_or_packed(#[trigger] given[k]@, files@[k]@, dict),
            forall|k: int| i <= k < given.len() ==> #[trigger] files@[k] == given[k],
            run@.outcome == tallied(start, file_views(given), file_views(files@), i as int),
        decreases given.len() - i,
    {
        let ghost mid = files@;
        let before_len: usize = files[i].bytes.len();
        match run.look(&files[i]) {
            Some(after) => {
                run.settle(Settled::Replaced, before_len, after.len());
                let ghost bytes = after@;
                files.set(i, RawFile { bytes: after, old_enough: true });
                assert(frame_dict_id(bytes) != frame_dict_id(given[i as int]@.bytes));
            },
            None => {},
        }
        proof {
            lemma_tallied(start, file_views(given), file_views(mid), file_views(files@), i as int);
        }
        i = i + 1;
    }
}

proof fn lemma_tallied(
    o: RawSampleRecompactOutcome,
    before: Seq<RawFileV>,
    a: Seq<RawFileV>,
    b: Seq<RawFileV>,
    k: int,
)
    requires
        k <= a.len() == b.len() == before.len(),
        forall|i: int| 0 <= i < k ==> #[trigger] a[i] == b[i],
    ensures
        tallied(o, before, a, k) == tallied(o, before, b, k),
    decreases k,
{
    if k > 0 {
        lemma_tallied(o, before, a, b, k - 1);
    }
}

/// Compresses the samples again with the dictionary, if there is one; if there
/// is none one is trained, provided there are enough samples. What a sample
/// holds stays the same.
pub fn recompact_raw_samples(files: &mut Vec<RawFile>, dict: Option<Vec<u8>>) -> (res: Result<
    Recompacted,
    RawError,
>)
    ensures
        final(files)@.len() == old(files)@.len(),
        old(files)@.len() == 0 ==> (res matches Ok(r) && r.outcome == no_outcome() && r.dict
            == dict),
        old(files)@.len() > 0 ==> match res {
            Err(_) => final(files)@ == old(files)@,
            Ok(r) => match r.dict {
                None => {
                    &&& dict is None
                    &&& training_set(file_views(old(files)@)).len() < RAW_DICT_MIN_SAMPLES
                    &&& final(files)@ == old(files)@
                    &&& r.outcome == (RawSampleRecompactOutcome {
                        files_seen: old(files)@.len() as usize,
                        training_samples: training_set(file_views(old(files)@)).len() as usize,
                        ..no_outcome()
                    })
                },
                Some(d) => {
                    &&& dict matches Some(given) ==> d@ == given@
                    &&& dict is None ==> training_set(file_views(old(files)@)).len()
                        >= RAW_DICT_MIN_SAMPLES && d@.len() <= RAW_DICT_MAX_BYTES
                    &&& dict_id_of(d@) != 0
                    &&& forall|i: int|
                        0 <= i < old(files)@.len() ==> kept_or_packed(
                            #[trigger] old(files)@[i]@,
                            final(files)@[i]@,
                            d@,
                        )
                    &&& r.outcome == tallied(
                        RawSampleRecompactOutcome {
                            dict_created: dict is None,
                            dict_bytes: d@.len() as u64,
                            training_samples: if dict is None {
                                training_set(file_views(old(files)@)).len() as usize
                            } else {
                                0
                            },
                            files_seen: old(files)@.len() as usize,
                            ..no_outcome()
                        },
                        file_views(old(files)@),
                        file_views(final(files)@),
                        old(files)@.len() as int,
                    )
                },
            },
        },
        res matches Err(e) ==> match dict {
            Some(d) => e == (if dict_id_of(d@) == 0 {
                RawError::NoDictId
            } else {
                RawError::BadDict
            }),
            None => {
                &&& training_set(file_views(old(files)@)).len() >= RAW_DICT_MIN_SAMPLES
                &&& e is Training || e is DictTooLarge || e is NoDictId || e is BadDict
            },
        },
{
    let seen: usize = files.len();
    if seen == 0 {
        return Ok(Recompacted { outcome: Default::default(), dict });
    }
    let ghost given = files@;
    let ghost all = file_views(files@);
    match dict {
        Some(d) => {
            let mut run = match RawRun::new(d, false, 0, seen) {
                Ok(run) => run,
                Err(e) => {
                    return Err(e);
                },
            };
            pack_all(files, &mut run);
            Ok(run.finish())
        },
        None => {
            let mut training = Training::new();
            let mut i: usize = 0;
            assert(all.take(0) =~= Seq::empty());
            while i < files.len()
                invariant
                    files@ == given,
                    all == file_views(given),
                    i <= given.len(),
                    training@ == training_set(all.take(i as int)),
                decreases given.len() - i,
            {
                assert(all.take(i + 1).drop_last() =~= all.take(i as int));
                assert(all.take(i + 1).last() == given[i as int]@);
                training.offer(&files[i]);
                i = i + 1;
            }
            assert(all.take(i as int) =~= all);
            let count: usize = training.len();
            match training.train() {
                Err(e) => Err(e),
                Ok(Trained::TooFew) => {
                    let mut outcome: RawSampleRecompactOutcome = Default::default();
                    outcome.files_seen = seen;
                    outcome.training_samples = count;
                    Ok(Recompacted { outcome, dict: None })
                },
                Ok(Trained::Dict(d)) => {
                    let mut run = match RawRun::new(d, true, count, seen) {
                        Ok(run) => run,
                        Err(e) => {
                            return Err(e);
                        },
                    };
                    pack_all(files, &mut run);
                    Ok(run.finish())
                },
            }
        },
    }
}

impl RawRun {
    /// Ends a run.
    pub fn finish(self) -> (res: Recompacted)
        ensures
            res.outcome == self@.outcome,
            res.dict is Some && res.dict->0@ == self@.dict,
    {
        Recompacted { outcome: self.outcome, dict: Some(self.packer.dict) }
    }
}

// ---- laws ----

/// A sample that was written reads back as it was.
pub proof fn law_new_sample_reads_back(text: Seq<char>, bytes: Seq<u8>, dict: Option<Seq<u8>>)
    requires
        sample_data(bytes, None) == Ok::<Seq<u8>, RawError>(encode_utf8(text)),
    ensures
        sample_data(bytes, dict) == Ok::<Seq<u8>, RawError>(encode_utf8(text)),
{
}

/// Compressing again loses nothing: what could be read before is read after,
/// with the dictionary of the run. A sample that needed a dictionary before
/// needs that same one.
pub proof fn law_recompaction_keeps_data(
    before: RawFileV,
    after: RawFileV,
    had: Option<Seq<u8>>,
    dict: Seq<u8>,
)
    requires
        kept_or_packed(before, after, dict),
        dict_id_of(dict) != 0,
        had matches Some(d) ==> d == dict,
        sample_data(before.bytes, had) is Ok,
    ensures
        sample_data(after.bytes, Some(dict)) == sample_data(before.bytes, had),
{
}

/// A sample that was compressed with a dictionary is not touched again.
pub proof fn law_packed_samples_stay(before: RawFileV, after: RawFileV, dict: Seq<u8>)
    requires
        kept_or_packed(before, after, dict),
        frame_dict_id(before.bytes) != 0,
    ensures
        after == before,
{
}

/// A second run changes nothing that the first one packed.
pub proof fn law_second_run_changes_nothing(
    first: RawFileV,
    second: RawFileV,
    third: RawFileV,
    dict: Seq<u8>,
)
    requires
        dict_id_of(dict) != 0,
        kept_or_packed(first, second, dict),
        second != first,
        kept_or_packed(second, third, dict),
    ensures
        third == second,
{
}

} // verus!
