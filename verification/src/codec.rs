//! Checksums and compression.

use vstd::prelude::*;

verus! {

/// What `crc32fast::hash` returns.
pub uninterp spec fn crc32_of(data: Seq<u8>) -> u32;

/// Calls `crc32fast::hash`, the IEEE CRC-32 of the bytes.
#[verifier::external_body]
pub(crate) fn crc32(data: &[u8]) -> (res: u32)
    ensures
        res == crc32_of(data@),
{
    crc32fast::hash(data)
}

/// What `zstd::bulk::compress` returns where it succeeds.
pub uninterp spec fn zstd_frame(data: Seq<u8>, level: int) -> Seq<u8>;

/// The data that `zstd::bulk::decompress` finds in a frame, if the frame is sound.
pub uninterp spec fn zstd_content(frame: Seq<u8>) -> Option<Seq<u8>>;

/// Calls `zstd::bulk::compress`. It may fail, for lack of memory say; where it
/// succeeds, the frame holds the data and needs no dictionary.
#[verifier::external_body]
pub(crate) fn zstd_compress(data: &[u8], level: i32) -> (res: Option<Vec<u8>>)
    ensures
        res matches Some(frame) ==> frame@ == zstd_frame(data@, level as int) && zstd_content(
            frame@,
        ) == Some(data@) && zstd_decoded(frame@) == Some(data@) && frame_dict_id(frame@) == 0,
{
    zstd::bulk::compress(data, level).ok()
}

/// Calls `zstd::bulk::decompress`: what the frame holds. It fails where the
/// frame is not sound, and may fail where it holds more than `capacity` bytes.
#[verifier::external_body]
pub(crate) fn zstd_decompress(frame: &[u8], capacity: usize) -> (res: Option<Vec<u8>>)
    ensures
        res matches Some(data) ==> zstd_content(frame@) == Some(data@),
        res is None ==> (zstd_content(frame@) matches Some(data) ==> data.len() > capacity),
{
    zstd::bulk::decompress(frame, capacity).ok()
}

/// What `zstd::stream::decode_all` returns.
pub uninterp spec fn zstd_decoded(frame: Seq<u8>) -> Option<Seq<u8>>;

/// Calls `zstd::stream::decode_all`: what the frames in the bytes hold.
#[verifier::external_body]
pub(crate) fn zstd_decode_all(frame: &[u8]) -> (res: Option<Vec<u8>>)
    ensures
        match res {
            Some(data) => zstd_decoded(frame@) == Some(data@),
            None => zstd_decoded(frame@) is None,
        },
{
    zstd::stream::decode_all(frame).ok()
}

/// What `zstd_safe::get_dict_id_from_frame` returns, 0 for none.
pub uninterp spec fn frame_dict_id(frame: Seq<u8>) -> u32;

/// Calls `zstd_safe::get_dict_id_from_frame`: the id of the dictionary that a
/// frame needs, 0 for none.
#[verifier::external_body]
pub(crate) fn dict_id_in_frame(frame: &[u8]) -> (res: u32)
    ensures
        res == frame_dict_id(frame@),
{
    zstd::zstd_safe::get_dict_id_from_frame(frame).map(|id| id.get()).unwrap_or(0)
}

} // verus!
