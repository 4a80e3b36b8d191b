//! Chunk compression through the `zstd` crate.

use vstd::prelude::*;

verus! {

/// The zstd level at which chunks are compressed.
pub const COMPRESSION_LEVEL: i32 = 3;

/// The zstd frame that `zstd::stream::encode_all` produces for `data` at `level`.
pub uninterp spec fn zstd_frame(data: Seq<u8>, level: i32) -> Seq<u8>;

/// What `zstd::stream::decode_all` gives back for `frame`, `None` where it
/// reports an error.
pub uninterp spec fn zstd_decoded(frame: Seq<u8>) -> Option<Seq<u8>>;

/// Calls `zstd::stream::encode_all` on the bytes of `data`.
/// Trusted: the call succeeds (it reads from an in-memory cursor into a `Vec`,
/// and zstd clamps the level rather than refusing it; running out of memory is
/// left aside), its result is the frame named `zstd_frame(data, level)`, and
/// decoding that frame gives back `data` (zstd is lossless).
#[verifier::external_body]
pub(crate) fn encode_frame(data: &[u8], level: i32) -> (res: Option<Vec<u8>>)
    ensures
        res is Some,
        res matches Some(v) ==> v@ == zstd_frame(data@, level) && zstd_decoded(v@) == Some(data@),
{
    zstd::stream::encode_all(std::io::Cursor::new(data), level).ok()
}

/// Calls `zstd::stream::decode_all` on the bytes of `frame`.
/// Trusted: the outcome is the one named `zstd_decoded(frame)`: the content on
/// success, `None` where the frame is invalid (running out of memory is left
/// aside).
#[verifier::external_body]
pub(crate) fn decode_frame(frame: &[u8]) -> (res: Option<Vec<u8>>)
    ensures
        res matches Some(v) ==> zstd_decoded(frame@) == Some(v@),
        res is None ==> zstd_decoded(frame@) is None,
{
    zstd::stream::decode_all(std::io::Cursor::new(frame)).ok()
}

/// Compresses a chunk at `COMPRESSION_LEVEL`.
pub fn compress_chunk(data: &[u8]) -> (res: Option<Vec<u8>>)
    ensures
        res is Some,
        res matches Some(v) ==> v@ == zstd_frame(data@, COMPRESSION_LEVEL)
            && zstd_decoded(v@) == Some(data@),
{
    encode_frame(data, COMPRESSION_LEVEL)
}

} // verus!
