//! The zlib half of the codec gateway.
//!
//! PAK payloads are zlib streams, written at the default level: that level's
//! two header bytes, `78 9C`, are what tells a PAK archive from a KUB one.
//! LZRW1, the codec of KUB payloads, is native code that the host program
//! links and runs: the gateway hands such payloads through as they are.

use flate2::bufread::ZlibEncoder;
use flate2::read::ZlibDecoder;
use flate2::Compression;
use std::io::Read;
use vstd::prelude::*;

verus! {

/// The first byte of a zlib stream written at the default level.
pub const ZLIB_MAGIC_0: u8 = 0x78;

/// The second byte of a zlib stream written at the default level.
pub const ZLIB_MAGIC_1: u8 = 0x9C;

/// What flate2's zlib encoder, at the default level, makes of `src`; `None`
/// where it reports an error.
pub uninterp spec fn zlib_deflated(src: Seq<u8>) -> Option<Seq<u8>>;

/// What flate2's zlib decoder makes of `src`; `None` where it reports an
/// error.
pub uninterp spec fn zlib_inflated(src: Seq<u8>) -> Option<Seq<u8>>;

/// `bytes` begins with the header of a default-level zlib stream.
pub open spec fn has_zlib_magic(bytes: Seq<u8>) -> bool {
    bytes.len() >= 2 && bytes[0] == ZLIB_MAGIC_0 && bytes[1] == ZLIB_MAGIC_1
}

/// `stream` is what the encoder made of `contents`, with what is known of
/// every such stream: it begins with `78 9C`, and the decoder gives
/// `contents` back.
pub open spec fn is_zlib_stream_of(stream: Seq<u8>, contents: Seq<u8>) -> bool {
    &&& zlib_deflated(contents) == Some(stream)
    &&& has_zlib_magic(stream)
    &&& zlib_inflated(stream) == Some(contents)
}

/// The view of an optional byte vector.
pub open spec fn bytes_view(v: Option<Vec<u8>>) -> Option<Seq<u8>> {
    match v {
        Some(b) => Some(b@),
        None => None,
    }
}

/// `flate2::bufread::ZlibEncoder` over `src` at `Compression::default()`,
/// read to its end. Trusted: the stream is a function of `src` alone; it
/// opens with the header bytes `78 9C`, which the encoder derives from its
/// level; and `flate2::read::ZlibDecoder` restores `src` from it.
#[verifier::external_body]
pub(crate) fn zlib_deflate(src: &[u8]) -> (r: Option<Vec<u8>>)
    ensures
        bytes_view(r) == zlib_deflated(src@),
        r matches Some(v) ==> is_zlib_stream_of(v@, src@),
{
    let mut out = Vec::new();
    match ZlibEncoder::new(src, Compression::default()).read_to_end(&mut out) {
        Ok(_) => Some(out),
        Err(_) => None,
    }
}

/// `flate2::read::ZlibDecoder` over `src`, read to its end. Trusted: the
/// outcome is a function of `src` alone.
#[verifier::external_body]
pub(crate) fn zlib_inflate(src: &[u8]) -> (r: Option<Vec<u8>>)
    ensures
        bytes_view(r) == zlib_inflated(src@),
{
    let mut out = Vec::new();
    match ZlibDecoder::new(src).read_to_end(&mut out) {
        Ok(_) => Some(out),
        Err(_) => None,
    }
}

} // verus!
