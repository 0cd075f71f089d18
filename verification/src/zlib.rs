//! The compression step of the compressed-string form, over flate2's
//! zlib encoder and decoder.

use std::io::Read;
use std::io::Write;

use vstd::prelude::*;

verus! {

/// What flate2's zlib encoder produces from the given bytes at the
/// default compression level: a function of the input alone.
pub uninterp spec fn zlib_deflate(data: Seq<u8>) -> Seq<u8>;

/// What flate2's zlib decoder makes of a byte run: the decompressed
/// bytes, or nothing when the run is not a well-formed zlib stream.
pub uninterp spec fn zlib_inflate(data: Seq<u8>) -> Option<Seq<u8>>;

/// Relies on flate2's ZlibEncoder: in-memory compression cannot fail, its
/// output depends on the input bytes alone, and ZlibDecoder recovers the
/// input from it.
#[verifier::external_body]
pub(crate) fn deflate_bytes(data: &[u8]) -> (r: Vec<u8>)
    ensures
        r@ == zlib_deflate(data@),
        zlib_inflate(r@) == Some(data@),
{
    let mut enc = flate2::write::ZlibEncoder::new(Vec::new(), flate2::Compression::default());
    enc.write_all(data).unwrap();
    enc.finish().unwrap()
}

/// Relies on flate2's ZlibDecoder: inflation depends on the input bytes
/// alone, and fails exactly when they are not a well-formed zlib stream.
#[verifier::external_body]
pub(crate) fn inflate_bytes(data: &[u8]) -> (r: Result<Vec<u8>, String>)
    ensures
        match r {
            Ok(d) => zlib_inflate(data@) == Some(d@),
            Err(_) => zlib_inflate(data@) is None,
        },
{
    let mut dec = flate2::read::ZlibDecoder::new(data);
    let mut out = Vec::new();
    match dec.read_to_end(&mut out) {
        Ok(_) => Ok(out),
        Err(e) => Err(e.to_string()),
    }
}

} // verus!
