//! The FlateDecode stream filter: zlib decompression through an outside
//! decoder.

use vstd::prelude::*;

use crate::error::Error;

verus! {

/// What zlib decompression yields on the given bytes: the decompressed bytes,
/// or nothing when the data is not a well-formed zlib stream. Decompression
/// is a function of the input bytes alone.
pub uninterp spec fn zlib_inflate(data: Seq<u8>) -> Option<Seq<u8>>;

/// Relies on inflate::inflate_bytes_zlib, which decompresses a zlib-wrapped
/// DEFLATE stream. The result depends on the input bytes alone: the same
/// bytes always inflate to the same bytes, or always fail.
#[verifier::external_body]
fn inflate_zlib(data: &Vec<u8>) -> (r: Result<Vec<u8>, String>)
    ensures
        match r {
            Ok(v) => zlib_inflate(data@) == Some(v@),
            Err(e) => zlib_inflate(data@) is None,
        },
{
    inflate::inflate_bytes_zlib(data.as_slice())
}

/// Applies the FlateDecode filter: zlib inflation, with a malformed stream
/// reported as a syntax error.
pub fn flate_decode(data: &Vec<u8>) -> (r: Result<Vec<u8>, Error>)
    ensures
        match r {
            Ok(v) => zlib_inflate(data@) == Some(v@),
            Err(e) => zlib_inflate(data@) is None && e@ is Syntax,
        },
{
    match inflate_zlib(data) {
        Ok(v) => Ok(v),
        Err(_) => Err(Error::Syntax("a stream's zlib data failed to inflate")),
    }
}

} // verus!
