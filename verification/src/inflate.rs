//! Decompression of a single loose object.

use vstd::prelude::*;

verus! {

/// What a complete zlib stream inflates to, if it is well formed. The
/// outcome is a function of the compressed bytes alone.
pub uninterp spec fn inflate_of(data: Seq<u8>) -> Option<Seq<u8>>;

/// Relies on `flate2::read::ZlibDecoder` and its `Read` implementation:
/// reading to the end yields the whole decompressed stream and fails on
/// malformed or truncated input, from the input bytes alone.
#[verifier::external_body]
pub(crate) fn uncompress_obj(obj: &[u8]) -> (r: Option<Vec<u8>>)
    ensures
        r is Some <==> inflate_of(obj@) is Some,
        r is Some ==> r.unwrap()@ == inflate_of(obj@).unwrap(),
{
    let mut decoder = flate2::read::ZlibDecoder::new(obj);
    let mut buf: Vec<u8> = Vec::new();
    match std::io::Read::read_to_end(&mut decoder, &mut buf) {
        Ok(_) => Some(buf),
        Err(_) => None,
    }
}

} // verus!
