//! Decompression of one compressed member, through the flate2 crate.
use vstd::prelude::*;

verus! {

/// The decompressed form of a gzip stream, or `None` where the bytes are not
/// a well-formed stream. Inflation is a function of the input bytes alone;
/// this name stands for its result, and the wrapper below is the only place
/// that produces it.
pub uninterp spec fn gunzip_of(b: Seq<u8>) -> Option<Seq<u8>>;

/// Relies on flate2's `GzDecoder`: reading it to the end yields the whole
/// decompressed stream, determined by the compressed bytes alone, and fails
/// exactly where the bytes are not a valid gzip stream.
#[verifier::external_body]
pub(crate) fn gunzip(b: &Vec<u8>) -> (r: Option<Vec<u8>>)
    ensures
        match r {
            Some(v) => gunzip_of(b@) == Some(v@),
            None => gunzip_of(b@) is None,
        },
{
    let mut dec = flate2::read::GzDecoder::new(&b[..]);
    let mut out: Vec<u8> = Vec::new();
    match std::io::Read::read_to_end(&mut dec, &mut out) {
        Ok(_) => Some(out),
        Err(_) => None,
    }
}

} // verus!
