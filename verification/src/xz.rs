//! Streaming decompression of the framed `xz` format, through the `xz2`
//! crate.
//!
//! What a stream decompresses to is a function of its bytes alone, so the
//! result is given a name, [`xz_plain_of`], and everything downstream of
//! the call is verified against that name.
//!
//! Decompression works on a whole in-memory buffer.  A member is fetched
//! and decompressed in full before its tar stream is walked — a deliberate
//! trade of memory for a fully specified pipeline, in place of feeding a
//! background decoder task through a bounded pipe.

use vstd::prelude::*;

verus! {

/// Failure to decode an `xz` stream.
#[derive(Clone, Copy, PartialEq, Eq, Structural, Debug)]
pub enum Error {
    /// The bytes are not a valid `xz` stream.
    Corrupt,
}

/// What the framed `xz` stream `input` decompresses to, or `None` when it
/// is not a valid stream.
pub uninterp spec fn xz_plain_of(input: Seq<u8>) -> Option<Seq<u8>>;

/// Relies on xz2's stream decoder (`xz2::read::XzDecoder`, memory limit
/// unbounded): the decoded bytes depend on the input bytes alone, and
/// decoding fails exactly when the input is not a valid framed stream.
#[verifier::external_body]
pub fn xz_decompress(input: &Vec<u8>) -> (r: Result<Vec<u8>, Error>)
    ensures
        match r {
            Ok(out) => xz_plain_of(input@) == Some(out@),
            Err(_) => xz_plain_of(input@) is None,
        },
{
    let mut decoder = xz2::read::XzDecoder::new(std::io::Cursor::new(input));
    let mut out = Vec::new();
    match std::io::Read::read_to_end(&mut decoder, &mut out) {
        Ok(_) => Ok(out),
        Err(_) => Err(Error::Corrupt),
    }
}

} // verus!
