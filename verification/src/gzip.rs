//! Dump files are compressed with gzip; the rows are read from what they
//! decompress to.

use crate::error::Error;
use vstd::prelude::*;

verus! {

/// What the gzip data `data` decompresses to: the content of its first
/// member; nothing where the data is not gzip data.
pub uninterp spec fn gunzip_of(data: Seq<u8>) -> Option<Seq<u8>>;

/// What `inflate` returned, as plain values.
pub open spec fn inflated(out: Option<Vec<u8>>) -> Option<Seq<u8>> {
    match out {
        Some(bytes) => Some(bytes@),
        None => None,
    }
}

/// Reads `data` to its end through `flate2::read::GzDecoder`, which
/// decompresses the first member of gzip data, and returns what was read, or
/// nothing where the decoder reports an error.
///
/// Not proved here: that what comes back depends on the data alone. What the
/// content is is not stated; `gunzip_of` is the name of the result.
#[verifier::external_body]
fn inflate(data: &[u8]) -> (out: Option<Vec<u8>>)
    ensures
        inflated(out) == gunzip_of(data@),
{
    let mut out = Vec::new();
    match std::io::Read::read_to_end(&mut flate2::read::GzDecoder::new(data), &mut out) {
        Ok(_) => Some(out),
        Err(_) => None,
    }
}

/// The content of a compressed dump file. Data that cannot be decompressed
/// is an input failure.
pub fn decompress(data: &[u8]) -> (content: Result<Vec<u8>, Error>)
    ensures
        content is Ok <==> gunzip_of(data@) is Some,
        content matches Ok(bytes) ==> gunzip_of(data@) == Some(bytes@),
        content matches Err(e) ==> e == Error::IoError,
{
    match inflate(data) {
        Some(bytes) => Ok(bytes),
        None => Err(Error::IoError),
    }
}

} // verus!
