use vstd::prelude::*;
use std::io::Read;
use std::io::Write;

verus! {

/// What gzip compression at the default level yields on `data`. The
/// output is a function of the bytes alone: the stream's header fields
/// are fixed (zero timestamp), and the deflate stage is deterministic.
pub uninterp spec fn gzip_of(data: Seq<u8>) -> Seq<u8>;

/// What gzip decompression yields on `data`: the decompressed bytes, or
/// nothing when `data` is not a well-formed gzip stream.
pub uninterp spec fn gunzip_of(data: Seq<u8>) -> Option<Seq<u8>>;

/// The error type carried by failed outside compression calls.
#[verifier::external_type_specification]
#[verifier::external_body]
pub struct ExIoError(std::io::Error);

/// Relies on flate2's write::GzEncoder over a `Vec` writer: writing to a
/// vector cannot fail, so compression always succeeds; it is lossless,
/// so gzip decompression restores the bytes that were compressed.
#[verifier::external_body]
pub(crate) fn gzip_compress(data: &Vec<u8>) -> (r: Result<Vec<u8>, std::io::Error>)
    ensures
        r is Ok,
        r matches Ok(v) ==> v@ == gzip_of(data@),
        r matches Ok(v) ==> gunzip_of(v@) == Some(data@),
{
    let mut enc = flate2::write::GzEncoder::new(Vec::new(), flate2::Compression::default());
    enc.write_all(data.as_slice())?;
    enc.finish()
}

/// Relies on flate2's read::GzDecoder: reading it to the end decompresses
/// a well-formed gzip stream and rejects a malformed one.
#[verifier::external_body]
pub(crate) fn gzip_decompress(data: &Vec<u8>) -> (r: Result<Vec<u8>, std::io::Error>)
    ensures
        r matches Ok(v) ==> gunzip_of(data@) == Some(v@),
        r matches Err(e) ==> gunzip_of(data@) is None,
{
    let mut out = Vec::new();
    let mut dec = flate2::read::GzDecoder::new(data.as_slice());
    match dec.read_to_end(&mut out) {
        Ok(_) => Ok(out),
        Err(e) => Err(e),
    }
}

} // verus!
