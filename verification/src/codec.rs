//! The transport encoding of stored objects: a zlib stream.

use crate::errors::{DecodeError, IoError};
use vstd::prelude::*;

verus! {

/// What a zlib stream decodes to: the bytes that it holds, or the way in which
/// it fails. Decoding is the work of the `flate2` crate and is not modelled
/// here; this only names its outcome.
pub uninterp spec fn zlib_inflated(stream: Seq<u8>) -> Result<Seq<u8>, DecodeError>;

/// `data` is what `stream` decodes to.
pub open spec fn decodes_to(stream: Seq<u8>, data: Seq<u8>) -> bool {
    zlib_inflated(stream) == Ok::<Seq<u8>, DecodeError>(data)
}

/// What compressing `data` comes to: the zlib stream that the compressor
/// writes, or the kind of its failure. Compressing is the work of the `flate2`
/// crate and is not modelled here; this only names its outcome.
pub uninterp spec fn zlib_deflated(data: Seq<u8>) -> Result<Seq<u8>, IoError>;

/// `flate2::write::ZlibEncoder` at the default level, fed all of `data` and
/// then finished. Believed of it, not proved: the stream that it wrote, or
/// the kind of its failure, is what `zlib_deflated` names for the same data,
/// and a stream that it wrote decodes to `data` again. Whether it succeeds is
/// not said.
#[verifier::external_body]
pub(crate) fn deflate(data: &[u8]) -> (res: Result<Vec<u8>, IoError>)
    ensures
        match res {
            Ok(stream) => zlib_deflated(data@) == Ok::<Seq<u8>, IoError>(stream@),
            Err(e) => zlib_deflated(data@) == Err::<Seq<u8>, IoError>(e),
        },
        res matches Ok(stream) ==> decodes_to(stream@, data@),
{
    let mut encoder = flate2::write::ZlibEncoder::new(Vec::new(), flate2::Compression::default());
    let finished = match std::io::Write::write_all(&mut encoder, data) {
        Ok(()) => encoder.finish(),
        Err(e) => Err(e),
    };
    match finished {
        Ok(stream) => Ok(stream),
        Err(e) => match e.kind() {
            std::io::ErrorKind::NotFound => Err(IoError::NotFound),
            std::io::ErrorKind::PermissionDenied => Err(IoError::Permission),
            _ => Err(IoError::Other),
        },
    }
}

/// Compresses `data` into a zlib stream. It returns what the compressor
/// makes of `data`: its stream, which decodes to `data` again, or the kind of
/// its failure.
pub fn zlib_encode(data: &[u8]) -> (res: Result<Vec<u8>, IoError>)
    ensures
        match res {
            Ok(stream) => zlib_deflated(data@) == Ok::<Seq<u8>, IoError>(stream@),
            Err(e) => zlib_deflated(data@) == Err::<Seq<u8>, IoError>(e),
        },
        res matches Ok(stream) ==> decodes_to(stream@, data@),
{
    deflate(data)
}

} // verus!
