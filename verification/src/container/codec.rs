//! The outside pieces the container leans on: zstd compression of section
//! payloads, the opaque JSON value the caller stores as project metadata, and
//! the I/O error a short file produces.

use vstd::prelude::*;

verus! {

#[verifier::external_type_specification]
#[verifier::external_body]
pub struct ExJsonValue(serde_json::Value);

/// The zstd frame `zstd::encode_all` produces for `payload` at `level`.
pub uninterp spec fn zstd_encoded(payload: Seq<u8>, level: i32) -> Seq<u8>;

/// What `zstd::decode_all` gives back for `blob`: the decompressed bytes, or
/// `None` when it reports an error.
pub uninterp spec fn zstd_decoded(blob: Seq<u8>) -> Option<Seq<u8>>;

/// `zstd::encode_all` over an in-memory payload into a `Vec`: at an ordinary
/// compression level it succeeds (reading a slice and writing a `Vec` cannot
/// fail, and such a level is one zstd accepts); the result is the frame named
/// [`zstd_encoded`] for these arguments, and that frame decodes back to the
/// payload (zstd is lossless).
#[verifier::external_body]
pub(crate) fn zstd_encode(payload: &[u8], level: i32) -> (r: Result<Vec<u8>, std::io::Error>)
    ensures
        1 <= level <= 19 ==> r is Ok,
        r matches Ok(v) ==> v@ == zstd_encoded(payload@, level),
        r matches Ok(v) ==> zstd_decoded(v@) == Some(payload@),
{
    zstd::encode_all(payload, level)
}

/// `zstd::decode_all` over an in-memory blob: succeeds exactly when
/// [`zstd_decoded`] is `Some`, with those bytes.
#[verifier::external_body]
pub(crate) fn zstd_decode(blob: &[u8]) -> (r: Result<Vec<u8>, std::io::Error>)
    ensures
        match r {
            Ok(v) => zstd_decoded(blob@) == Some(v@),
            Err(_) => zstd_decoded(blob@) is None,
        },
{
    zstd::decode_all(blob)
}

/// `serde_json::Value::clone` (derived): an equal value.
#[verifier::external_body]
pub(crate) fn clone_value(v: &serde_json::Value) -> (r: serde_json::Value)
    ensures
        r == *v,
{
    v.clone()
}

/// The error `Read::read_exact` reports on a source that ends early
/// (`std::io::ErrorKind::UnexpectedEof`).
#[verifier::external_body]
pub(crate) fn unexpected_eof() -> (r: std::io::Error) {
    std::io::Error::from(std::io::ErrorKind::UnexpectedEof)
}

} // verus!
