//! The two calls that turn an artifact's bytes into text: zstd
//! decompression and UTF-8 validation.
use std::io::Error as IoError;
use std::string::FromUtf8Error;
use vstd::prelude::*;
use vstd::utf8::{encode_utf8, valid_utf8};

verus! {

/// The error `zstd::decode_all` reports.
#[verifier::external_type_specification]
#[verifier::external_body]
pub struct ExIoError(IoError);

/// The error `String::from_utf8` reports.
#[verifier::external_type_specification]
#[verifier::external_body]
pub struct ExFromUtf8Error(FromUtf8Error);

/// What zstd decompression of `compressed` yields: the decompressed bytes,
/// or `None` when the input is not a well-formed sequence of zstd frames.
pub uninterp spec fn zstd_decoded(compressed: Seq<u8>) -> Option<Seq<u8>>;

/// Decompresses with `zstd::decode_all`. Trusted: the result depends on the
/// input bytes alone, so it is named `zstd_decoded(bytes)`; what those bytes
/// are is the zstd format's business and is not stated here.
#[verifier::external_body]
pub(crate) fn zstd_decode_all(bytes: &[u8]) -> (r: Result<Vec<u8>, IoError>)
    ensures
        r is Ok <==> zstd_decoded(bytes@) is Some,
        r matches Ok(v) ==> zstd_decoded(bytes@) == Some(v@),
{
    zstd::decode_all(bytes)
}

/// Validates with `String::from_utf8`. Trusted: as std documents it, the
/// call succeeds exactly on valid UTF-8, and the string then holds exactly
/// the given bytes.
#[verifier::external_body]
pub(crate) fn string_from_utf8(bytes: Vec<u8>) -> (r: Result<String, FromUtf8Error>)
    ensures
        r is Ok <==> valid_utf8(bytes@),
        r matches Ok(s) ==> encode_utf8(s@) == bytes@,
{
    String::from_utf8(bytes)
}

/// What zstd compression of `data` at `level` yields.
pub uninterp spec fn zstd_encoded(data: Seq<u8>, level: i32) -> Seq<u8>;

/// Compresses with `zstd::encode_all`. Trusted: reading from an in-memory
/// slice and writing into a `Vec` at a valid level, the call succeeds (the
/// source leaves only the zstd library's own allocation failure, which, like
/// an allocation failure in Rust, is not treated as an outcome here); the
/// output depends on the data and the level alone, so it is named
/// `zstd_encoded(data, level)`, and, being a zstd frame of the data, it
/// decompresses to the data again.
#[verifier::external_body]
pub(crate) fn zstd_encode_all(data: &[u8], level: i32) -> (r: Result<Vec<u8>, IoError>)
    requires
        1 <= level <= 19,
    ensures
        r is Ok,
        r matches Ok(c) ==> c@ == zstd_encoded(data@, level) && zstd_decoded(c@) == Some(data@),
{
    zstd::encode_all(data, level)
}

/// The text `Display` writes for a `std::io::Error`. Trusted to return the
/// text only; what it says is the error's (and, for errors of the operating
/// system, the system's) business and is not stated.
#[verifier::external_body]
pub(crate) fn io_error_text(e: &IoError) -> (r: String) {
    format!("{e}")
}

/// The text `Display` writes for a `std::string::FromUtf8Error`. Trusted to
/// return the text only; it is not stated.
#[verifier::external_body]
pub(crate) fn utf8_error_text(e: &FromUtf8Error) -> (r: String) {
    format!("{e}")
}

} // verus!
