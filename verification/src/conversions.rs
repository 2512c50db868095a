//! The standard-library calls whose behaviour vstd does not specify, each
//! behind a small function whose contract is taken on trust.
use vstd::prelude::*;
use vstd::string::StringSliceAdditionalSpecFns;
use vstd::utf8::*;

verus! {

/// `std::path::PathBuf`, carried opaquely.
#[verifier::external_type_specification]
#[verifier::external_body]
pub struct ExPathBuf(std::path::PathBuf);

/// `std::path::Path`, carried opaquely.
#[verifier::external_type_specification]
#[verifier::external_body]
pub struct ExPath(std::path::Path);

/// `std::io::Error`, carried opaquely.
#[verifier::external_type_specification]
#[verifier::external_body]
pub struct ExIoError(std::io::Error);

/// The path slice that `PathBuf::as_path` gives for a path buffer.
pub uninterp spec fn path_slice(p: &std::path::PathBuf) -> &std::path::Path;

/// Calls `PathBuf::as_path`.
///
/// Trusted claim: the result is the buffer's path as a slice, named
/// `path_slice`; the standard library documents `as_path` as coercing the
/// buffer to a `Path`, a function of the buffer alone. Nothing more is said
/// of the slice.
#[verifier::external_body]
pub(crate) fn path_buf_as_path(p: &std::path::PathBuf) -> (r: &std::path::Path)
    ensures
        r == path_slice(p),
{
    p.as_path()
}

/// `std::str::Utf8Error`, carried opaquely.
#[verifier::external_type_specification]
#[verifier::external_body]
pub struct ExUtf8Error(std::str::Utf8Error);

/// Calls `std::str::from_utf8`.
///
/// Trusted claim: the call succeeds exactly when `bytes` is well-formed UTF-8
/// (the standard library documents that it returns an error otherwise), and on
/// success the returned string slice consists of exactly those bytes.
#[verifier::external_body]
pub(crate) fn str_from_utf8<'a>(bytes: &'a [u8]) -> (r: Result<&'a str, std::str::Utf8Error>)
    ensures
        r is Ok <==> valid_utf8(bytes@),
        r matches Ok(s) ==> s.spec_bytes() == bytes@,
{
    std::str::from_utf8(bytes)
}

/// Calls `String::push`.
///
/// Trusted claim: the character is appended at the end of the string.
#[verifier::external_body]
pub(crate) fn string_push(s: &mut String, ch: char)
    ensures
        final(s)@ == old(s)@.push(ch),
{
    s.push(ch)
}

/// Calls `String::pop`.
///
/// Trusted claim: an empty string is left as it is and `None` comes back;
/// otherwise the last character is removed and returned.
#[verifier::external_body]
pub(crate) fn string_pop(s: &mut String) -> (r: Option<char>)
    ensures
        old(s)@.len() == 0 ==> r is None && final(s)@ == old(s)@,
        old(s)@.len() > 0 ==> r == Some(old(s)@.last()) && final(s)@ == old(s)@.drop_last(),
{
    s.pop()
}

/// Calls `Utf8Error`'s `Display` implementation (through `to_string`).
/// Nothing is claimed of the message.
#[verifier::external_body]
pub(crate) fn utf8_error_message(e: &std::str::Utf8Error) -> String {
    e.to_string()
}

} // verus!
