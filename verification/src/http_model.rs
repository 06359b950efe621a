//! What the `http` crate decides about methods, URIs, header names and values
//! and status codes, on plain bytes and integers.
use vstd::prelude::*;
use crate::text::{all_ascii, ascii_bytes};

verus! {

/// A byte that `http::HeaderName::from_bytes` accepts in a header name.
pub open spec fn is_header_name_byte(b: u8) -> bool {
    ||| b == 33 || b == 34
    ||| 35 <= b <= 39
    ||| b == 42 || b == 43 || b == 45 || b == 46
    ||| 48 <= b <= 57
    ||| 65 <= b <= 90
    ||| 94 <= b <= 96
    ||| 97 <= b <= 122
    ||| b == 124 || b == 126
}

/// ASCII lowercase of one byte.
pub open spec fn lower_byte(b: u8) -> u8 {
    if 65 <= b <= 90 {
        (b + 32) as u8
    } else {
        b
    }
}

pub open spec fn lower_bytes(s: Seq<u8>) -> Seq<u8> {
    s.map_values(|b: u8| lower_byte(b))
}

/// The header name that `http::HeaderName::from_bytes` makes of `s`: between
/// 1 and 65535 bytes, each a header name byte, stored in lowercase.
pub open spec fn header_name_spec(s: Seq<u8>) -> Option<Seq<u8>> {
    if 1 <= s.len() <= 65535 && forall|i: int| 0 <= i < s.len() ==> is_header_name_byte(#[trigger] s[i]) {
        Some(lower_bytes(s))
    } else {
        None
    }
}

/// A byte that `http::HeaderValue::from_bytes` accepts.
pub open spec fn is_header_value_byte(b: u8) -> bool {
    (b >= 32 && b != 127) || b == 9
}

pub open spec fn header_value_ok(s: Seq<u8>) -> bool {
    forall|i: int| 0 <= i < s.len() ==> is_header_value_byte(#[trigger] s[i])
}

/// A byte that `http::Method::from_bytes` accepts.
pub open spec fn is_method_byte(b: u8) -> bool {
    ||| b == 33 || b == 42 || b == 43 || b == 45 || b == 46
    ||| 48 <= b <= 57
    ||| 65 <= b <= 90
    ||| 94 <= b <= 96
    ||| 97 <= b <= 122
    ||| b == 124 || b == 126
}

/// `http::Method::from_bytes` accepts a non-empty run of method bytes.
pub open spec fn method_ok(s: Seq<u8>) -> bool {
    s.len() > 0 && forall|i: int| 0 <= i < s.len() ==> is_method_byte(#[trigger] s[i])
}

/// `http::StatusCode::from_u16` accepts the codes from 100 to 999.
pub open spec fn status_ok(code: u16) -> bool {
    100 <= code < 1000
}

/// A byte of a canonical reason phrase: a letter, a space, `-` or `'`.
pub open spec fn is_reason_byte(b: u8) -> bool {
    (65 <= b <= 90) || (97 <= b <= 122) || b == 32 || b == 45 || b == 39
}

/// The text that `{}` prints for the `http::Uri` parsed from `path`, or `None`
/// where `http` refuses the bytes as a URI.
pub uninterp spec fn uri_text(path: Seq<u8>) -> Option<Seq<u8>>;

/// The canonical reason phrase that `http::StatusCode::canonical_reason` gives
/// for a status code, if the code has one.
pub uninterp spec fn reason_phrase(code: u16) -> Option<Seq<u8>>;

/// Calls `http::HeaderName::from_bytes` and gives back the normalized name.
/// The contract restates the crate's table of name bytes and its lowercasing.
#[verifier::external_body]
pub(crate) fn header_name_from_bytes(s: &[u8]) -> (r: Option<Vec<u8>>)
    ensures
        r.is_some() == header_name_spec(s@).is_some(),
        r matches Some(n) ==> header_name_spec(s@) == Some(n@),
{
    http::HeaderName::from_bytes(s).ok().map(|n| n.as_str().as_bytes().to_vec())
}

/// Calls `http::HeaderValue::from_bytes` and reports whether it accepted the
/// bytes: every byte a tab or at least 32 and not 127.
#[verifier::external_body]
pub(crate) fn header_value_from_bytes(s: &[u8]) -> (r: bool)
    ensures
        r == header_value_ok(s@),
{
    http::HeaderValue::from_bytes(s).is_ok()
}

/// Calls `http::Method::from_bytes` and gives back the method's text, which is
/// the input itself when the crate accepts it.
#[verifier::external_body]
pub(crate) fn method_from_bytes(s: &[u8]) -> (r: Option<Vec<u8>>)
    ensures
        r.is_some() == method_ok(s@),
        r matches Some(m) ==> m@ == s@,
{
    http::Method::from_bytes(s).ok().map(|m| m.as_str().as_bytes().to_vec())
}

/// Parses `path` as an `http::Uri` and gives back what `{}` prints of it. The
/// text is named by `uri_text`; the crate's tables only admit ASCII bytes in
/// every part of a URI it keeps, which the second clause states.
#[verifier::external_body]
pub(crate) fn uri_from_bytes(path: &[u8]) -> (r: Option<Vec<u8>>)
    ensures
        r.is_some() == uri_text(path@).is_some(),
        r matches Some(u) ==> uri_text(path@) == Some(u@) && all_ascii(u@),
{
    http::Uri::try_from(path).ok().map(|u| u.to_string().into_bytes())
}

/// Calls `http::StatusCode::from_u16` and reports whether the code was accepted.
#[verifier::external_body]
pub(crate) fn status_from_u16(code: u16) -> (r: bool)
    ensures
        r == status_ok(code),
{
    http::StatusCode::from_u16(code).is_ok()
}

/// Calls `http::StatusCode::canonical_reason` for a valid status code. The
/// phrase is named by `reason_phrase`; every phrase in the crate's table is
/// made of letters, spaces, `-` and `'`, which the second clause states.
#[verifier::external_body]
pub(crate) fn canonical_reason(code: u16) -> (r: Option<Vec<u8>>)
    requires
        status_ok(code),
    ensures
        r.is_some() == reason_phrase(code).is_some(),
        r matches Some(p) ==> reason_phrase(code) == Some(p@)
            && forall|i: int| 0 <= i < p@.len() ==> is_reason_byte(#[trigger] p@[i]),
{
    http::StatusCode::from_u16(code).ok().and_then(|s| s.canonical_reason()).map(|p| p.as_bytes().to_vec())
}

/// What `{:?}` prints for `http::Version::HTTP_11`: `HTTP/1.1`.
#[verifier::external_body]
pub(crate) fn http11_text() -> (r: Vec<u8>)
    ensures
        r@ == ascii_bytes("HTTP/1.1"@),
        all_ascii(r@),
{
    format!("{:?}", http::Version::HTTP_11).into_bytes()
}

/// Whether `http` accepts these bytes as a header value.
pub fn is_valid_header_value(value: &[u8]) -> (r: bool)
    ensures
        r == header_value_ok(value@),
{
    header_value_from_bytes(value)
}

} // verus!
