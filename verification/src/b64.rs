//! Base64 text with the standard alphabet and padding.

use base64::engine::general_purpose::STANDARD;
use base64::Engine;
use vstd::prelude::*;

use crate::outcome::{fails, yields};

verus! {

/// The character of six bits.
pub open spec fn sextet_char(v: int) -> char {
    if v < 26 {
        (65 + v) as char
    } else if v < 52 {
        (71 + v) as char
    } else if v < 62 {
        (v - 4) as char
    } else if v == 62 {
        '+'
    } else {
        '/'
    }
}

/// The byte at `i`, zero beyond the end.
pub open spec fn byte_or_zero(bytes: Seq<u8>, i: int) -> int {
    if 0 <= i < bytes.len() {
        bytes[i] as int
    } else {
        0
    }
}

/// The `k`-th group of six bits.
pub open spec fn sextet(bytes: Seq<u8>, k: int) -> int {
    let j = 3 * (k / 4);
    let (a, b, c) = (
        byte_or_zero(bytes, j),
        byte_or_zero(bytes, j + 1),
        byte_or_zero(bytes, j + 2),
    );
    if k % 4 == 0 {
        a / 4
    } else if k % 4 == 1 {
        (a % 4) * 16 + b / 16
    } else if k % 4 == 2 {
        (b % 16) * 4 + c / 64
    } else {
        c % 64
    }
}

/// Four characters for every three bytes; the last group is filled up with
/// `=`.
pub open spec fn base64_text(bytes: Seq<u8>) -> Seq<char> {
    Seq::new(
        4 * ((bytes.len() + 2) / 3),
        |k: int|
            if 6 * k < 8 * bytes.len() {
                sextet_char(sextet(bytes, k))
            } else {
                '='
            },
    )
}

/// What the standard engine decodes a text to: bytes, or the message of its
/// error.
pub uninterp spec fn base64_decoded(text: Seq<char>) -> Result<Seq<u8>, Seq<char>>;

/// `STANDARD.encode` of `base64`: the padded text of the bytes, which
/// `STANDARD.decode` takes back.
#[verifier::external_body]
pub(crate) fn base64_encode(bytes: &[u8]) -> (r: String)
    ensures
        r@ == base64_text(bytes@),
        yields(base64_decoded(r@), bytes@),
{
    STANDARD.encode(bytes)
}

/// `STANDARD.decode` of `base64`: the bytes of the text, or the message of the
/// error.
#[verifier::external_body]
pub(crate) fn base64_decode(text: &str) -> (r: Result<Vec<u8>, String>)
    ensures
        match r {
            Ok(b) => yields(base64_decoded(text@), b@),
            Err(e) => fails(base64_decoded(text@), e@),
        },
{
    STANDARD.decode(text).map_err(|e| e.to_string())
}

} // verus!
