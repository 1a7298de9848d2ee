//! Identifiers: 128-bit universally unique identifiers and their text.

use vstd::prelude::*;

use crate::outcome::{fails, yields};
use crate::text::digit_char;

verus! {

/// The `k`-th of the 32 hexadecimal digits of `id`, most significant first.
pub open spec fn id_digit(id: u128, k: int) -> char {
    digit_char((id as int / sixteen_to((31 - k) as nat)) % 16)
}

/// Sixteen to the power `n`.
pub open spec fn sixteen_to(n: nat) -> int
    decreases n,
{
    if n == 0 {
        1
    } else {
        16 * sixteen_to((n - 1) as nat)
    }
}

/// The text of an identifier: its digits, lower-case, in groups of eight,
/// four, four, four and twelve with hyphens between.
pub open spec fn id_text(id: u128) -> Seq<char> {
    Seq::new(
        36,
        |i: int|
            if i < 8 {
                id_digit(id, i)
            } else if i == 8 || i == 13 || i == 18 || i == 23 {
                '-'
            } else if i < 13 {
                id_digit(id, i - 1)
            } else if i < 18 {
                id_digit(id, i - 2)
            } else if i < 23 {
                id_digit(id, i - 3)
            } else {
                id_digit(id, i - 4)
            },
    )
}

/// What `Uuid::parse_str` makes of a text: the identifier, or the message of
/// its error.
pub uninterp spec fn id_parsed(text: Seq<char>) -> Result<u128, Seq<char>>;

/// `Uuid`'s `Display`: the hyphenated lower-case form. `Uuid::parse_str`
/// reads that form back to the same identifier.
#[verifier::external_body]
pub(crate) fn write_id(id: u128) -> (r: String)
    ensures
        r@ == id_text(id),
        yields(id_parsed(r@), id),
{
    uuid::Uuid::from_u128(id).to_string()
}

/// `Uuid::parse_str`: the identifier that a text names, or the message of the
/// error. Which texts it takes beyond the hyphenated form is left to `uuid`.
#[verifier::external_body]
pub(crate) fn parse_id(text: &str) -> (r: Result<u128, String>)
    ensures
        match r {
            Ok(id) => yields(id_parsed(text@), id),
            Err(e) => fails(id_parsed(text@), e@),
        },
{
    uuid::Uuid::parse_str(text).map(|u| u.as_u128()).map_err(|e| e.to_string())
}

/// Identifiers of version 4: the version digit is 4 and the two bits of the
/// variant are `10`.
pub open spec fn is_v4(id: u128) -> bool {
    (id / 0x1000_0000_0000_0000_0000) % 16 == 4 && (id / 0x4000_0000_0000_0000) % 4 == 2
}

/// `Uuid::new_v4`: some identifier of version 4. The other 122 bits are
/// random, so nothing is said of them.
#[verifier::external_body]
pub(crate) fn random_id() -> (r: u128)
    ensures
        is_v4(r),
{
    uuid::Uuid::new_v4().as_u128()
}

} // verus!
