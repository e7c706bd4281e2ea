//! Identifiers of contacts and groups: 128-bit values, written as UUIDs.
use vstd::prelude::*;
use vstd::arithmetic::power::pow;

verus! {

/// The identifier a text denotes as a UUID literal, if it is one.
pub uninterp spec fn parsed_identifier(s: Seq<char>) -> Option<u128>;

/// Relies on `uuid::Uuid::new_v4`: a fresh random identifier, taken as its
/// 128-bit value. Nothing is known of the value.
#[verifier::external_body]
pub(crate) fn fresh_identifier() -> (r: u128) {
    uuid::Uuid::new_v4().as_u128()
}

/// Relies on `uuid::Uuid::parse_str`: whether the text is a UUID literal, and
/// which, depends on the text alone.
#[verifier::external_body]
pub(crate) fn parse_identifier(s: &str) -> (r: Option<u128>)
    ensures
        r == parsed_identifier(s@),
{
    match uuid::Uuid::parse_str(s) {
        Ok(u) => Some(u.as_u128()),
        Err(_) => None,
    }
}

/// The lowercase hexadecimal digit for `n` in `0 .. 16`.
pub open spec fn hex_digit(n: int) -> char {
    seq!['0', '1', '2', '3', '4', '5', '6', '7', '8', '9', 'a', 'b', 'c', 'd', 'e', 'f'][n]
}

/// The hyphenated UUID text of an identifier: its 32 hexadecimal digits, most
/// significant first, in lowercase, with hyphens at positions 8, 13, 18 and 23.
pub open spec fn identifier_text_of(id: u128) -> Seq<char> {
    Seq::new(
        36,
        |i: int|
            if i == 8 || i == 13 || i == 18 || i == 23 {
                '-'
            } else {
                let j = if i < 8 {
                    i
                } else if i < 13 {
                    i - 1
                } else if i < 18 {
                    i - 2
                } else if i < 23 {
                    i - 3
                } else {
                    i - 4
                };
                hex_digit((id as int / pow(16, (31 - j) as nat)) % 16)
            },
    )
}

/// Relies on `Display` for `uuid::Uuid`: the hyphenated lowercase form of the
/// identifier's big-endian bytes.
#[verifier::external_body]
pub(crate) fn identifier_text(id: u128) -> (r: String)
    ensures
        r@ == identifier_text_of(id),
{
    uuid::Uuid::from_u128(id).to_string()
}

} // verus!
