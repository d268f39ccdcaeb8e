//! Identifiers. Every platform, interceptor and threat is named by a UUID,
//! held here as its 128-bit big-endian value.

use vstd::prelude::*;

verus! {

/// Lower-case hexadecimal digit for a value below sixteen.
pub open spec fn hex_digit(d: int) -> char {
    if d < 10 {
        (d + 48) as char
    } else {
        (d + 87) as char
    }
}

/// The `k`-th hexadecimal digit of `id`, counting from the most significant one.
pub open spec fn nibble(id: u128, k: int) -> int {
    (id as int / vstd::arithmetic::power::pow(16, (31 - k) as nat)) % 16
}

/// `len` hexadecimal digits of `id`, starting at digit `from`.
pub open spec fn hex_run(id: u128, from: int, len: nat) -> Seq<char> {
    Seq::new(len, |i: int| hex_digit(nibble(id, from + i)))
}

/// The hyphenated lower-case text of a UUID: groups of 8, 4, 4, 4 and 12 digits.
pub open spec fn uuid_text_spec(id: u128) -> Seq<char> {
    hex_run(id, 0, 8) + seq!['-'] + hex_run(id, 8, 4) + seq!['-'] + hex_run(id, 12, 4)
        + seq!['-'] + hex_run(id, 16, 4) + seq!['-'] + hex_run(id, 20, 12)
}

/// A version-4 UUID: version nibble 4 and variant bits binary 10, hence never nil.
pub open spec fn is_v4_id(id: u128) -> bool {
    &&& (id >> 76u128) & 0xfu128 == 4
    &&& (id >> 62u128) & 0x3u128 == 2
    &&& id != 0
}

/// A fresh random identifier from `uuid::Uuid::new_v4`.
///
/// Trusted: the value is random; all that is claimed is what the uuid crate
/// fixes in every version-4 UUID, namely the version nibble (4) and the two
/// variant bits (binary 10). In particular the result is never the nil UUID.
#[verifier::external_body]
pub(crate) fn fresh_id() -> (id: u128)
    ensures
        is_v4_id(id),
{
    uuid::Uuid::new_v4().as_u128()
}

/// Text of a UUID, through `Display` of `uuid::Uuid`.
///
/// Trusted: the uuid crate formats a UUID as its hyphenated lower-case
/// hexadecimal form, which is what `uuid_text_spec` spells out.
#[verifier::external_body]
pub(crate) fn uuid_text(id: u128) -> (s: String)
    ensures
        s@ == uuid_text_spec(id),
{
    uuid::Uuid::from_u128(id).to_string()
}

} // verus!
