//! Identifier types and their canonical human-readable form.
//!
//! Prefab assets, authored entities and component schemas are all named by
//! 128-bit values.  They are persisted as plain numbers and presented to
//! humans in the canonical hyphenated hexadecimal form.

use vstd::prelude::*;

verus! {

/// Global identifier of a prefab asset.
pub type AssetUuid = u128;

/// Identifier of an entity as authored inside one specific prefab
/// definition; stable across re-cooks.
pub type EntityUuid = u128;

/// Identifier naming a component definition schema.
pub type ComponentTypeUuid = u128;

/// The lower-case hexadecimal digit standing for `n` (`n < 16`).
pub open spec fn hex_digit_char(n: u128) -> char {
    if n == 0 { '0' } else if n == 1 { '1' } else if n == 2 { '2' }
    else if n == 3 { '3' } else if n == 4 { '4' } else if n == 5 { '5' }
    else if n == 6 { '6' } else if n == 7 { '7' } else if n == 8 { '8' }
    else if n == 9 { '9' } else if n == 10 { 'a' } else if n == 11 { 'b' }
    else if n == 12 { 'c' } else if n == 13 { 'd' } else if n == 14 { 'e' }
    else { 'f' }
}

/// Nibble `k` of `id`, counting from the most significant (`k == 0`) to the
/// least significant (`k == 31`).
pub open spec fn nibble_of(id: u128, k: int) -> u128 {
    (id >> (((31 - k) * 4) as u128)) & 0xf
}

/// Which nibble the character at position `i` of the canonical text shows.
/// Positions 8, 13, 18 and 23 hold hyphens and are skipped.
pub open spec fn nibble_index_at(i: int) -> int {
    if i < 8 { i } else if i < 13 { i - 1 } else if i < 18 { i - 2 }
    else if i < 23 { i - 3 } else { i - 4 }
}

/// The canonical hyphenated lower-case hexadecimal form of a 128-bit
/// identifier: 32 hexadecimal digits, most significant first, in groups of
/// 8-4-4-4-12 separated by hyphens.
pub open spec fn canonical_uuid_text(id: u128) -> Seq<char> {
    Seq::new(36, |i: int|
        if i == 8 || i == 13 || i == 18 || i == 23 { '-' }
        else { hex_digit_char(nibble_of(id, nibble_index_at(i))) })
}

/// Relies on `uuid::Uuid::from_u128` (big-endian bytes of the value) and its
/// hyphenated formatter: lower-case hexadecimal digits, most significant
/// nibble first, in groups of 8-4-4-4-12 separated by hyphens.
#[verifier::external_body]
pub(crate) fn uuid_to_canonical_text(id: u128) -> (r: String)
    ensures
        r@ == canonical_uuid_text(id),
{
    uuid::Uuid::from_u128(id).hyphenated().to_string()
}

} // verus!
