//! Node labels: three capital letters read as a base-26 number.
//!
//! A network's nodes carry three-letter names; storing them in a flat
//! array needs each name turned into a unique index below `26^3`.

use vstd::prelude::*;
use vstd::string::StringSliceAdditionalSpecFns;

verus! {

/// The alphabet index of a capital letter, or `None` for any other
/// character.
pub open spec fn spec_char_index(c: char) -> Option<usize> {
    if 'A' <= c && c <= 'Z' {
        Some((c as int - 'A' as int) as usize)
    } else {
        Option::None
    }
}

/// The alphabet index of a capital letter `A..=Z` (0 to 25), or `None`
/// for any other character.
pub fn char_to_index(c: char) -> (r: Option<usize>)
    ensures
        r == spec_char_index(c),
{
    let index = (c as usize).wrapping_sub('A' as usize);
    if index < 26 {
        Some(index)
    } else {
        None
    }
}

/// The base-26 value of three capital-letter bytes.
pub open spec fn spec_node_index(b0: u8, b1: u8, b2: u8) -> usize {
    (((b0 - 65) * 26 + (b1 - 65)) * 26 + (b2 - 65)) as usize
}

/// Whether a byte spells a capital letter.
pub open spec fn is_capital(b: u8) -> bool {
    65 <= b <= 90
}

/// The unique index below `26 * 26 * 26` of a node named by exactly
/// three capital letters, reading the name as a base-26 number; `None`
/// for any other string.
pub fn node_string_to_index(node_string: &str) -> (r: Option<usize>)
    ensures
        ({
            let b = node_string.spec_bytes();
            if b.len() == 3 && is_capital(b[0]) && is_capital(b[1]) && is_capital(b[2]) {
                r == Some(spec_node_index(b[0], b[1], b[2]))
            } else {
                r is None
            }
        }),
{
    let bytes = node_string.as_bytes();
    if bytes.len() != 3 {
        return None;
    }
    let b0 = bytes[0];
    let b1 = bytes[1];
    let b2 = bytes[2];
    if b0 < 65 || b0 > 90 || b1 < 65 || b1 > 90 || b2 < 65 || b2 > 90 {
        return None;
    }
    let index: usize = (((b0 - 65) as usize * 26 + (b1 - 65) as usize) * 26 + (b2 - 65) as usize);
    Some(index)
}

} // verus!
