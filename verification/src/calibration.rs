//! Calibration digits: the first and last digit hidden in a line of
//! text, where a digit may be written as `1`..`9` or spelled out as
//! `one`..`nine`.
//!
//! A line's calibration value is ten times its first digit plus its
//! last; the functions here find both over the line's bytes.

use vstd::prelude::*;
use vstd::slice::slice_subrange;

verus! {

/// The digit a byte sequence starts with: a spelled-out word
/// `one`..`nine` or a digit character `1`..`9` as its prefix.
pub open spec fn spec_digit_forward(s: Seq<u8>) -> Option<u8> {
    if s.len() >= 3 && s[0] == 111u8 && s[1] == 110u8 && s[2] == 101u8 {
        Some(1u8)  // one
    } else if s.len() >= 3 && s[0] == 116u8 && s[1] == 119u8 && s[2] == 111u8 {
        Some(2u8)  // two
    } else if s.len() >= 5 && s[0] == 116u8 && s[1] == 104u8 && s[2] == 114u8 && s[3] == 101u8
        && s[4] == 101u8 {
        Some(3u8)  // three
    } else if s.len() >= 4 && s[0] == 102u8 && s[1] == 111u8 && s[2] == 117u8 && s[3] == 114u8 {
        Some(4u8)  // four
    } else if s.len() >= 4 && s[0] == 102u8 && s[1] == 105u8 && s[2] == 118u8 && s[3] == 101u8 {
        Some(5u8)  // five
    } else if s.len() >= 3 && s[0] == 115u8 && s[1] == 105u8 && s[2] == 120u8 {
        Some(6u8)  // six
    } else if s.len() >= 5 && s[0] == 115u8 && s[1] == 101u8 && s[2] == 118u8 && s[3] == 101u8
        && s[4] == 110u8 {
        Some(7u8)  // seven
    } else if s.len() >= 5 && s[0] == 101u8 && s[1] == 105u8 && s[2] == 103u8 && s[3] == 104u8
        && s[4] == 116u8 {
        Some(8u8)  // eight
    } else if s.len() >= 4 && s[0] == 110u8 && s[1] == 105u8 && s[2] == 110u8 && s[3] == 101u8 {
        Some(9u8)  // nine
    } else if s.len() >= 1 && 49 <= s[0] && s[0] <= 57 {
        Some((s[0] - 48) as u8)  // '1'..'9'
    } else {
        Option::None
    }
}

/// The digit a byte sequence ends with: a spelled-out word `one`..`nine`
/// or a digit character `1`..`9` as its suffix.
pub open spec fn spec_digit_backward(s: Seq<u8>) -> Option<u8> {
    let l = s.len() as int;
    if l >= 3 && s[l - 3] == 111u8 && s[l - 2] == 110u8 && s[l - 1] == 101u8 {
        Some(1u8)  // one
    } else if l >= 3 && s[l - 3] == 116u8 && s[l - 2] == 119u8 && s[l - 1] == 111u8 {
        Some(2u8)  // two
    } else if l >= 5 && s[l - 5] == 116u8 && s[l - 4] == 104u8 && s[l - 3] == 114u8 && s[l - 2]
        == 101u8 && s[l - 1] == 101u8 {
        Some(3u8)  // three
    } else if l >= 4 && s[l - 4] == 102u8 && s[l - 3] == 111u8 && s[l - 2] == 117u8 && s[l - 1]
        == 114u8 {
        Some(4u8)  // four
    } else if l >= 4 && s[l - 4] == 102u8 && s[l - 3] == 105u8 && s[l - 2] == 118u8 && s[l - 1]
        == 101u8 {
        Some(5u8)  // five
    } else if l >= 3 && s[l - 3] == 115u8 && s[l - 2] == 105u8 && s[l - 1] == 120u8 {
        Some(6u8)  // six
    } else if l >= 5 && s[l - 5] == 115u8 && s[l - 4] == 101u8 && s[l - 3] == 118u8 && s[l - 2]
        == 101u8 && s[l - 1] == 110u8 {
        Some(7u8)  // seven
    } else if l >= 5 && s[l - 5] == 101u8 && s[l - 4] == 105u8 && s[l - 3] == 103u8 && s[l - 2]
        == 104u8 && s[l - 1] == 116u8 {
        Some(8u8)  // eight
    } else if l >= 4 && s[l - 4] == 110u8 && s[l - 3] == 105u8 && s[l - 2] == 110u8 && s[l - 1]
        == 101u8 {
        Some(9u8)  // nine
    } else if l >= 1 && 49 <= s[l - 1] && s[l - 1] <= 57 {
        Some((s[l - 1] - 48) as u8)  // '1'..'9'
    } else {
        Option::None
    }
}

/// `v` is the first digit of the line: some tail of the line starts with
/// it, and no earlier tail starts with any digit.
pub open spec fn first_forward_digit(s: Seq<u8>, v: u8) -> bool {
    exists|i: int|
        0 <= i < s.len() && #[trigger] spec_digit_forward(s.subrange(i, s.len() as int)) == Some(
            v,
        ) && forall|j: int|
            0 <= j < i ==> spec_digit_forward(s.subrange(j, s.len() as int)) is None
}

/// `v` is the last digit of the line: some head of the line ends with
/// it, and no longer head ends with any digit.
pub open spec fn last_backward_digit(s: Seq<u8>, v: u8) -> bool {
    exists|i: int|
        1 <= i <= s.len() && #[trigger] spec_digit_backward(s.subrange(0, i)) == Some(v)
            && forall|j: int| i < j <= s.len() ==> spec_digit_backward(s.subrange(0, j)) is None
}

/// Some tail of the line starts with a digit.
pub open spec fn has_forward_digit(s: Seq<u8>) -> bool {
    exists|i: int|
        0 <= i < s.len() && #[trigger] spec_digit_forward(s.subrange(i, s.len() as int)) is Some
}

/// Some head of the line ends with a digit.
pub open spec fn has_backward_digit(s: Seq<u8>) -> bool {
    exists|i: int| 1 <= i <= s.len() && #[trigger] spec_digit_backward(s.subrange(0, i)) is Some
}

/// The digit the line starts with, spelled out or as a character, or
/// `None`.
pub fn digit_forward(s: &[u8]) -> (r: Option<u8>)
    ensures
        r == spec_digit_forward(s@),
{
    if s.len() >= 3 && s[0] == 111 && s[1] == 110 && s[2] == 101 {
        Some(1)
    } else if s.len() >= 3 && s[0] == 116 && s[1] == 119 && s[2] == 111 {
        Some(2)
    } else if s.len() >= 5 && s[0] == 116 && s[1] == 104 && s[2] == 114 && s[3] == 101 && s[4]
        == 101 {
        Some(3)
    } else if s.len() >= 4 && s[0] == 102 && s[1] == 111 && s[2] == 117 && s[3] == 114 {
        Some(4)
    } else if s.len() >= 4 && s[0] == 102 && s[1] == 105 && s[2] == 118 && s[3] == 101 {
        Some(5)
    } else if s.len() >= 3 && s[0] == 115 && s[1] == 105 && s[2] == 120 {
        Some(6)
    } else if s.len() >= 5 && s[0] == 115 && s[1] == 101 && s[2] == 118 && s[3] == 101 && s[4]
        == 110 {
        Some(7)
    } else if s.len() >= 5 && s[0] == 101 && s[1] == 105 && s[2] == 103 && s[3] == 104 && s[4]
        == 116 {
        Some(8)
    } else if s.len() >= 4 && s[0] == 110 && s[1] == 105 && s[2] == 110 && s[3] == 101 {
        Some(9)
    } else if s.len() >= 1 && 49 <= s[0] && s[0] <= 57 {
        Some(s[0] - 48)
    } else {
        None
    }
}

/// The digit the line ends with, spelled out or as a character, or
/// `None`.
pub fn digit_backward(s: &[u8]) -> (r: Option<u8>)
    ensures
        r == spec_digit_backward(s@),
{
    let l = s.len();
    if l >= 3 && s[l - 3] == 111 && s[l - 2] == 110 && s[l - 1] == 101 {
        Some(1)
    } else if l >= 3 && s[l - 3] == 116 && s[l - 2] == 119 && s[l - 1] == 111 {
        Some(2)
    } else if l >= 5 && s[l - 5] == 116 && s[l - 4] == 104 && s[l - 3] == 114 && s[l - 2] == 101
        && s[l - 1] == 101 {
        Some(3)
    } else if l >= 4 && s[l - 4] == 102 && s[l - 3] == 111 && s[l - 2] == 117 && s[l - 1] == 114 {
        Some(4)
    } else if l >= 4 && s[l - 4] == 102 && s[l - 3] == 105 && s[l - 2] == 118 && s[l - 1] == 101 {
        Some(5)
    } else if l >= 3 && s[l - 3] == 115 && s[l - 2] == 105 && s[l - 1] == 120 {
        Some(6)
    } else if l >= 5 && s[l - 5] == 115 && s[l - 4] == 101 && s[l - 3] == 118 && s[l - 2] == 101
        && s[l - 1] == 110 {
        Some(7)
    } else if l >= 5 && s[l - 5] == 101 && s[l - 4] == 105 && s[l - 3] == 103 && s[l - 2] == 104
        && s[l - 1] == 116 {
        Some(8)
    } else if l >= 4 && s[l - 4] == 110 && s[l - 3] == 105 && s[l - 2] == 110 && s[l - 1] == 101 {
        Some(9)
    } else if l >= 1 && 49 <= s[l - 1] && s[l - 1] <= 57 {
        Some(s[l - 1] - 48)
    } else {
        None
    }
}

/// The first digit of the line, scanning tails left to right.
pub fn search_digit_forward(s: &[u8]) -> (r: u8)
    requires
        has_forward_digit(s@),
    ensures
        first_forward_digit(s@, r),
{
    let len = s.len();
    let mut i: usize = 0;
    while i < len
        invariant
            i <= len,
            len == s@.len(),
            has_forward_digit(s@),
            forall|j: int|
                0 <= j < i ==> spec_digit_forward(s@.subrange(j, s@.len() as int)) is None,
        decreases len - i,
    {
        let digit = digit_forward(slice_subrange(s, i, len));
        match digit {
            Some(v) => {
                return v;
            },
            None => (),
        }
        i = i + 1;
    }
    proof {
        assert(false);
    }
    0
}

/// The last digit of the line, scanning heads right to left.
pub fn search_digit_backward(s: &[u8]) -> (r: u8)
    requires
        has_backward_digit(s@),
    ensures
        last_backward_digit(s@, r),
{
    let len = s.len();
    let mut i: usize = len;
    while i >= 1
        invariant
            i <= len,
            len == s@.len(),
            has_backward_digit(s@),
            forall|j: int| i < j <= len ==> spec_digit_backward(s@.subrange(0, j)) is None,
        decreases i,
    {
        let digit = digit_backward(slice_subrange(s, 0, i));
        match digit {
            Some(v) => {
                return v;
            },
            None => (),
        }
        i = i - 1;
    }
    proof {
        assert(false);
    }
    0
}

/// The calibration value of a line: ten times its first digit plus its
/// last digit.
pub fn integer_from_line_slice(s: &[u8]) -> (r: u8)
    requires
        has_forward_digit(s@),
        has_backward_digit(s@),
    ensures
        exists|f: u8, l: u8|
            #[trigger] first_forward_digit(s@, f) && #[trigger] last_backward_digit(s@, l) && r
                == 10 * f + l,
{
    let first_digit: u8 = search_digit_forward(s);
    let last_digit: u8 = search_digit_backward(s);
    proof {
        assert(first_digit <= 9 && last_digit >= 1 && last_digit <= 9) by {
            let i = choose|i: int|
                0 <= i < s@.len() && #[trigger] spec_digit_forward(
                    s@.subrange(i, s@.len() as int),
                ) == Some(first_digit) && forall|j: int|
                    0 <= j < i ==> spec_digit_forward(s@.subrange(j, s@.len() as int)) is None;
            let k = choose|k: int|
                1 <= k <= s@.len() && #[trigger] spec_digit_backward(s@.subrange(0, k)) == Some(
                    last_digit,
                ) && forall|j: int|
                    k < j <= s@.len() ==> spec_digit_backward(s@.subrange(0, j)) is None;
        }
    }
    first_digit * 10 + last_digit
}

} // verus!
