//! Item priorities: lowercase items score 1..=26, uppercase items 27..=52.

use vstd::prelude::*;

verus! {

/// ASCII code of `'A'`.
pub const UPPER_A: u8 = 65;

/// ASCII code of `'Z'`.
pub const UPPER_Z: u8 = 90;

/// ASCII code of `'a'`.
pub const LOWER_A: u8 = 97;

/// ASCII code of `'z'`.
pub const LOWER_Z: u8 = 122;

/// An ASCII letter, the only items a rucksack can hold.
pub open spec fn is_item(b: u8) -> bool {
    (LOWER_A <= b && b <= LOWER_Z) || (UPPER_A <= b && b <= UPPER_Z)
}

/// The priority of an item: `a..z` map to 1..26, `A..Z` to 27..52.
pub open spec fn spec_priority(b: u8) -> int {
    if UPPER_A <= b && b <= UPPER_Z {
        b - UPPER_A + 27
    } else {
        b - LOWER_A + 1
    }
}

/// Scores one item.
pub fn priority_value(item: u8) -> (r: u8)
    requires
        is_item(item),
    ensures
        r == spec_priority(item),
{
    if item >= UPPER_A && item <= UPPER_Z {
        item - UPPER_A + 27
    } else {
        item - LOWER_A + 1
    }
}

/// `b` occurs somewhere in `s`.
pub open spec fn slice_contains(s: Seq<u8>, b: u8) -> bool {
    exists|i: int| 0 <= i < s.len() && s[i] == b
}

/// Finds the first item of `left` that also occurs in `right`.
#[verifier::loop_isolation(false)]
pub fn common_item(left: &[u8], right: &[u8]) -> (r: Option<u8>)
    ensures
        match r {
            Some(b) => exists|i: int|
                0 <= i < left@.len() && left@[i] == b && slice_contains(right@, b) && (forall|
                    j: int,
                |
                    0 <= j < i ==> !slice_contains(right@, #[trigger] left@[j])),
            None => forall|i: int|
                0 <= i < left@.len() ==> !slice_contains(right@, #[trigger] left@[i]),
        },
{
    let n = left.len();
    let m = right.len();
    let mut i: usize = 0;
    while i < n
        invariant
            0 <= i <= n == left@.len(),
            m == right@.len(),
            forall|j: int| 0 <= j < i ==> !slice_contains(right@, #[trigger] left@[j]),
        decreases n - i,
    {
        let b = *vstd::slice::slice_index_get(left, i);
        let mut j: usize = 0;
        while j < m
            invariant
                0 <= j <= m == right@.len(),
                b == left@[i as int],
                0 <= i < left@.len(),
                forall|j2: int| 0 <= j2 < j ==> right@[j2] != b,
            decreases m - j,
        {
            if *vstd::slice::slice_index_get(right, j) == b {
                proof {
                    assert(right@[j as int] == b);
                    assert(slice_contains(right@, b));
                    assert(left@[i as int] == b && slice_contains(right@, b) && (forall|j2: int|
                        0 <= j2 < i ==> !slice_contains(right@, #[trigger] left@[j2])));
                }
                return Some(b);
            }
            j = j + 1;
        }
        proof {
            assert(!slice_contains(right@, b));
        }
        i = i + 1;
    }
    None
}

} // verus!
