//! Assignment-range comparisons: each elf cleans an inclusive range of
//! section ids, and pairs of ranges are tested for containment and overlap.

use vstd::prelude::*;
use crate::text::all_decimal_digits;
use crate::text::decimal_value;
use crate::text::find_char_from;
use crate::text::parse_decimal;

verus! {

/// A non-empty run of decimal digits whose value fits in `u32`.
pub open spec fn valid_u32_decimal(s: Seq<char>) -> bool {
    s.len() > 0 && all_decimal_digits(s) && decimal_value(s) <= u32::MAX
}

/// `k` is the position of the first `sep` in `s`, and the text on either
/// side of it is a valid `u32` numeral.
pub open spec fn splits_at(s: Seq<char>, sep: char, k: int) -> bool {
    &&& 0 <= k < s.len()
    &&& s[k] == sep
    &&& forall|j: int| 0 <= j < k ==> s[j] != sep
}

/// The text denotes a range: `<low>-<high>`, both sides valid `u32` numerals.
pub open spec fn valid_range_text(s: Seq<char>) -> bool {
    exists|k: int|
        #[trigger] splits_at(s, '-', k) && valid_u32_decimal(s.subrange(0, k))
            && valid_u32_decimal(s.subrange(k + 1, s.len() as int))
}

/// The values denoted by a valid range text.
pub open spec fn range_values(s: Seq<char>, k: int) -> (u32, u32) {
    (
        decimal_value(s.subrange(0, k)) as u32,
        decimal_value(s.subrange(k + 1, s.len() as int)) as u32,
    )
}

/// Reads `<low>-<high>` into a pair of section ids.
pub fn parse_range(text: &str) -> (r: (u32, u32))
    requires
        valid_range_text(text@),
    ensures
        forall|k: int| splits_at(text@, '-', k) ==> r == range_values(text@, k),
{
    let len = text.unicode_len();
    let k = match find_char_from(text, '-', 0) {
        Some(k) => k,
        None => {
            proof {
                let k0 = choose|k0: int|
                    #[trigger] splits_at(text@, '-', k0) && valid_u32_decimal(
                        text@.subrange(0, k0),
                    ) && valid_u32_decimal(text@.subrange(k0 + 1, text@.len() as int));
                assert(text@[k0] == '-');
            }
            unreached()
        },
    };
    let ghost kk = choose|k0: int|
        #[trigger] splits_at(text@, '-', k0) && valid_u32_decimal(text@.subrange(0, k0))
            && valid_u32_decimal(text@.subrange(k0 + 1, text@.len() as int));
    proof {
        assert(kk == k) by {
            assert(text@[kk] == '-');
            assert(text@[k as int] == '-');
        }
    }
    let low = match parse_decimal(text, 0, k) {
        Some(v) => v,
        None => unreached(),
    };
    let high = match parse_decimal(text, k + 1, len) {
        Some(v) => v,
        None => unreached(),
    };
    proof {
        crate::text::lemma_decimal_value_nonneg(text@.subrange(0, k as int));
        crate::text::lemma_decimal_value_nonneg(text@.subrange(k + 1, text@.len() as int));
        assert forall|k0: int| splits_at(text@, '-', k0) implies k0 == k by {
            assert(text@[k0] == '-');
        }
    }
    (low as u32, high as u32)
}

/// The text denotes a pair of ranges: `<range>,<range>`.
pub open spec fn valid_pair_text(s: Seq<char>) -> bool {
    exists|k: int|
        #[trigger] splits_at(s, ',', k) && valid_range_text(s.subrange(0, k)) && valid_range_text(
            s.subrange(k + 1, s.len() as int),
        )
}

/// Reads `<a>-<b>,<c>-<d>` into two ranges.
pub fn parse_pair(text: &str) -> (r: ((u32, u32), (u32, u32)))
    requires
        valid_pair_text(text@),
    ensures
        forall|k: int, kl: int, kr: int|
            #[trigger] splits_at(text@, ',', k) && #[trigger] splits_at(
                text@.subrange(0, k),
                '-',
                kl,
            ) && #[trigger] splits_at(text@.subrange(k + 1, text@.len() as int), '-', kr) ==> r
                == (
                range_values(text@.subrange(0, k), kl),
                range_values(text@.subrange(k + 1, text@.len() as int), kr),
            ),
{
    let len = text.unicode_len();
    let k = match find_char_from(text, ',', 0) {
        Some(k) => k,
        None => {
            proof {
                let k0 = choose|k0: int|
                    #[trigger] splits_at(text@, ',', k0) && valid_range_text(
                        text@.subrange(0, k0),
                    ) && valid_range_text(text@.subrange(k0 + 1, text@.len() as int));
                assert(text@[k0] == ',');
            }
            unreached()
        },
    };
    let ghost kk = choose|k0: int|
        #[trigger] splits_at(text@, ',', k0) && valid_range_text(text@.subrange(0, k0))
            && valid_range_text(text@.subrange(k0 + 1, text@.len() as int));
    proof {
        assert(kk == k) by {
            assert(text@[kk] == ',');
            assert(text@[k as int] == ',');
        }
    }
    let left = text.substring_char(0, k);
    let right = text.substring_char(k + 1, len);
    let l = parse_range(left);
    let r = parse_range(right);
    proof {
        assert forall|k0: int| splits_at(text@, ',', k0) implies k0 == k by {
            assert(text@[k0] == ',');
        }
    }
    (l, r)
}

/// True when one of the two inclusive ranges contains the other entirely.
pub fn either_is_subset(l: &(u32, u32), r: &(u32, u32)) -> (res: bool)
    ensures
        res == (((l.0 <= r.0) && (l.1 >= r.1)) || ((r.0 <= l.0) && (r.1 >= l.1))),
{
    ((l.0 <= r.0) && (l.1 >= r.1)) || ((r.0 <= l.0) && (r.1 >= l.1))
}

/// True when the two inclusive ranges share at least one section id,
/// assuming each range is well-formed (start at most end).
pub fn ranges_overlap(l: &(u32, u32), r: &(u32, u32)) -> (res: bool)
    ensures
        res == (((l.0 <= r.0) && (l.1 >= r.0)) || ((r.0 <= l.0) && (r.1 >= l.0))),
{
    ((l.0 <= r.0) && (l.1 >= r.0)) || ((r.0 <= l.0) && (r.1 >= l.0))
}

} // verus!
