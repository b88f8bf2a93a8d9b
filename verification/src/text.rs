//! Shared character-level helpers: decimal digits, decimal values of
//! character runs, and searching a string for a separator.

use vstd::prelude::*;

verus! {

/// A decimal digit `'0'..='9'`.
pub open spec fn is_decimal_digit(c: char) -> bool {
    '0' <= c && c <= '9'
}

/// The numeric value of one decimal digit.
pub open spec fn digit_value(c: char) -> int {
    c as int - '0' as int
}

/// Every character of `s` is a decimal digit.
pub open spec fn all_decimal_digits(s: Seq<char>) -> bool {
    forall|i: int| 0 <= i < s.len() ==> is_decimal_digit(#[trigger] s[i])
}

/// The value of `s` read as a decimal numeral (most significant digit first).
pub open spec fn decimal_value(s: Seq<char>) -> int
    decreases s.len(),
{
    if s.len() == 0 {
        0
    } else {
        decimal_value(s.drop_last()) * 10 + digit_value(s.last())
    }
}

pub proof fn lemma_decimal_value_nonneg(s: Seq<char>)
    requires
        all_decimal_digits(s),
    ensures
        decimal_value(s) >= 0,
    decreases s.len(),
{
    if s.len() > 0 {
        assert(all_decimal_digits(s.drop_last())) by {
            assert(forall|i: int| 0 <= i < s.len() - 1 ==> s.drop_last()[i] == #[trigger] s[i]);
        }
        lemma_decimal_value_nonneg(s.drop_last());
    }
}

/// Reading more digits never makes the value smaller: the value of a prefix
/// is at most the value of the whole run.
pub proof fn lemma_decimal_prefix_le(s: Seq<char>, i: int)
    requires
        all_decimal_digits(s),
        0 <= i <= s.len(),
    ensures
        decimal_value(s.subrange(0, i)) <= decimal_value(s),
    decreases s.len() - i,
{
    if i == s.len() {
        assert(s.subrange(0, i) =~= s);
    } else {
        lemma_decimal_prefix_le(s, i + 1);
        let p = s.subrange(0, i + 1);
        assert(p.drop_last() =~= s.subrange(0, i));
        assert(all_decimal_digits(s.subrange(0, i))) by {
            assert(forall|j: int| 0 <= j < i ==> s.subrange(0, i)[j] == #[trigger] s[j]);
        }
        lemma_decimal_value_nonneg(s.subrange(0, i));
        assert(decimal_value(p) == decimal_value(s.subrange(0, i)) * 10 + digit_value(s[i]));
    }
}

/// Finds the first occurrence of `c` in `s` at or after position `from`.
pub fn find_char_from(s: &str, c: char, from: usize) -> (r: Option<usize>)
    requires
        from <= s@.len(),
    ensures
        match r {
            Some(k) => {
                &&& from <= k < s@.len()
                &&& s@[k as int] == c
                &&& forall|j: int| from <= j < k ==> s@[j] != c
            },
            None => forall|j: int| from <= j < s@.len() ==> s@[j] != c,
        },
{
    let len = s.unicode_len();
    let mut i: usize = from;
    while i < len
        invariant
            from <= i <= len,
            len == s@.len(),
            forall|j: int| from <= j < i ==> s@[j] != c,
        decreases len - i,
    {
        if s.get_char(i) == c {
            return Some(i);
        }
        i = i + 1;
    }
    None
}

/// Reads the characters of `s` between `from` and `to` as a decimal number.
/// Succeeds exactly when the run is non-empty, all digits, and fits in `u64`.
pub fn parse_decimal(s: &str, from: usize, to: usize) -> (r: Option<u64>)
    requires
        from <= to <= s@.len(),
    ensures
        ({
            let run = s@.subrange(from as int, to as int);
            match r {
                Some(v) => {
                    &&& run.len() > 0
                    &&& all_decimal_digits(run)
                    &&& v == decimal_value(run)
                },
                None => !(run.len() > 0 && all_decimal_digits(run) && decimal_value(run)
                    <= u64::MAX),
            }
        }),
{
    let ghost run = s@.subrange(from as int, to as int);
    if from == to {
        return None;
    }
    let mut acc: u64 = 0;
    let mut i: usize = from;
    while i < to
        invariant
            from <= i <= to <= s@.len(),
            run == s@.subrange(from as int, to as int),
            forall|j: int| from <= j < i ==> is_decimal_digit(#[trigger] s@[j]),
            acc == decimal_value(s@.subrange(from as int, i as int)),
        decreases to - i,
    {
        let c = s.get_char(i);
        let ghost prev = s@.subrange(from as int, i as int);
        let ghost cur = s@.subrange(from as int, i + 1);
        assert(cur.drop_last() =~= prev);
        assert(cur.last() == s@[i as int]);
        if !('0' <= c && c <= '9') {
            assert(run[i - from] == c);
            return None;
        }
        let d: u64 = (c as u32 as u64) - ('0' as u32 as u64);
        proof {
            assert(all_decimal_digits(prev));
            lemma_decimal_value_nonneg(prev);
            assert(digit_value(c) == d);
        }
        let next = match acc.checked_mul(10) {
            Some(m) => m.checked_add(d),
            None => None,
        };
        match next {
            Some(v) => {
                acc = v;
                assert(decimal_value(cur) == decimal_value(prev) * 10 + digit_value(c));
            },
            None => {
                proof {
                    assert(decimal_value(cur) == decimal_value(prev) * 10 + digit_value(c));
                    assert(decimal_value(cur) > u64::MAX);
                    if all_decimal_digits(run) {
                        assert forall|j: int| from <= j < to implies is_decimal_digit(
                            #[trigger] s@[j],
                        ) by {
                            assert(run[j - from] == s@[j]);
                        }
                        lemma_decimal_prefix_le(run, i + 1 - from);
                        assert(run.subrange(0, i + 1 - from) =~= cur);
                    }
                }
                return None;
            },
        }
        i = i + 1;
    }
    proof {
        assert(run =~= s@.subrange(from as int, to as int));
        assert(all_decimal_digits(run)) by {
            assert(forall|j: int| 0 <= j < run.len() ==> #[trigger] run[j] == s@[j + from]);
        }
    }
    Some(acc)
}

} // verus!
