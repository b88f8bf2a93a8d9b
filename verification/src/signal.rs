//! Signal scanning: a running tracker of letter counts over a sliding
//! window, used to find the first position after which the last
//! `signature_length` characters are pairwise distinct.

use vstd::prelude::*;

verus! {

/// Number of distinct letters a tracker distinguishes.
pub const ALPHABET: usize = 26;

/// A lowercase ASCII letter.
pub open spec fn is_letter(b: u8) -> bool {
    97 <= b && b <= 122
}

/// How many times byte `b` occurs in `s`.
pub open spec fn occ(s: Seq<u8>, b: u8) -> int
    decreases s.len(),
{
    if s.len() == 0 {
        0
    } else {
        (if s[0] == b {
            1int
        } else {
            0int
        }) + occ(s.drop_first(), b)
    }
}

/// Appending one byte raises its count by one and no other.
pub proof fn lemma_occ_push(s: Seq<u8>, x: u8, b: u8)
    ensures
        occ(s.push(x), b) == occ(s, b) + if x == b {
            1int
        } else {
            0int
        },
    decreases s.len(),
{
    if s.len() == 0 {
        assert(s.push(x)[0] == x);
        assert(s.push(x).drop_first() =~= Seq::<u8>::empty());
        assert(occ(s.push(x), b) == (if x == b {
            1int
        } else {
            0int
        }) + occ(Seq::<u8>::empty(), b));
        assert(occ(Seq::<u8>::empty(), b) == 0);
        assert(occ(s, b) == 0);
    } else {
        assert(s.push(x)[0] == s[0]);
        assert(s.push(x).drop_first() =~= s.drop_first().push(x));
        lemma_occ_push(s.drop_first(), x, b);
        assert(occ(s.push(x), b) == (if s[0] == b {
            1int
        } else {
            0int
        }) + occ(s.drop_first().push(x), b));
        assert(occ(s, b) == (if s[0] == b {
            1int
        } else {
            0int
        }) + occ(s.drop_first(), b));
    }
}

/// A byte standing at some index occurs at least once.
pub proof fn lemma_occ_at_index(s: Seq<u8>, i: int)
    requires
        0 <= i < s.len(),
    ensures
        occ(s, s[i]) >= 1,
        occ(s, s[i]) >= 0,
    decreases s.len(),
{
    lemma_occ_nonneg(s, s[i]);
    lemma_occ_nonneg(s.drop_first(), s[i]);
    if i > 0 {
        lemma_occ_at_index(s.drop_first(), i - 1);
        assert(s.drop_first()[i - 1] == s[i]);
    }
}

pub proof fn lemma_occ_nonneg(s: Seq<u8>, b: u8)
    ensures
        occ(s, b) >= 0,
    decreases s.len(),
{
    if s.len() > 0 {
        lemma_occ_nonneg(s.drop_first(), b);
    }
}

/// A byte standing at two indices occurs at least twice.
pub proof fn lemma_occ_pair(s: Seq<u8>, a: int, b: int)
    requires
        0 <= a < b < s.len(),
        s[a] == s[b],
    ensures
        occ(s, s[a]) >= 2,
    decreases s.len(),
{
    if a == 0 {
        lemma_occ_at_index(s.drop_first(), b - 1);
    } else {
        lemma_occ_pair(s.drop_first(), a - 1, b - 1);
    }
}

/// If some byte occurs twice, two indices hold it.
pub proof fn lemma_occ_two_indexes(s: Seq<u8>, x: u8)
    requires
        occ(s, x) >= 2,
    ensures
        exists|a: int, b: int| 0 <= a < b < s.len() && s[a] == x && s[b] == x,
    decreases s.len(),
{
    lemma_occ_nonneg(s.drop_first(), x);
    if s[0] == x {
        lemma_occ_one_index(s.drop_first(), x);
        let c = choose|c: int| 0 <= c < s.drop_first().len() && s.drop_first()[c] == x;
        assert(s[0] == x && s[c + 1] == x && 0 < c + 1 < s.len());
    } else {
        lemma_occ_two_indexes(s.drop_first(), x);
        let (a, b) = choose|a: int, b: int|
            0 <= a < b < s.drop_first().len() && s.drop_first()[a] == x && s.drop_first()[b] == x;
        assert(s[a + 1] == x && s[b + 1] == x && 0 <= a + 1 < b + 1 < s.len());
    }
}

pub proof fn lemma_occ_one_index(s: Seq<u8>, x: u8)
    requires
        occ(s, x) >= 1,
    ensures
        exists|a: int| 0 <= a < s.len() && s[a] == x,
    decreases s.len(),
{
    lemma_occ_nonneg(s.drop_first(), x);
    if s[0] == x {
        assert(0 <= 0 < s.len() && s[0] == x);
    } else {
        lemma_occ_one_index(s.drop_first(), x);
        let a = choose|a: int| 0 <= a < s.drop_first().len() && s.drop_first()[a] == x;
        assert(s[a + 1] == x && 0 <= a + 1 < s.len());
    }
}

/// The number of letters whose count among the first `n` entries is 2 or
/// more.
pub open spec fn dup_count(counts: Seq<u32>, n: int) -> int
    decreases n,
{
    if n <= 0 || n > counts.len() {
        0
    } else {
        dup_count(counts, n - 1) + if counts[n - 1] >= 2 {
            1int
        } else {
            0int
        }
    }
}

pub proof fn lemma_dup_count_bounds(counts: Seq<u32>, n: int)
    ensures
        0 <= dup_count(counts, n) <= if n >= 0 {
            n
        } else {
            0
        },
    decreases n,
{
    if n > 0 {
        lemma_dup_count_bounds(counts, n - 1);
    }
}

/// Changing one entry changes the tally only through that entry.
pub proof fn lemma_dup_count_update(counts: Seq<u32>, i: int, x: u32, n: int)
    requires
        0 <= i < counts.len(),
        n <= counts.len(),
    ensures
        dup_count(counts.update(i, x), n) == dup_count(counts, n) + if i < n {
            (if x >= 2 {
                1int
            } else {
                0int
            }) - (if counts[i] >= 2 {
                1int
            } else {
                0int
            })
        } else {
            0int
        },
    decreases n,
{
    if n > 0 {
        lemma_dup_count_update(counts, i, x, n - 1);
    }
}

/// No letter is duplicated exactly when the tally is zero.
pub proof fn lemma_dup_count_zero(counts: Seq<u32>, n: int)
    requires
        0 <= n <= counts.len(),
    ensures
        dup_count(counts, n) == 0 <==> (forall|j: int| 0 <= j < n ==> #[trigger] counts[j] <= 1),
    decreases n,
{
    if n > 0 {
        lemma_dup_count_zero(counts, n - 1);
        lemma_dup_count_bounds(counts, n - 1);
    }
}

/// Letter occurrence counts over a sliding window, with a running tally of
/// duplicated letters.
pub struct Tracker {
    pub counts: Vec<u32>,
    pub num_duplicated: u8,
}

impl Tracker {
    /// One count per letter, and the tally matches the counts.
    pub open spec fn wf(self) -> bool {
        &&& self.counts@.len() == ALPHABET
        &&& self.num_duplicated == dup_count(self.counts@, ALPHABET as int)
    }

    /// Starts a tracker holding the letters of `vals`.
    pub fn new(vals: &[u8]) -> (r: Tracker)
        requires
            forall|i: int| 0 <= i < vals@.len() ==> is_letter(#[trigger] vals@[i]),
            vals@.len() < u32::MAX,
        ensures
            r.wf(),
            forall|b: u8| is_letter(b) ==> r.counts@[b - 97] == occ(vals@, b),
    {
        let mut tracker = Tracker { counts: vec![0u32; 26], num_duplicated: 0 };
        proof {
            lemma_dup_count_zero(tracker.counts@, 26);
            assert forall|b: u8| is_letter(b) implies tracker.counts@[b - 97] == occ(
                vals@.subrange(0, 0),
                b,
            ) by {
                assert(vals@.subrange(0, 0) =~= Seq::<u8>::empty());
            }
        }
        let n = vals.len();
        let mut i: usize = 0;
        while i < n
            invariant
                0 <= i <= n == vals@.len(),
                n < u32::MAX,
                forall|j: int| 0 <= j < vals@.len() ==> is_letter(#[trigger] vals@[j]),
                tracker.wf(),
                forall|b: u8|
                    is_letter(b) ==> tracker.counts@[b - 97] == occ(
                        #[trigger] vals@.subrange(0, i as int),
                        b,
                    ),
                forall|j: int| 0 <= j < 26 ==> #[trigger] tracker.counts@[j] <= i,
            decreases n - i,
        {
            let c = *vstd::slice::slice_index_get(vals, i);
            let ghost pre = vals@.subrange(0, i as int);
            proof {
                assert(vals@.subrange(0, i + 1) =~= pre.push(vals@[i as int]));
                assert forall|b: u8| is_letter(b) implies occ(vals@.subrange(0, i + 1), b) == occ(
                    pre,
                    b,
                ) + (if c == b {
                    1int
                } else {
                    0int
                }) by {
                    lemma_occ_push(pre, c, b);
                }
            }
            tracker.push(c);
            i = i + 1;
        }
        proof {
            assert(vals@.subrange(0, n as int) =~= vals@);
        }
        tracker
    }

    /// Records one more occurrence of letter `c`.
    pub fn push(&mut self, c: u8)
        requires
            old(self).wf(),
            is_letter(c),
            old(self).counts@[c - 97] < u32::MAX,
        ensures
            final(self).wf(),
            final(self).counts@ == old(self).counts@.update(c - 97, (old(self).counts@[c
                - 97] + 1) as u32),
    {
        let idx: usize = (c - 97) as usize;
        let entry = self.counts[idx];
        if entry == 1 {
            proof {
                lemma_dup_count_bounds(self.counts@, 26);
            }
            self.num_duplicated = self.num_duplicated + 1;
        }
        self.counts[idx] = entry + 1;
        proof {
            lemma_dup_count_update(old(self).counts@, idx as int, (entry + 1) as u32, 26);
        }
    }

    /// Removes one occurrence of letter `c`.
    pub fn pop(&mut self, c: u8)
        requires
            old(self).wf(),
            is_letter(c),
            old(self).counts@[c - 97] >= 1,
        ensures
            final(self).wf(),
            final(self).counts@ == old(self).counts@.update(c - 97, (old(self).counts@[c
                - 97] - 1) as u32),
    {
        let idx: usize = (c - 97) as usize;
        let entry = self.counts[idx];
        self.counts[idx] = entry - 1;
        if entry == 2 {
            proof {
                lemma_dup_count_update(old(self).counts@, idx as int, (entry - 1) as u32, 26);
                lemma_dup_count_bounds(self.counts@, 26);
                lemma_dup_count_bounds(old(self).counts@, 26);
            }
            self.num_duplicated = self.num_duplicated - 1;
        }
        proof {
            lemma_dup_count_update(old(self).counts@, idx as int, (entry - 1) as u32, 26);
        }
    }

    /// True when no tracked letter occurs more than once.
    pub fn all_unique(&self) -> (r: bool)
        requires
            self.wf(),
        ensures
            r <==> (forall|j: int| 0 <= j < 26 ==> #[trigger] self.counts@[j] <= 1),
    {
        proof {
            lemma_dup_count_zero(self.counts@, 26);
        }
        self.num_duplicated == 0
    }
}

/// No byte occurs more often than the window is long.
pub proof fn lemma_occ_le_len(s: Seq<u8>, b: u8)
    ensures
        occ(s, b) <= s.len(),
    decreases s.len(),
{
    if s.len() > 0 {
        lemma_occ_le_len(s.drop_first(), b);
    }
}

/// The characters of `s` in positions `e - k .. e` are pairwise distinct.
pub open spec fn distinct_window(s: Seq<char>, e: int, k: int) -> bool {
    forall|a: int, b: int| e - k <= a < b < e ==> s[a] != s[b]
}

/// A lowercase letter read as its ASCII byte.
pub open spec fn char_byte(c: char) -> u8 {
    (c as u32) as u8
}

/// The bytes of a run of characters.
pub open spec fn char_bytes(s: Seq<char>) -> Seq<u8> {
    s.map_values(|c: char| char_byte(c))
}

/// Finds the least position `r` such that the `signature_length` characters
/// just before `r` are pairwise distinct. The input must be lowercase
/// letters and must contain such a window (possibly only at the very end).
#[verifier::loop_isolation(false)]
pub fn find_signature_position(input: &String, signature_length: usize) -> (r: usize)
    requires
        1 <= signature_length <= input@.len(),
        signature_length < u32::MAX,
        forall|i: int| 0 <= i < input@.len() ==> 'a' <= #[trigger] input@[i] <= 'z',
        exists|e: int|
            signature_length <= e <= input@.len() && distinct_window(
                input@,
                e,
                signature_length as int,
            ),
    ensures
        signature_length <= r <= input@.len(),
        distinct_window(input@, r as int, signature_length as int),
        forall|i: int|
            signature_length <= i < r ==> !distinct_window(input@, i, signature_length as int),
{
    let ghost s = input@;
    let k = signature_length;
    let len = input.as_str().unicode_len();
    proof {
        assert forall|c1: char, c2: char|
            'a' <= c1 <= 'z' && 'a' <= c2 <= 'z' && char_byte(c1) == char_byte(c2) implies c1
            == c2 by {
            assert(char_byte(c1) == c1 as u32);
            assert(char_byte(c2) == c2 as u32);
        }
        assert forall|c: char| 'a' <= c <= 'z' implies is_letter(char_byte(c)) by {
            assert(char_byte(c) == c as u32);
        }
    }
    let mut first: Vec<u8> = Vec::new();
    let mut i: usize = 0;
    while i < k
        invariant
            0 <= i <= k,
            first@ =~= char_bytes(s.subrange(0, i as int)),
        decreases k - i,
    {
        let c = input.as_str().get_char(i);
        first.push((c as u32) as u8);
        proof {
            assert(first@ =~= char_bytes(s.subrange(0, i + 1)));
        }
        i = i + 1;
    }
    let mut tracker = Tracker::new(first.as_slice());
    let mut e: usize = k;
    proof {
        assert(char_bytes(s.subrange(0, k as int)) =~= char_bytes(
            s.subrange(e - k, e as int),
        ));
    }
    loop
        invariant
            k <= e <= len,
            tracker.wf(),
            forall|b: u8|
                is_letter(b) ==> tracker.counts@[b - 97] == occ(
                    char_bytes(s.subrange(e - k, e as int)),
                    b,
                ),
            forall|i2: int| k <= i2 < e ==> !distinct_window(s, i2, k as int),
        decreases len - e,
    {
        let ghost w = char_bytes(s.subrange(e - k, e as int));
        let unique = tracker.all_unique();
        if unique {
            proof {
                assert forall|a: int, b: int| e - k <= a < b < e implies s[a] != s[b] by {
                    if s[a] == s[b] {
                        let wa = a - (e - k);
                        let wb = b - (e - k);
                        assert(w[wa] == char_byte(s[a]) && w[wb] == char_byte(s[b]));
                        lemma_occ_pair(w, wa, wb);
                        assert(is_letter(w[wa]));
                        assert(tracker.counts@[w[wa] - 97] >= 2);
                    }
                }
            }
            return e;
        }
        proof {
            // the current window has a duplicated letter
            assert(exists|j: int| 0 <= j < 26 && #[trigger] tracker.counts@[j] >= 2);
            let j = choose|j: int| 0 <= j < 26 && #[trigger] tracker.counts@[j] >= 2;
            let b: u8 = (j + 97) as u8;
            assert(is_letter(b) && b - 97 == j);
            assert(occ(w, b) >= 2);
            lemma_occ_two_indexes(w, b);
            let (wa, wb) = choose|wa: int, wb: int|
                0 <= wa < wb < w.len() && w[wa] == b && w[wb] == b;
            assert(w[wa] == char_byte(s[e - k + wa]) && w[wb] == char_byte(s[e - k + wb]));
            assert(s[e - k + wa] == s[e - k + wb]);
            assert(!distinct_window(s, e as int, k as int));
        }
        if e == len {
            proof {
                let we = choose|we: int|
                    k <= we <= s.len() && distinct_window(s, we, k as int);
                assert(false);
            }
            return k;
        }
        let c_rem = input.as_str().get_char(e - k);
        let c_add = input.as_str().get_char(e);
        let b_rem: u8 = (c_rem as u32) as u8;
        let b_add: u8 = (c_add as u32) as u8;
        proof {
            assert(w[0] == char_byte(s[e - k]) && char_byte(s[e - k]) == b_rem);
            lemma_occ_at_index(w, 0);
            lemma_occ_le_len(w, b_add);
            lemma_occ_nonneg(w, b_add);
            lemma_occ_nonneg(w.drop_first(), b_add);
        }
        tracker.pop(b_rem);
        proof {
            assert forall|b: u8| is_letter(b) implies tracker.counts@[b - 97] == occ(
                w.drop_first(),
                b,
            ) by {
                assert(occ(w, b) == (if w[0] == b {
                    1int
                } else {
                    0int
                }) + occ(w.drop_first(), b));
                lemma_occ_nonneg(w.drop_first(), b);
            }
            lemma_occ_le_len(w.drop_first(), b_add);
            assert(b_add == char_byte(s[e as int]));
            assert(is_letter(b_add));
            assert(tracker.counts@[b_add - 97] == occ(w.drop_first(), b_add));
        }
        tracker.push(b_add);
        proof {
            let w2 = char_bytes(s.subrange(e + 1 - k, e + 1));
            assert(w2 =~= w.drop_first().push(b_add));
            assert forall|b: u8| is_letter(b) implies tracker.counts@[b - 97] == occ(w2, b) by {
                lemma_occ_push(w.drop_first(), b_add, b);
            }
        }
        e = e + 1;
    }
}

} // verus!
