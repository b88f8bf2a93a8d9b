//! Laws of the directory tree: merging is order-independent, and a lazily
//! created stub never changes the final tree.

use vstd::prelude::*;
use crate::directory::Directory;
use crate::directory::is_insert_of;
use crate::directory::is_merge_of;
use crate::directory::inserted_into_empty;
use crate::directory::lemma_subdir_smaller;
use crate::directory::lemma_sp_get_at;
use crate::directory::sp_get;
use crate::directory::sp_has;
use crate::directory::sp_unique;
use crate::commands::is_empty_dir;
use crate::traversal::preorder;
use crate::traversal::children_preorder;

verus! {

/// Two trees hold the same contents: the same file names with the same
/// sizes, and the same subdirectory names with equivalent subtrees.
pub open spec fn equivalent(a: Directory, b: Directory) -> bool
    decreases a,
    via equivalent_decreases
{
    &&& (forall|n: Seq<char>| #[trigger] a.has_file(n) <==> b.has_file(n))
    &&& (forall|n: Seq<char>| a.has_file(n) ==> #[trigger] a.file_size(n) == b.file_size(n))
    &&& (forall|n: Seq<char>| #[trigger] a.has_subdir(n) <==> b.has_subdir(n))
    &&& (forall|n: Seq<char>|
        a.has_subdir(n) && b.has_subdir(n) ==> equivalent(#[trigger] a.subdir(n), b.subdir(n)))
}

#[via_fn]
proof fn equivalent_decreases(a: Directory, b: Directory) {
    assert forall|n: Seq<char>| a.has_subdir(n) implies decreases_to!(a => a.subdir(n)) by {
        lemma_subdir_smaller(a, n);
    }
}

/// Where the two fragments name the same file, they agree on its size;
/// recursively through shared subdirectories.
pub open spec fn files_compatible(a: Directory, b: Directory) -> bool
    decreases a,
    via files_compatible_decreases
{
    &&& (forall|n: Seq<char>|
        a.has_file(n) && b.has_file(n) ==> #[trigger] a.file_size(n) == b.file_size(n))
    &&& (forall|n: Seq<char>|
        a.has_subdir(n) && b.has_subdir(n) ==> files_compatible(
            #[trigger] a.subdir(n),
            b.subdir(n),
        ))
}

#[via_fn]
proof fn files_compatible_decreases(a: Directory, b: Directory) {
    assert forall|n: Seq<char>| a.has_subdir(n) implies decreases_to!(a => a.subdir(n)) by {
        lemma_subdir_smaller(a, n);
    }
}

/// Every tree is equivalent to itself.
pub proof fn lemma_equivalent_refl(d: Directory)
    ensures
        equivalent(d, d),
    decreases d,
{
    assert forall|n: Seq<char>| d.has_subdir(n) && d.has_subdir(n) implies equivalent(
        #[trigger] d.subdir(n),
        d.subdir(n),
    ) by {
        lemma_subdir_smaller(d, n);
        lemma_equivalent_refl(d.subdir(n));
    }
}

/// The merge relation determines the result up to equivalence.
pub proof fn lemma_merge_unique(m1: Directory, m2: Directory, a: Directory, b: Directory)
    requires
        is_merge_of(m1, a, b),
        is_merge_of(m2, a, b),
    ensures
        equivalent(m1, m2),
    decreases m1,
{
    assert forall|n: Seq<char>|
        m1.has_subdir(n) && m2.has_subdir(n) implies equivalent(
        #[trigger] m1.subdir(n),
        m2.subdir(n),
    ) by {
        lemma_subdir_smaller(m1, n);
        if a.has_subdir(n) && b.has_subdir(n) {
            lemma_merge_unique(m1.subdir(n), m2.subdir(n), a.subdir(n), b.subdir(n));
        } else {
            lemma_equivalent_refl(m1.subdir(n));
        }
    }
}

/// Merging `b` into `a` and merging `a` into `b` give the same tree, as
/// long as the two agree on the files they share.
pub proof fn lemma_merge_commutes(m1: Directory, m2: Directory, a: Directory, b: Directory)
    requires
        is_merge_of(m1, a, b),
        is_merge_of(m2, b, a),
        files_compatible(a, b),
    ensures
        equivalent(m1, m2),
    decreases m1,
{
    assert forall|n: Seq<char>|
        m1.has_subdir(n) && m2.has_subdir(n) implies equivalent(
        #[trigger] m1.subdir(n),
        m2.subdir(n),
    ) by {
        lemma_subdir_smaller(m1, n);
        if a.has_subdir(n) && b.has_subdir(n) {
            lemma_merge_commutes(m1.subdir(n), m2.subdir(n), a.subdir(n), b.subdir(n));
        } else {
            lemma_equivalent_refl(m1.subdir(n));
        }
    }
}

/// Merging fragment `a`, then fragment `b`, into a node gives the same tree
/// as merging `b`, then `a`, whenever the fragments agree on shared files:
/// the order in which listings of one directory arrive does not matter.
pub proof fn lemma_merge_order_independent(
    t: Directory,
    u1: Directory,
    m1: Directory,
    u2: Directory,
    m2: Directory,
    a: Directory,
    b: Directory,
)
    requires
        is_merge_of(u1, t, a),
        is_merge_of(m1, u1, b),
        is_merge_of(u2, t, b),
        is_merge_of(m2, u2, a),
        files_compatible(a, b),
    ensures
        equivalent(m1, m2),
    decreases m1,
{
    assert forall|n: Seq<char>|
        m1.has_subdir(n) && m2.has_subdir(n) implies equivalent(
        #[trigger] m1.subdir(n),
        m2.subdir(n),
    ) by {
        lemma_subdir_smaller(m1, n);
        let ta = t.has_subdir(n);
        let aa = a.has_subdir(n);
        let bb = b.has_subdir(n);
        if aa && bb {
            if ta {
                lemma_merge_order_independent(
                    t.subdir(n),
                    u1.subdir(n),
                    m1.subdir(n),
                    u2.subdir(n),
                    m2.subdir(n),
                    a.subdir(n),
                    b.subdir(n),
                );
            } else {
                assert(u1.subdir(n) == a.subdir(n));
                assert(u2.subdir(n) == b.subdir(n));
                lemma_merge_commutes(m1.subdir(n), m2.subdir(n), a.subdir(n), b.subdir(n));
            }
        } else if aa && !bb {
            if ta {
                assert(m1.subdir(n) == u1.subdir(n));
                assert(u2.subdir(n) == t.subdir(n));
                lemma_merge_unique(m1.subdir(n), m2.subdir(n), t.subdir(n), a.subdir(n));
            } else {
                assert(m1.subdir(n) == u1.subdir(n) && u1.subdir(n) == a.subdir(n));
                assert(!u2.has_subdir(n));
                assert(m2.subdir(n) == a.subdir(n));
                lemma_equivalent_refl(m1.subdir(n));
            }
        } else if !aa && bb {
            if ta {
                assert(u1.subdir(n) == t.subdir(n));
                assert(m2.subdir(n) == u2.subdir(n));
                lemma_merge_unique(m1.subdir(n), m2.subdir(n), t.subdir(n), b.subdir(n));
            } else {
                assert(!u1.has_subdir(n));
                assert(m1.subdir(n) == b.subdir(n));
                assert(u2.subdir(n) == b.subdir(n));
                assert(m2.subdir(n) == u2.subdir(n));
                lemma_equivalent_refl(m1.subdir(n));
            }
        } else {
            assert(m1.subdir(n) == u1.subdir(n) && u1.subdir(n) == t.subdir(n));
            assert(m2.subdir(n) == u2.subdir(n) && u2.subdir(n) == t.subdir(n));
            lemma_equivalent_refl(m1.subdir(n));
        }
    }
}

/// Merging an empty fragment changes nothing.
pub proof fn lemma_merge_empty_right(m: Directory, a: Directory, b: Directory)
    requires
        is_merge_of(m, a, b),
        is_empty_dir(b),
    ensures
        equivalent(m, a),
{
    assert(forall|n: Seq<char>| !(#[trigger] b.has_file(n)));
    assert(forall|n: Seq<char>| !(#[trigger] b.has_subdir(n)));
    assert forall|n: Seq<char>|
        m.has_subdir(n) && a.has_subdir(n) implies equivalent(
        #[trigger] m.subdir(n),
        a.subdir(n),
    ) by {
        assert(m.subdir(n) == a.subdir(n));
        lemma_equivalent_refl(m.subdir(n));
    }
}

/// Merging the same fragment into equivalent trees gives equivalent trees.
pub proof fn lemma_merge_congruence(
    m1: Directory,
    m2: Directory,
    a1: Directory,
    a2: Directory,
    b: Directory,
)
    requires
        is_merge_of(m1, a1, b),
        is_merge_of(m2, a2, b),
        equivalent(a1, a2),
    ensures
        equivalent(m1, m2),
    decreases m1,
{
    assert forall|n: Seq<char>|
        m1.has_subdir(n) && m2.has_subdir(n) implies equivalent(
        #[trigger] m1.subdir(n),
        m2.subdir(n),
    ) by {
        lemma_subdir_smaller(m1, n);
        if a1.has_subdir(n) && b.has_subdir(n) {
            assert(a2.has_subdir(n));
            lemma_merge_congruence(m1.subdir(n), m2.subdir(n), a1.subdir(n), a2.subdir(n), b.subdir(n));
        } else if a1.has_subdir(n) && !b.has_subdir(n) {
            assert(m1.subdir(n) == a1.subdir(n));
            assert(m2.subdir(n) == a2.subdir(n));
            assert(equivalent(a1.subdir(n), a2.subdir(n)));
        } else {
            assert(m1.subdir(n) == b.subdir(n));
            assert(m2.subdir(n) == b.subdir(n));
            lemma_equivalent_refl(m1.subdir(n));
        }
    }
}

/// Inserting `f` into a chain of stubs built for an empty fragment gives
/// the same tree as building the chain for `f` directly.
pub proof fn lemma_stub_chain(
    s: Directory,
    t2s: Directory,
    t3s: Directory,
    p: Seq<Seq<char>>,
    e: Directory,
    f: Directory,
)
    requires
        inserted_into_empty(s, p, e),
        is_empty_dir(e),
        is_insert_of(t2s, s, p, f),
        inserted_into_empty(t3s, p, f),
    ensures
        equivalent(t2s, t3s),
    decreases p.len(),
{
    assert(forall|n: Seq<char>| !(#[trigger] e.has_file(n)));
    assert(forall|n: Seq<char>| !(#[trigger] e.has_subdir(n)));
    if p.len() == 0 {
        assert(forall|n: Seq<char>| !(#[trigger] s.has_file(n)));
        assert(forall|n: Seq<char>| !(#[trigger] s.has_subdir(n)));
        assert forall|n: Seq<char>|
            t2s.has_subdir(n) && t3s.has_subdir(n) implies equivalent(
            #[trigger] t2s.subdir(n),
            t3s.subdir(n),
        ) by {
            assert(f.has_subdir(n));
            assert(t2s.subdir(n) == f.subdir(n));
            assert(t3s.subdir(n) == f.subdir(n));
            lemma_equivalent_refl(t2s.subdir(n));
        }
    } else {
        let h = p[0];
        assert forall|n: Seq<char>|
            t2s.has_subdir(n) && t3s.has_subdir(n) implies equivalent(
            #[trigger] t2s.subdir(n),
            t3s.subdir(n),
        ) by {
            assert(n == h);
            lemma_stub_chain(s.subdir(h), t2s.subdir(h), t3s.subdir(h), p.drop_first(), e, f);
        }
    }
}

/// Creating an empty subdirectory stub at a path and later inserting the
/// real listing there gives the same tree as inserting the real listing
/// directly: a lazily created stub never changes the final tree.
pub proof fn lemma_insert_stub_idempotent(
    t0: Directory,
    t1: Directory,
    t2: Directory,
    t3: Directory,
    p: Seq<Seq<char>>,
    e: Directory,
    f: Directory,
)
    requires
        is_empty_dir(e),
        is_insert_of(t1, t0, p, e),
        is_insert_of(t2, t1, p, f),
        is_insert_of(t3, t0, p, f),
    ensures
        equivalent(t2, t3),
    decreases p.len(),
{
    if p.len() == 0 {
        lemma_merge_empty_right(t1, t0, e);
        lemma_merge_congruence(t2, t3, t1, t0, f);
    } else {
        let h = p[0];
        assert forall|n: Seq<char>|
            t2.has_subdir(n) && t3.has_subdir(n) implies equivalent(
            #[trigger] t2.subdir(n),
            t3.subdir(n),
        ) by {
            if n != h {
                assert(t0.has_subdir(n));
                assert(t1.subdir(n) == t0.subdir(n));
                assert(t2.subdir(n) == t1.subdir(n));
                assert(t3.subdir(n) == t0.subdir(n));
                lemma_equivalent_refl(t2.subdir(n));
            } else {
                if t0.has_subdir(h) {
                    lemma_insert_stub_idempotent(
                        t0.subdir(h),
                        t1.subdir(h),
                        t2.subdir(h),
                        t3.subdir(h),
                        p.drop_first(),
                        e,
                        f,
                    );
                } else {
                    lemma_stub_chain(
                        t1.subdir(h),
                        t2.subdir(h),
                        t3.subdir(h),
                        p.drop_first(),
                        e,
                        f,
                    );
                }
            }
        }
    }
}

/// The sum of the numbers a sequence of named entries carries.
spec fn pair_sum(s: Seq<(String, int)>) -> int
    decreases s.len(),
{
    if s.len() == 0 {
        0
    } else {
        pair_sum(s.drop_last()) + s.last().1
    }
}

proof fn lemma_pair_sum_remove(s: Seq<(String, int)>, j: int)
    requires
        0 <= j < s.len(),
    ensures
        pair_sum(s.remove(j)) == pair_sum(s) - s[j].1,
    decreases s.len(),
{
    if j == s.len() - 1 {
        assert(s.remove(j) =~= s.drop_last());
    } else {
        assert(s.remove(j).drop_last() =~= s.drop_last().remove(j));
        lemma_pair_sum_remove(s.drop_last(), j);
        assert(s.remove(j).last() == s.last());
        assert(s.drop_last()[j] == s[j]);
    }
}

/// Two sequences with the same unique names, carrying the same number at
/// each name, have the same sum, however differently they are ordered.
proof fn lemma_pair_sum_by_names(s1: Seq<(String, int)>, s2: Seq<(String, int)>)
    requires
        sp_unique(s1),
        sp_unique(s2),
        forall|n: Seq<char>| #[trigger] sp_has(s1, n) <==> sp_has(s2, n),
        forall|n: Seq<char>| sp_has(s1, n) ==> #[trigger] sp_get(s1, n) == sp_get(s2, n),
    ensures
        pair_sum(s1) == pair_sum(s2),
    decreases s1.len(),
{
    if s1.len() == 0 {
        assert(s2.len() == 0) by {
            if s2.len() > 0 {
                assert(sp_has(s2, s2[0].0@));
                assert(!sp_has(s1, s2[0].0@));
            }
        }
    } else {
        let last = s1.len() - 1;
        let e = s1[last];
        let n = e.0@;
        lemma_sp_get_at(s1, last);
        assert(sp_has(s2, n));
        let j = choose|j: int| 0 <= j < s2.len() && #[trigger] s2[j].0@ == n;
        lemma_sp_get_at(s2, j);
        let s1p = s1.drop_last();
        let s2p = s2.remove(j);
        lemma_pair_sum_remove(s2, j);
        assert(sp_unique(s1p)) by {
            assert forall|x: int, y: int| 0 <= x < y < s1p.len() implies (#[trigger] s1p[x].0@)
                != (#[trigger] s1p[y].0@) by {
                assert(s1p[x] == s1[x] && s1p[y] == s1[y]);
            }
        }
        assert(sp_unique(s2p)) by {
            assert forall|x: int, y: int| 0 <= x < y < s2p.len() implies (#[trigger] s2p[x].0@)
                != (#[trigger] s2p[y].0@) by {
                let ox = if x < j {
                    x
                } else {
                    x + 1
                };
                let oy = if y < j {
                    y
                } else {
                    y + 1
                };
                assert(s2p[x] == s2[ox] && s2p[y] == s2[oy]);
            }
        }
        assert forall|n2: Seq<char>| #[trigger] sp_has(s1p, n2) implies sp_has(s2p, n2) && sp_get(
            s1p,
            n2,
        ) == sp_get(s2p, n2) by {
            let k = choose|k: int| 0 <= k < s1p.len() && #[trigger] s1p[k].0@ == n2;
            assert(s1p[k] == s1[k]);
            lemma_sp_get_at(s1p, k);
            lemma_sp_get_at(s1, k);
            assert(s1[k].0@ != s1[last].0@);
            assert(sp_has(s1, n2) && n2 != n);
            assert(sp_has(s2, n2));
            let k2 = choose|k2: int| 0 <= k2 < s2.len() && #[trigger] s2[k2].0@ == n2;
            lemma_sp_get_at(s2, k2);
            assert(k2 != j);
            let k2p = if k2 < j {
                k2
            } else {
                k2 - 1
            };
            assert(s2p[k2p] == s2[k2]);
            lemma_sp_get_at(s2p, k2p);
        }
        assert forall|n2: Seq<char>| #[trigger] sp_has(s2p, n2) implies sp_has(s1p, n2) by {
            let k = choose|k: int| 0 <= k < s2p.len() && #[trigger] s2p[k].0@ == n2;
            let ok = if k < j {
                k
            } else {
                k + 1
            };
            assert(s2p[k] == s2[ok]);
            assert(sp_has(s2, n2));
            assert(n2 != n) by {
                if n2 == n {
                    if ok < j {
                        assert(s2[ok].0@ != s2[j].0@);
                    } else {
                        assert(s2[j].0@ != s2[ok].0@);
                    }
                }
            }
            assert(sp_has(s1, n2));
            let k1 = choose|k1: int| 0 <= k1 < s1.len() && #[trigger] s1[k1].0@ == n2;
            assert(k1 != last);
            assert(s1p[k1] == s1[k1]);
        }
        lemma_pair_sum_by_names(s1p, s2p);
    }
}

proof fn lemma_files_sum_as_pairs(d: Directory, n: int)
    requires
        0 <= n <= d.files@.len(),
    ensures
        d.files_size_below(n) == pair_sum(
            d.files@.map_values(|p: (String, u64)| (p.0, p.1 as int)).subrange(0, n),
        ),
    decreases n,
{
    let m = d.files@.map_values(|p: (String, u64)| (p.0, p.1 as int));
    if n > 0 {
        lemma_files_sum_as_pairs(d, n - 1);
        assert(m.subrange(0, n).drop_last() =~= m.subrange(0, n - 1));
        assert(m.subrange(0, n).last() == m[n - 1]);
    } else {
        assert(m.subrange(0, 0) =~= Seq::<(String, int)>::empty());
    }
}

proof fn lemma_subdirs_sum_as_pairs(d: Directory, n: int)
    requires
        0 <= n <= d.subdirectories@.len(),
    ensures
        d.subdirs_size_below(n) == pair_sum(
            d.subdirectories@.map_values(|p: (String, Directory)| (p.0, p.1.total_size())).subrange(
                0,
                n,
            ),
        ),
    decreases n,
{
    let m = d.subdirectories@.map_values(|p: (String, Directory)| (p.0, p.1.total_size()));
    if n > 0 {
        lemma_subdirs_sum_as_pairs(d, n - 1);
        assert(m.subrange(0, n).drop_last() =~= m.subrange(0, n - 1));
        assert(m.subrange(0, n).last() == m[n - 1]);
    } else {
        assert(m.subrange(0, 0) =~= Seq::<(String, int)>::empty());
    }
}

/// Trees with the same contents have the same total size, however
/// differently ordered their entries are: `size()` is a function of the
/// contents alone, not of the construction order that produced them.
pub proof fn lemma_equivalent_same_size(a: Directory, b: Directory)
    requires
        equivalent(a, b),
        a.wf(),
        b.wf(),
    ensures
        a.total_size() == b.total_size(),
    decreases a,
{
    let fa = a.files@.map_values(|p: (String, u64)| (p.0, p.1 as int));
    let fb = b.files@.map_values(|p: (String, u64)| (p.0, p.1 as int));
    let sa = a.subdirectories@.map_values(|p: (String, Directory)| (p.0, p.1.total_size()));
    let sb = b.subdirectories@.map_values(|p: (String, Directory)| (p.0, p.1.total_size()));
    lemma_files_sum_as_pairs(a, a.files@.len() as int);
    lemma_files_sum_as_pairs(b, b.files@.len() as int);
    lemma_subdirs_sum_as_pairs(a, a.subdirectories@.len() as int);
    lemma_subdirs_sum_as_pairs(b, b.subdirectories@.len() as int);
    assert(fa.subrange(0, fa.len() as int) =~= fa);
    assert(fb.subrange(0, fb.len() as int) =~= fb);
    assert(sa.subrange(0, sa.len() as int) =~= sa);
    assert(sb.subrange(0, sb.len() as int) =~= sb);
    // names transfer pointwise between each sequence and its number form
    assert(sp_unique(fa) && sp_unique(fb) && sp_unique(sa) && sp_unique(sb));
    assert forall|n: Seq<char>| #[trigger] sp_has(fa, n) <==> a.has_file(n) by {
        if sp_has(fa, n) {
            let i = choose|i: int| 0 <= i < fa.len() && #[trigger] fa[i].0@ == n;
            assert(a.files@[i].0@ == n);
        }
        if a.has_file(n) {
            let i = choose|i: int| 0 <= i < a.files@.len() && #[trigger] a.files@[i].0@ == n;
            assert(fa[i].0@ == n);
        }
    }
    assert forall|n: Seq<char>| #[trigger] sp_has(fb, n) <==> b.has_file(n) by {
        if sp_has(fb, n) {
            let i = choose|i: int| 0 <= i < fb.len() && #[trigger] fb[i].0@ == n;
            assert(b.files@[i].0@ == n);
        }
        if b.has_file(n) {
            let i = choose|i: int| 0 <= i < b.files@.len() && #[trigger] b.files@[i].0@ == n;
            assert(fb[i].0@ == n);
        }
    }
    assert forall|n: Seq<char>| #[trigger] sp_has(sa, n) <==> a.has_subdir(n) by {
        if sp_has(sa, n) {
            let i = choose|i: int| 0 <= i < sa.len() && #[trigger] sa[i].0@ == n;
            assert(a.subdirectories@[i].0@ == n);
        }
        if a.has_subdir(n) {
            let i = choose|i: int|
                0 <= i < a.subdirectories@.len() && #[trigger] a.subdirectories@[i].0@ == n;
            assert(sa[i].0@ == n);
        }
    }
    assert forall|n: Seq<char>| #[trigger] sp_has(sb, n) <==> b.has_subdir(n) by {
        if sp_has(sb, n) {
            let i = choose|i: int| 0 <= i < sb.len() && #[trigger] sb[i].0@ == n;
            assert(b.subdirectories@[i].0@ == n);
        }
        if b.has_subdir(n) {
            let i = choose|i: int|
                0 <= i < b.subdirectories@.len() && #[trigger] b.subdirectories@[i].0@ == n;
            assert(sb[i].0@ == n);
        }
    }
    // equal file sizes name for name
    assert forall|n: Seq<char>| sp_has(fa, n) implies #[trigger] sp_get(fa, n) == sp_get(
        fb,
        n,
    ) by {
        let i = choose|i: int| 0 <= i < fa.len() && #[trigger] fa[i].0@ == n;
        lemma_sp_get_at(fa, i);
        lemma_sp_get_at(a.files@, i);
        assert(a.has_file(n) && b.has_file(n));
        assert(a.file_size(n) == b.file_size(n));
        let k = choose|k: int| 0 <= k < b.files@.len() && #[trigger] b.files@[k].0@ == n;
        lemma_sp_get_at(fb, k);
        lemma_sp_get_at(b.files@, k);
    }
    lemma_pair_sum_by_names(fa, fb);
    // equal subtree sizes name for name, by induction on the subtree
    assert forall|n: Seq<char>| sp_has(sa, n) implies #[trigger] sp_get(sa, n) == sp_get(
        sb,
        n,
    ) by {
        let i = choose|i: int| 0 <= i < sa.len() && #[trigger] sa[i].0@ == n;
        lemma_sp_get_at(sa, i);
        lemma_sp_get_at(a.subdirectories@, i);
        assert(a.has_subdir(n) && b.has_subdir(n));
        assert(a.subdirectories@[i].1.wf());
        let k = choose|k: int|
            0 <= k < b.subdirectories@.len() && #[trigger] b.subdirectories@[k].0@ == n;
        lemma_sp_get_at(sb, k);
        lemma_sp_get_at(b.subdirectories@, k);
        assert(b.subdirectories@[k].1.wf());
        assert(equivalent(a.subdir(n), b.subdir(n)));
        lemma_subdir_smaller(a, n);
        lemma_equivalent_same_size(a.subdir(n), b.subdir(n));
    }
    lemma_pair_sum_by_names(sa, sb);
}

/// The tree's total size, like its contents, is independent of the order
/// in which two fragments were merged into a node.
pub proof fn lemma_size_merge_order_independent(
    t: Directory,
    u1: Directory,
    m1: Directory,
    u2: Directory,
    m2: Directory,
    a: Directory,
    b: Directory,
)
    requires
        is_merge_of(u1, t, a),
        is_merge_of(m1, u1, b),
        is_merge_of(u2, t, b),
        is_merge_of(m2, u2, a),
        files_compatible(a, b),
        m1.wf(),
        m2.wf(),
    ensures
        m1.total_size() == m2.total_size(),
{
    lemma_merge_order_independent(t, u1, m1, u2, m2, a, b);
    lemma_equivalent_same_size(m1, m2);
}

/// The sum of the sizes of the files a node itself declares (its
/// subdirectories not counted).
pub open spec fn own_files_sum(d: Directory) -> int {
    d.files_size_below(d.files@.len() as int)
}

/// The sum of `own_files_sum` over every entry of a stream.
pub open spec fn stream_files_sum(st: Seq<(Seq<char>, Directory)>) -> int
    decreases st.len(),
{
    if st.len() == 0 {
        0
    } else {
        stream_files_sum(st.drop_last()) + own_files_sum(st.last().1)
    }
}

proof fn lemma_stream_files_sum_concat(a: Seq<(Seq<char>, Directory)>, b: Seq<(Seq<char>, Directory)>)
    ensures
        stream_files_sum(a + b) == stream_files_sum(a) + stream_files_sum(b),
    decreases b.len(),
{
    if b.len() == 0 {
        assert(a + b =~= a);
    } else {
        assert((a + b).drop_last() =~= a + b.drop_last());
        lemma_stream_files_sum_concat(a, b.drop_last());
        assert((a + b).last() == b.last());
    }
}

proof fn lemma_children_files_sum(d: Directory, n: int)
    requires
        0 <= n <= d.subdirectories@.len(),
    ensures
        d.subdirs_size_below(n) == stream_files_sum(children_preorder(d, n)),
    decreases d, n,
{
    if n > 0 {
        lemma_children_files_sum(d, n - 1);
        let e = d.subdirectories@[n - 1];
        lemma_size_counts_each_file_once(e.0@, e.1);
        lemma_stream_files_sum_concat(children_preorder(d, n - 1), preorder(e.0@, e.1));
    }
}

/// A tree's total size is the sum, over every node the traversal visits, of
/// the file sizes that node itself declares: every file is counted exactly
/// once, at the depth where it is declared.
pub proof fn lemma_size_counts_each_file_once(name: Seq<char>, d: Directory)
    ensures
        d.total_size() == stream_files_sum(preorder(name, d)),
    decreases d, d.subdirectories@.len() + 1,
{
    let n = d.subdirectories@.len() as int;
    lemma_children_files_sum(d, n);
    lemma_stream_files_sum_concat(seq![(name, d)], children_preorder(d, n));
    assert(stream_files_sum(seq![(name, d)]) == own_files_sum(d)) by {
        let one = seq![(name, d)];
        assert(one.len() == 1 && one.last() == (name, d));
        assert(one.drop_last() =~= Seq::<(Seq<char>, Directory)>::empty());
        assert(stream_files_sum(Seq::<(Seq<char>, Directory)>::empty()) == 0);
    }
}

proof fn lemma_children_count(d: Directory, n: int)
    requires
        0 <= n <= d.subdirectories@.len(),
    ensures
        children_preorder(d, n).len() == d.count_below(n),
    decreases d, n,
{
    if n > 0 {
        lemma_children_count(d, n - 1);
        let e = d.subdirectories@[n - 1];
        lemma_traversal_counts_nodes(e.0@, e.1);
    }
}

/// The traversal yields exactly one entry per node of the tree.
pub proof fn lemma_traversal_counts_nodes(name: Seq<char>, d: Directory)
    ensures
        preorder(name, d).len() == d.node_count(),
    decreases d, d.subdirectories@.len() + 1,
{
    lemma_children_count(d, d.subdirectories@.len() as int);
}

/// Earlier entries of a `children_preorder` are stable as more subtrees are
/// appended.
proof fn lemma_children_prefix(d: Directory, a: int, b: int)
    requires
        0 <= a <= b <= d.subdirectories@.len(),
    ensures
        children_preorder(d, a).len() <= children_preorder(d, b).len(),
        forall|j: int|
            0 <= j < children_preorder(d, a).len() ==> #[trigger] children_preorder(d, b)[j]
                == children_preorder(d, a)[j],
    decreases b - a,
{
    if a < b {
        lemma_children_prefix(d, a, b - 1);
    }
}

proof fn lemma_children_sound(d: Directory, n: int)
    requires
        0 <= n <= d.subdirectories@.len(),
    ensures
        forall|j: int|
            0 <= j < children_preorder(d, n).len() ==> exists|i: int|
                0 <= i < n && d.subdirectories@[i].1.in_tree(
                    (#[trigger] children_preorder(d, n)[j]).1,
                ),
    decreases d, n,
{
    if n > 0 {
        lemma_children_sound(d, n - 1);
        let e = d.subdirectories@[n - 1];
        lemma_traversal_sound(e.0@, e.1);
        let left = children_preorder(d, n - 1);
        let right = preorder(e.0@, e.1);
        assert forall|j: int| 0 <= j < children_preorder(d, n).len() implies exists|i: int|
            0 <= i < n && d.subdirectories@[i].1.in_tree(
                (#[trigger] children_preorder(d, n)[j]).1,
            ) by {
            if j < left.len() {
                assert(children_preorder(d, n)[j] == left[j]);
                let i = choose|i: int|
                    0 <= i < n - 1 && d.subdirectories@[i].1.in_tree((#[trigger] left[j]).1);
                assert(0 <= i < n && d.subdirectories@[i].1.in_tree(children_preorder(d, n)[j].1));
            } else {
                assert(children_preorder(d, n)[j] == right[j - left.len()]);
                assert(e.1.in_tree(right[j - left.len()].1));
                assert(d.subdirectories@[n - 1].1.in_tree(children_preorder(d, n)[j].1));
            }
        }
    }
}

/// Every entry the traversal yields is a node of the tree, and the first
/// entry is the root itself.
pub proof fn lemma_traversal_sound(name: Seq<char>, d: Directory)
    ensures
        preorder(name, d).len() >= 1,
        preorder(name, d)[0] == (name, d),
        forall|j: int|
            0 <= j < preorder(name, d).len() ==> d.in_tree((#[trigger] preorder(name, d)[j]).1),
    decreases d, d.subdirectories@.len() + 1,
{
    let n = d.subdirectories@.len() as int;
    lemma_children_sound(d, n);
    let st = preorder(name, d);
    assert forall|j: int| 0 <= j < st.len() implies d.in_tree((#[trigger] st[j]).1) by {
        if j == 0 {
            assert(st[0] == (name, d));
        } else {
            assert(st[j] == children_preorder(d, n)[j - 1]);
            let i = choose|i: int|
                0 <= i < n && d.subdirectories@[i].1.in_tree(
                    (#[trigger] children_preorder(d, n)[j - 1]).1,
                );
            assert(d.subdirectories@[i].1.in_tree(st[j].1));
        }
    }
}

/// Every node of the tree appears in the traversal.
pub proof fn lemma_traversal_covers(name: Seq<char>, d: Directory, x: Directory)
    requires
        d.in_tree(x),
    ensures
        exists|j: int|
            0 <= j < preorder(name, d).len() && (#[trigger] preorder(name, d)[j]).1 == x,
    decreases d,
{
    let st = preorder(name, d);
    if x == d {
        assert(st[0] == (name, d));
        assert(0 <= 0 < st.len() && st[0].1 == x);
    } else {
        let i = choose|i: int|
            0 <= i < d.subdirectories@.len() && (#[trigger] d.subdirectories@[i]).1.in_tree(x);
        let e = d.subdirectories@[i];
        lemma_traversal_covers(e.0@, e.1, x);
        let sub = preorder(e.0@, e.1);
        let jj = choose|j: int| 0 <= j < sub.len() && (#[trigger] sub[j]).1 == x;
        let left = children_preorder(d, i);
        assert(children_preorder(d, i + 1)[left.len() + jj] == sub[jj]);
        lemma_children_prefix(d, i + 1, d.subdirectories@.len() as int);
        let n = d.subdirectories@.len() as int;
        assert(children_preorder(d, n)[left.len() + jj] == sub[jj]);
        let j = 1 + left.len() + jj;
        assert(st[j] == children_preorder(d, n)[j - 1]);
        assert(0 <= j < st.len() && st[j].1 == x);
    }
}

/// The traversal yields a parent strictly before every one of its proper
/// descendants: the root comes first, and every later entry lies in some
/// subdirectory's subtree.
pub proof fn lemma_traversal_parent_first(name: Seq<char>, d: Directory)
    ensures
        preorder(name, d)[0] == (name, d),
        forall|j: int|
            1 <= j < preorder(name, d).len() ==> exists|i: int|
                0 <= i < d.subdirectories@.len() && d.subdirectories@[i].1.in_tree(
                    (#[trigger] preorder(name, d)[j]).1,
                ),
{
    let n = d.subdirectories@.len() as int;
    lemma_children_sound(d, n);
    let st = preorder(name, d);
    assert forall|j: int| 1 <= j < st.len() implies exists|i: int|
        0 <= i < d.subdirectories@.len() && d.subdirectories@[i].1.in_tree(
            (#[trigger] st[j]).1,
        ) by {
        assert(st[j] == children_preorder(d, n)[j - 1]);
        let i = choose|i: int|
            0 <= i < n && d.subdirectories@[i].1.in_tree(
                (#[trigger] children_preorder(d, n)[j - 1]).1,
            );
        assert(0 <= i < n && d.subdirectories@[i].1.in_tree(st[j].1));
    }
}

} // verus!
