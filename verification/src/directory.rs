//! The sparse directory tree: each node owns named subdirectories and named
//! files with sizes. Nodes are merged and extended as shell-session listings
//! arrive, and total sizes are computed recursively on demand.

use vstd::prelude::*;

verus! {

/// One directory: named child directories and named files with sizes.
/// Both name spaces are kept free of duplicates (see [`Directory::wf`]).
pub struct Directory {
    pub subdirectories: Vec<(String, Directory)>,
    pub files: Vec<(String, u64)>,
}

/// Some entry of `s` is named `n`.
pub open spec fn sp_has<T>(s: Seq<(String, T)>, n: Seq<char>) -> bool {
    exists|i: int| 0 <= i < s.len() && #[trigger] s[i].0@ == n
}

/// The index of an entry of `s` named `n` (meaningful under [`sp_has`]).
pub open spec fn sp_index_of<T>(s: Seq<(String, T)>, n: Seq<char>) -> int {
    choose|i: int| 0 <= i < s.len() && #[trigger] s[i].0@ == n
}

/// The value of the entry of `s` named `n` (meaningful under [`sp_unique`]).
pub open spec fn sp_get<T>(s: Seq<(String, T)>, n: Seq<char>) -> T {
    s[sp_index_of(s, n)].1
}

/// No two entries of `s` share a name.
pub open spec fn sp_unique<T>(s: Seq<(String, T)>) -> bool {
    forall|i: int, j: int| 0 <= i < j < s.len() ==> (#[trigger] s[i].0@) != (#[trigger] s[j].0@)
}

impl Directory {
    /// The directory has a file named `n`.
    pub open spec fn has_file(self, n: Seq<char>) -> bool {
        sp_has(self.files@, n)
    }

    /// The size recorded for the file named `n`.
    pub open spec fn file_size(self, n: Seq<char>) -> u64 {
        sp_get(self.files@, n)
    }

    /// The directory has a subdirectory named `n`.
    pub open spec fn has_subdir(self, n: Seq<char>) -> bool {
        sp_has(self.subdirectories@, n)
    }

    /// The subdirectory named `n`.
    pub open spec fn subdir(self, n: Seq<char>) -> Directory {
        sp_get(self.subdirectories@, n)
    }

    /// Within each node, file names are unique and subdirectory names are
    /// unique, recursively through the whole tree.
    pub open spec fn wf(self) -> bool
        decreases self,
    {
        &&& sp_unique(self.files@)
        &&& sp_unique(self.subdirectories@)
        &&& forall|i: int|
            0 <= i < self.subdirectories@.len() ==> (#[trigger] self.subdirectories@[i]).1.wf()
    }

    /// The sum of the sizes of the first `n` files of this node.
    pub open spec fn files_size_below(self, n: int) -> int
        decreases n,
    {
        if n <= 0 || n > self.files@.len() {
            0
        } else {
            self.files_size_below(n - 1) + self.files@[n - 1].1
        }
    }

    /// The sum of the total sizes of the first `n` subdirectories.
    pub open spec fn subdirs_size_below(self, n: int) -> int
        decreases self, n,
    {
        if n <= 0 || n > self.subdirectories@.len() {
            0
        } else {
            self.subdirs_size_below(n - 1) + self.subdirectories@[n - 1].1.total_size()
        }
    }

    /// The total size of the tree rooted here: all file sizes of this node
    /// plus the recursively computed sizes of all subdirectories.
    pub open spec fn total_size(self) -> int
        decreases self, self.subdirectories@.len() + 1,
    {
        self.files_size_below(self.files@.len() as int) + self.subdirs_size_below(
            self.subdirectories@.len() as int,
        )
    }

    pub proof fn lemma_files_size_below_nonneg(self, n: int)
        ensures
            0 <= self.files_size_below(n),
        decreases n,
    {
        if n > 0 {
            self.lemma_files_size_below_nonneg(n - 1);
        }
    }

    pub proof fn lemma_subdirs_size_below_nonneg(self, n: int)
        requires
            n <= self.subdirectories@.len(),
        ensures
            0 <= self.subdirs_size_below(n),
        decreases self, n,
    {
        if n > 0 {
            self.lemma_subdirs_size_below_nonneg(n - 1);
            self.subdirectories@[n - 1].1.lemma_total_size_nonneg();
        }
    }

    /// A tree's total size is never negative.
    pub proof fn lemma_total_size_nonneg(self)
        ensures
            0 <= self.total_size(),
        decreases self, self.subdirectories@.len() + 1,
    {
        self.lemma_files_size_below_nonneg(self.files@.len() as int);
        self.lemma_subdirs_size_below_nonneg(self.subdirectories@.len() as int);
    }

    pub proof fn lemma_files_size_below_mono(self, a: int, b: int)
        requires
            a <= b <= self.files@.len(),
        ensures
            self.files_size_below(a) <= self.files_size_below(b),
        decreases b - a,
    {
        if a < b {
            self.lemma_files_size_below_mono(a, b - 1);
        }
    }

    pub proof fn lemma_subdirs_size_below_mono(self, a: int, b: int)
        requires
            a <= b <= self.subdirectories@.len(),
        ensures
            self.subdirs_size_below(a) <= self.subdirs_size_below(b),
        decreases b - a,
    {
        if a < b {
            self.lemma_subdirs_size_below_mono(a, b - 1);
            self.subdirectories@[b - 1].1.lemma_total_size_nonneg();
        }
    }

    /// `x` is a node of the tree rooted at `self` (possibly the root).
    pub open spec fn in_tree(self, x: Directory) -> bool
        decreases self,
    {
        x == self || exists|i: int|
            0 <= i < self.subdirectories@.len() && (#[trigger] self.subdirectories@[i]).1.in_tree(
                x,
            )
    }

    /// The number of nodes among the first `n` subdirectories' subtrees.
    pub open spec fn count_below(self, n: int) -> int
        decreases self, n,
    {
        if n <= 0 || n > self.subdirectories@.len() {
            0
        } else {
            self.count_below(n - 1) + self.subdirectories@[n - 1].1.node_count()
        }
    }

    /// The number of nodes of the tree rooted here, the root included.
    pub open spec fn node_count(self) -> int
        decreases self, self.subdirectories@.len() + 1,
    {
        1 + self.count_below(self.subdirectories@.len() as int)
    }

    /// Creates an empty directory: no files, no subdirectories.
    pub fn new() -> (r: Directory)
        ensures
            r.subdirectories@.len() == 0,
            r.files@.len() == 0,
            r.wf(),
            r.total_size() == 0,
    {
        Directory { subdirectories: Vec::new(), files: Vec::new() }
    }

    /// Computes the total size of the tree rooted here.
    pub fn size(&self) -> (r: u64)
        requires
            self.total_size() <= u64::MAX,
        ensures
            r == self.total_size(),
        decreases *self,
    {
        proof {
            self.lemma_files_size_below_nonneg(self.files@.len() as int);
            self.lemma_subdirs_size_below_nonneg(self.subdirectories@.len() as int);
        }
        let mut total: u64 = 0;
        let mut i: usize = 0;
        let n = self.subdirectories.len();
        while i < n
            invariant
                0 <= i <= n == self.subdirectories@.len(),
                self.total_size() <= u64::MAX,
                0 <= self.files_size_below(self.files@.len() as int),
                total == self.subdirs_size_below(i as int),
            decreases n - i,
        {
            let child = &self.subdirectories[i].1;
            proof {
                self.lemma_subdirs_size_below_nonneg(i as int);
                child.lemma_total_size_nonneg();
                self.lemma_subdirs_size_below_mono(i + 1, n as int);
            }
            let c = child.size();
            total = total + c;
            i = i + 1;
        }
        let mut j: usize = 0;
        let m = self.files.len();
        while j < m
            invariant
                0 <= j <= m == self.files@.len(),
                self.total_size() <= u64::MAX,
                total == self.subdirs_size_below(self.subdirectories@.len() as int)
                    + self.files_size_below(j as int),
            decreases m - j,
        {
            proof {
                self.lemma_files_size_below_mono(j + 1, m as int);
                self.lemma_subdirs_size_below_nonneg(self.subdirectories@.len() as int);
                self.lemma_files_size_below_nonneg(j as int);
            }
            total = total + self.files[j].1;
            j = j + 1;
        }
        total
    }
}

/// `post` is the result of absorbing `b` into `a`: files of `b` overwrite
/// files of `a` with the same name, subdirectories present on only one side
/// are kept as they are, and subdirectories present on both sides are merged
/// recursively.
pub open spec fn is_merge_of(post: Directory, a: Directory, b: Directory) -> bool
    decreases post,
    via is_merge_of_decreases
{
    &&& (forall|n: Seq<char>|
        #[trigger] post.has_file(n) <==> a.has_file(n) || b.has_file(n))
    &&& (forall|n: Seq<char>| b.has_file(n) ==> #[trigger] post.file_size(n) == b.file_size(n))
    &&& (forall|n: Seq<char>|
        a.has_file(n) && !b.has_file(n) ==> #[trigger] post.file_size(n) == a.file_size(n))
    &&& (forall|n: Seq<char>|
        #[trigger] post.has_subdir(n) <==> a.has_subdir(n) || b.has_subdir(n))
    &&& (forall|n: Seq<char>|
        a.has_subdir(n) && !b.has_subdir(n) ==> #[trigger] post.subdir(n) == a.subdir(n))
    &&& (forall|n: Seq<char>|
        !a.has_subdir(n) && b.has_subdir(n) ==> #[trigger] post.subdir(n) == b.subdir(n))
    &&& (forall|n: Seq<char>|
        a.has_subdir(n) && b.has_subdir(n) && post.has_subdir(n) ==> is_merge_of(
            #[trigger] post.subdir(n),
            a.subdir(n),
            b.subdir(n),
        ))
}

/// A subdirectory stands strictly below its parent in the termination order.
pub proof fn lemma_subdir_smaller(d: Directory, n: Seq<char>)
    requires
        d.has_subdir(n),
    ensures
        decreases_to!(d => d.subdir(n)),
{
    let s = d.subdirectories@;
    let k = sp_index_of(s, n);
    assert(0 <= k < s.len() && s[k].0@ == n);
    assert(d.subdir(n) == s[k].1);
    assert(decreases_to!(d => d.subdirectories));
    assert(decreases_to!(d.subdirectories => d.subdirectories@));
    assert(decreases_to!(s => s[k]));
    assert(decreases_to!(s[k] => s[k].1));
}

#[via_fn]
proof fn is_merge_of_decreases(post: Directory, a: Directory, b: Directory) {
    assert forall|n: Seq<char>| post.has_subdir(n) implies decreases_to!(post => post.subdir(n)) by {
        lemma_subdir_smaller(post, n);
    }
}

impl Directory {
    /// Absorbs another node's contents into this node, used when two
    /// listings describe the same directory. Files of `directory` overwrite
    /// same-named files here; subdirectories are merged recursively by name.
    #[verifier::loop_isolation(false)]
    pub fn merge(&mut self, directory: Directory)
        requires
            old(self).wf(),
            directory.wf(),
        ensures
            final(self).wf(),
            is_merge_of(*final(self), *old(self), directory),
        decreases directory,
    {
        let ghost s0 = *self;
        let ghost d0 = directory;
        let ghost f0 = directory.files@;
        let ghost g0 = s0.subdirectories@;
        let ghost gf = directory.subdirectories@;
        let Directory { subdirectories: mut osubs, files: mut ofiles } = directory;
        proof {
            assert(ofiles@ =~= f0.subrange(0, f0.len() as int));
            assert(osubs@ =~= gf.subrange(0, gf.len() as int));
        }
        while ofiles.len() > 0
            invariant
                sp_unique(self.files@),
                self.subdirectories@ == s0.subdirectories@,
                sp_unique(f0),
                ofiles@.len() <= f0.len(),
                ofiles@ == f0.subrange(0, ofiles@.len() as int),
                forall|n: Seq<char>|
                    #[trigger] sp_has(self.files@, n) <==> sp_has(s0.files@, n) || sp_has_from(
                        f0,
                        ofiles@.len() as int,
                        n,
                    ),
                forall|i: int|
                    ofiles@.len() <= i < f0.len() ==> sp_get(
                        self.files@,
                        (#[trigger] f0[i]).0@,
                    ) == f0[i].1,
                forall|n: Seq<char>|
                    sp_has(s0.files@, n) && !sp_has_from(f0, ofiles@.len() as int, n)
                        ==> #[trigger] sp_get(self.files@, n) == sp_get(s0.files@, n),
            decreases ofiles@.len(),
        {
            let ghost lp = ofiles@.len() as int;
            let e = match ofiles.pop() {
                Some(e) => e,
                None => unreached(),
            };
            proof {
                assert(e == f0.subrange(0, lp)[lp - 1]);
                assert(ofiles@ =~= f0.subrange(0, lp - 1));
            }
            let ghost v1 = self.files@;
            let i_found = position_of(&self.files, &e.0);
            match i_found {
                Some(i) => {
                    proof {
                        lemma_replace_entry(v1, i as int, e);
                    }
                    let _ = self.files.remove(i);
                    self.files.push(e);
                },
                None => {
                    proof {
                        lemma_append_entry(v1, e);
                    }
                    self.files.push(e);
                },
            }
            proof {
                assert forall|n: Seq<char>| sp_has_from(f0, lp - 1, n) implies (sp_has_from(
                    f0,
                    lp,
                    n,
                ) || n == e.0@) by {
                    let k = choose|k: int| lp - 1 <= k < f0.len() && #[trigger] f0[k].0@ == n;
                    if k >= lp {
                        assert(sp_has_from(f0, lp, n));
                    }
                }
                assert forall|n: Seq<char>| (sp_has_from(f0, lp, n) || n == e.0@) implies
                    sp_has_from(f0, lp - 1, n) by {
                    if n == e.0@ {
                        assert(f0[lp - 1].0@ == n);
                    } else {
                        let k = choose|k: int| lp <= k < f0.len() && #[trigger] f0[k].0@ == n;
                        assert(f0[k].0@ == n && lp - 1 <= k);
                    }
                }
                assert forall|i: int| lp - 1 <= i < f0.len() implies sp_get(
                    self.files@,
                    (#[trigger] f0[i]).0@,
                ) == f0[i].1 by {
                    if i == lp - 1 {
                        assert(sp_get(self.files@, e.0@) == e.1);
                    } else {
                        assert(f0[i].0@ != e.0@);
                        assert(sp_has(v1, f0[i].0@));
                    }
                }
            }
        }
        let ghost files_done = self.files@;
        proof {
            assert forall|n: Seq<char>| sp_has_from(f0, 0, n) <==> sp_has(f0, n) by {}
        }
        while osubs.len() > 0
            invariant
                self.files@ == files_done,
                sp_unique(self.subdirectories@),
                forall|i: int|
                    0 <= i < self.subdirectories@.len() ==> (#[trigger] self.subdirectories@[i]).1.wf(),
                sp_unique(g0),
                sp_unique(gf),
                forall|i: int| 0 <= i < gf.len() ==> (#[trigger] gf[i]).1.wf(),
                osubs@.len() <= gf.len(),
                osubs@ == gf.subrange(0, osubs@.len() as int),
                forall|n: Seq<char>|
                    #[trigger] sp_has(self.subdirectories@, n) <==> sp_has(g0, n) || sp_has_from(
                        gf,
                        osubs@.len() as int,
                        n,
                    ),
                forall|n: Seq<char>|
                    sp_has(g0, n) && !sp_has_from(gf, osubs@.len() as int, n)
                        ==> #[trigger] sp_get(self.subdirectories@, n) == sp_get(g0, n),
                forall|i: int|
                    osubs@.len() <= i < gf.len() && !sp_has(g0, (#[trigger] gf[i]).0@) ==> sp_get(
                        self.subdirectories@,
                        gf[i].0@,
                    ) == gf[i].1,
                forall|i: int|
                    osubs@.len() <= i < gf.len() && sp_has(g0, (#[trigger] gf[i]).0@)
                        ==> is_merge_of(
                        sp_get(self.subdirectories@, gf[i].0@),
                        sp_get(g0, gf[i].0@),
                        gf[i].1,
                    ),
            decreases osubs@.len(),
        {
            let ghost lp = osubs@.len() as int;
            let e = match osubs.pop() {
                Some(e) => e,
                None => unreached(),
            };
            proof {
                assert(e == gf.subrange(0, lp)[lp - 1]);
                assert(osubs@ =~= gf.subrange(0, lp - 1));
                assert(gf[lp - 1].1.wf());
            }
            let ghost v1 = self.subdirectories@;
            let ghost nm = e.0@;
            proof {
                assert forall|k: int| lp <= k < gf.len() implies (#[trigger] gf[k]).0@ != nm by {
                    assert(gf[lp - 1].0@ == nm);
                }
                assert(!sp_has_from(gf, lp, nm));
            }
            let i_found = position_of(&self.subdirectories, &e.0);
            match i_found {
                Some(i) => {
                    proof {
                        assert(sp_has(v1, nm));
                        assert(sp_has(g0, nm));
                        lemma_sp_get_at(v1, i as int);
                        assert(v1[i as int].1 == sp_get(g0, nm));
                        assert(decreases_to!(d0 => d0.subdirectories));
                        assert(decreases_to!(d0.subdirectories => d0.subdirectories@));
                        assert(decreases_to!(d0.subdirectories@ => d0.subdirectories@[lp - 1]));
                        assert(decreases_to!(
                            d0.subdirectories@[lp - 1] => d0.subdirectories@[lp - 1].1
                        ));
                        assert(decreases_to!(d0 => d0.subdirectories@[lp - 1].1));
                    }
                    let mut entry = self.subdirectories.remove(i);
                    entry.1.merge(e.1);
                    proof {
                        lemma_replace_entry(v1, i as int, entry);
                    }
                    self.subdirectories.push(entry);
                    proof {
                        assert forall|j: int|
                            0 <= j < self.subdirectories@.len() implies (
                        #[trigger] self.subdirectories@[j]).1.wf() by {
                            let v3 = self.subdirectories@;
                            if j < v3.len() - 1 {
                                if j < i as int {
                                    assert(v3[j] == v1[j]);
                                } else {
                                    assert(v3[j] == v1[j + 1]);
                                }
                            } else {
                                assert(v3[j] == entry);
                            }
                        }
                    }
                },
                None => {
                    proof {
                        assert(!sp_has(g0, nm));
                        lemma_append_entry(v1, e);
                    }
                    self.subdirectories.push(e);
                    proof {
                        assert forall|j: int|
                            0 <= j < self.subdirectories@.len() implies (
                        #[trigger] self.subdirectories@[j]).1.wf() by {
                            let v3 = self.subdirectories@;
                            if j < v3.len() - 1 {
                                assert(v3[j] == v1[j]);
                            } else {
                                assert(v3[j] == e);
                            }
                        }
                    }
                },
            }
            proof {
                assert forall|n: Seq<char>| sp_has_from(gf, lp - 1, n) implies (sp_has_from(
                    gf,
                    lp,
                    n,
                ) || n == nm) by {
                    let k = choose|k: int| lp - 1 <= k < gf.len() && #[trigger] gf[k].0@ == n;
                    if k >= lp {
                        assert(sp_has_from(gf, lp, n));
                    }
                }
                assert forall|n: Seq<char>| (sp_has_from(gf, lp, n) || n == nm) implies
                    sp_has_from(gf, lp - 1, n) by {
                    if n == nm {
                        assert(gf[lp - 1].0@ == n);
                    } else {
                        let k = choose|k: int| lp <= k < gf.len() && #[trigger] gf[k].0@ == n;
                        assert(gf[k].0@ == n && lp - 1 <= k);
                    }
                }
            }
        }
        proof {
            assert forall|n: Seq<char>| sp_has_from(gf, 0, n) <==> sp_has(gf, n) by {}
        }
    }
}

/// `post` holds exactly the contents of `frag` (used for a fragment inserted
/// beneath freshly created, empty intermediate nodes).
pub open spec fn merged_from_empty(post: Directory, frag: Directory) -> bool {
    &&& (forall|n: Seq<char>| #[trigger] post.has_file(n) <==> frag.has_file(n))
    &&& (forall|n: Seq<char>| frag.has_file(n) ==> #[trigger] post.file_size(n) == frag.file_size(n))
    &&& (forall|n: Seq<char>| #[trigger] post.has_subdir(n) <==> frag.has_subdir(n))
    &&& (forall|n: Seq<char>| frag.has_subdir(n) ==> #[trigger] post.subdir(n) == frag.subdir(n))
}

/// `post` is a chain of fresh empty directories along `path` ending in the
/// contents of `frag`.
pub open spec fn inserted_into_empty(post: Directory, path: Seq<Seq<char>>, frag: Directory) -> bool
    decreases path.len(),
{
    if path.len() == 0 {
        merged_from_empty(post, frag)
    } else {
        &&& (forall|n: Seq<char>| !(#[trigger] post.has_file(n)))
        &&& (forall|n: Seq<char>| #[trigger] post.has_subdir(n) <==> n == path[0])
        &&& inserted_into_empty(post.subdir(path[0]), path.drop_first(), frag)
    }
}

/// `post` is `pre` with the fragment `frag` inserted at the relative `path`:
/// everything off the path is untouched, missing directories along the path
/// are created empty, and `frag` is merged into the node the path names.
pub open spec fn is_insert_of(
    post: Directory,
    pre: Directory,
    path: Seq<Seq<char>>,
    frag: Directory,
) -> bool
    decreases path.len(),
{
    if path.len() == 0 {
        is_merge_of(post, pre, frag)
    } else {
        let head = path[0];
        &&& (forall|n: Seq<char>| #[trigger] post.has_file(n) <==> pre.has_file(n))
        &&& (forall|n: Seq<char>|
            pre.has_file(n) ==> #[trigger] post.file_size(n) == pre.file_size(n))
        &&& (forall|n: Seq<char>| #[trigger] post.has_subdir(n) <==> pre.has_subdir(n) || n == head)
        &&& (forall|n: Seq<char>|
            pre.has_subdir(n) && n != head ==> #[trigger] post.subdir(n) == pre.subdir(n))
        &&& post.has_subdir(head)
        &&& (pre.has_subdir(head) ==> is_insert_of(
            post.subdir(head),
            pre.subdir(head),
            path.drop_first(),
            frag,
        ))
        &&& (!pre.has_subdir(head) ==> inserted_into_empty(
            post.subdir(head),
            path.drop_first(),
            frag,
        ))
    }
}

/// Inserting into a node with no contents leaves only the fresh chain.
pub proof fn lemma_insert_into_empty(post: Directory, pre: Directory, path: Seq<Seq<char>>, frag: Directory)
    requires
        is_insert_of(post, pre, path, frag),
        pre.files@.len() == 0,
        pre.subdirectories@.len() == 0,
    ensures
        inserted_into_empty(post, path, frag),
{
    assert(forall|n: Seq<char>| !(#[trigger] pre.has_file(n)));
    assert(forall|n: Seq<char>| !(#[trigger] pre.has_subdir(n)));
}

impl Directory {
    /// Inserts a parsed listing fragment at a relative path beneath this
    /// node. An empty path merges the fragment into this node; otherwise the
    /// subdirectory named by the first segment is found or created empty and
    /// the fragment descends into it.
    #[verifier::loop_isolation(false)]
    pub fn insert(&mut self, path: &[String], directory: Directory)
        requires
            old(self).wf(),
            directory.wf(),
        ensures
            final(self).wf(),
            is_insert_of(*final(self), *old(self), path.deep_view(), directory),
        decreases path@.len(),
    {
        let ghost s0 = *self;
        let ghost p = path.deep_view();
        if path.len() == 0 {
            self.merge(directory);
            return ;
        }
        let head = vstd::slice::slice_index_get(path, 0);
        let tail = vstd::slice::slice_subrange(path, 1, path.len());
        let ghost head_n = head@;
        proof {
            assert(p[0] == path@[0].deep_view());
            assert(p[0] == head_n);
            assert(tail.deep_view() =~= p.drop_first());
        }
        let ghost v1 = self.subdirectories@;
        match position_of(&self.subdirectories, head) {
            Some(i) => {
                proof {
                    lemma_sp_get_at(v1, i as int);
                    assert(v1[i as int].1.wf());
                }
                let mut entry = self.subdirectories.remove(i);
                entry.1.insert(tail, directory);
                proof {
                    lemma_replace_entry(v1, i as int, entry);
                }
                self.subdirectories.push(entry);
                proof {
                    assert forall|j: int|
                        0 <= j < self.subdirectories@.len() implies (
                    #[trigger] self.subdirectories@[j]).1.wf() by {
                        let v3 = self.subdirectories@;
                        if j < v3.len() - 1 {
                            if j < i as int {
                                assert(v3[j] == v1[j]);
                            } else {
                                assert(v3[j] == v1[j + 1]);
                            }
                        } else {
                            assert(v3[j] == entry);
                        }
                    }
                    assert(self.subdir(head_n) == entry.1);
                }
            },
            None => {
                let mut child = Directory::new();
                let ghost empty_child = child;
                child.insert(tail, directory);
                proof {
                    lemma_insert_into_empty(child, empty_child, p.drop_first(), directory);
                }
                let entry = (head.clone(), child);
                proof {
                    assert(entry.0@ == head_n);
                    lemma_append_entry(v1, entry);
                }
                self.subdirectories.push(entry);
                proof {
                    assert forall|j: int|
                        0 <= j < self.subdirectories@.len() implies (
                    #[trigger] self.subdirectories@[j]).1.wf() by {
                        let v3 = self.subdirectories@;
                        if j < v3.len() - 1 {
                            assert(v3[j] == v1[j]);
                        } else {
                            assert(v3[j] == entry);
                        }
                    }
                    assert(self.subdir(head_n) == child);
                }
            },
        }
    }
}

impl Directory {
    /// Computes the total size of the tree rooted here, or reports that it
    /// does not fit in `u64`. Callers that cannot establish the bound of
    /// [`Directory::size`] can test it through this function.
    #[verifier::loop_isolation(false)]
    pub fn checked_size(&self) -> (r: Option<u64>)
        ensures
            match r {
                Some(v) => v == self.total_size(),
                None => self.total_size() > u64::MAX,
            },
        decreases *self,
    {
        proof {
            self.lemma_files_size_below_nonneg(self.files@.len() as int);
            self.lemma_subdirs_size_below_nonneg(self.subdirectories@.len() as int);
        }
        let mut total: u64 = 0;
        let n = self.subdirectories.len();
        let mut i: usize = 0;
        while i < n
            invariant
                0 <= i <= n == self.subdirectories@.len(),
                total == self.subdirs_size_below(i as int),
            decreases n - i,
        {
            let child = &self.subdirectories[i].1;
            let c = match child.checked_size() {
                Some(c) => c,
                None => {
                    proof {
                        self.lemma_subdirs_size_below_mono(i + 1, n as int);
                    }
                    return None;
                },
            };
            let t = match total.checked_add(c) {
                Some(t) => t,
                None => {
                    proof {
                        self.lemma_subdirs_size_below_mono(i + 1, n as int);
                    }
                    return None;
                },
            };
            total = t;
            i = i + 1;
        }
        let m = self.files.len();
        let mut j: usize = 0;
        while j < m
            invariant
                0 <= j <= m == self.files@.len(),
                total == self.subdirs_size_below(self.subdirectories@.len() as int)
                    + self.files_size_below(j as int),
            decreases m - j,
        {
            let t = match total.checked_add(self.files[j].1) {
                Some(t) => t,
                None => {
                    proof {
                        self.lemma_files_size_below_mono(j + 1, m as int);
                    }
                    return None;
                },
            };
            total = t;
            j = j + 1;
        }
        Some(total)
    }

    /// How many files this node itself declares.
    pub fn file_count(&self) -> (r: usize)
        ensures
            r == self.files@.len(),
    {
        self.files.len()
    }

    /// How many subdirectories this node has.
    pub fn subdir_count(&self) -> (r: usize)
        ensures
            r == self.subdirectories@.len(),
    {
        self.subdirectories.len()
    }

    /// The recorded size of the file named `name`, if this node has one.
    pub fn file_size_of(&self, name: &String) -> (r: Option<u64>)
        requires
            self.wf(),
        ensures
            match r {
                Some(v) => self.has_file(name@) && v == self.file_size(name@),
                None => !self.has_file(name@),
            },
    {
        match position_of(&self.files, name) {
            Some(i) => {
                proof {
                    lemma_sp_get_at(self.files@, i as int);
                }
                Some(self.files[i].1)
            },
            None => None,
        }
    }

    /// The subdirectory named `name`, if this node has one.
    pub fn subdir_named(&self, name: &String) -> (r: Option<&Directory>)
        requires
            self.wf(),
        ensures
            match r {
                Some(d) => self.has_subdir(name@) && *d == self.subdir(name@) && d.wf(),
                None => !self.has_subdir(name@),
            },
    {
        match position_of(&self.subdirectories, name) {
            Some(i) => {
                proof {
                    lemma_sp_get_at(self.subdirectories@, i as int);
                }
                let e = &self.subdirectories[i];
                Some(&e.1)
            },
            None => None,
        }
    }
}

impl Default for Directory {
    /// An empty directory, as [`Directory::new`] makes one.
    fn default() -> (r: Directory)
        ensures
            r.subdirectories@.len() == 0,
            r.files@.len() == 0,
    {
        Directory::new()
    }
}

/// Some entry of `s` at or after position `from` is named `n`.
pub open spec fn sp_has_from<T>(s: Seq<(String, T)>, from: int, n: Seq<char>) -> bool {
    exists|i: int| from <= i < s.len() && #[trigger] s[i].0@ == n
}

/// Under uniqueness, the entry found by lookup at a name is the entry at any
/// index bearing that name.
pub proof fn lemma_sp_get_at<T>(s: Seq<(String, T)>, i: int)
    requires
        sp_unique(s),
        0 <= i < s.len(),
    ensures
        sp_has(s, s[i].0@),
        sp_get(s, s[i].0@) == s[i].1,
{
    let n = s[i].0@;
    assert(sp_has(s, n));
    let k = choose|k: int| 0 <= k < s.len() && #[trigger] s[k].0@ == n;
    if k < i {
        assert(s[k].0@ != s[i].0@);
    } else if i < k {
        assert(s[i].0@ != s[k].0@);
    }
}

/// Removing the entry at `idx` and appending an entry with the same name
/// keeps the name set, replaces that name's value, and leaves every other
/// entry's value in place.
pub proof fn lemma_replace_entry<T>(v1: Seq<(String, T)>, idx: int, e: (String, T))
    requires
        sp_unique(v1),
        0 <= idx < v1.len(),
        e.0@ == v1[idx].0@,
    ensures
        ({
            let v3 = v1.remove(idx).push(e);
            &&& sp_unique(v3)
            &&& v3.len() == v1.len()
            &&& forall|n: Seq<char>| sp_has(v3, n) <==> sp_has(v1, n)
            &&& sp_has(v3, e.0@)
            &&& sp_get(v3, e.0@) == e.1
            &&& forall|n: Seq<char>|
                sp_has(v1, n) && n != e.0@ ==> sp_has(v3, n) && sp_get(v3, n) == sp_get(v1, n)
            &&& forall|j: int|
                0 <= j < v3.len() ==> (#[trigger] v3[j]) == e || exists|k: int|
                    0 <= k < v1.len() && k != idx && v3[j] == v1[k]
        }),
{
    let v2 = v1.remove(idx);
    let v3 = v2.push(e);
    let last = v3.len() - 1;
    // each position of v3 is either the new entry or an old entry other than idx
    assert forall|j: int| 0 <= j < v3.len() implies (#[trigger] v3[j]) == e || exists|k: int|
        0 <= k < v1.len() && k != idx && v3[j] == v1[k] by {
        if j < last {
            if j < idx {
                assert(v3[j] == v1[j]);
            } else {
                assert(v3[j] == v1[j + 1]);
            }
        }
    }
    assert(sp_unique(v3)) by {
        assert forall|i: int, j: int| 0 <= i < j < v3.len() implies (#[trigger] v3[i].0@) != (
        #[trigger] v3[j].0@) by {
            let oi = if i < idx {
                i
            } else {
                i + 1
            };
            let oj = if j < idx {
                j
            } else {
                j + 1
            };
            if j < last {
                assert(v3[i] == v1[oi] && v3[j] == v1[oj]);
                assert(v1[oi].0@ != v1[oj].0@);
            } else {
                assert(v3[i] == v1[oi]);
                assert(oi != idx);
                if oi < idx {
                    assert(v1[oi].0@ != v1[idx].0@);
                } else {
                    assert(v1[idx].0@ != v1[oi].0@);
                }
            }
        }
    }
    assert forall|n: Seq<char>| sp_has(v1, n) implies sp_has(v3, n) by {
        let k = choose|k: int| 0 <= k < v1.len() && #[trigger] v1[k].0@ == n;
        if k == idx {
            assert(v3[last].0@ == n);
        } else if k < idx {
            assert(v3[k].0@ == n);
        } else {
            assert(v3[k - 1].0@ == n);
        }
    }
    assert forall|n: Seq<char>| sp_has(v3, n) implies sp_has(v1, n) by {
        let k = choose|k: int| 0 <= k < v3.len() && #[trigger] v3[k].0@ == n;
        if k == last {
            assert(v1[idx].0@ == n);
        } else if k < idx {
            assert(v1[k].0@ == n);
        } else {
            assert(v1[k + 1].0@ == n);
        }
    }
    lemma_sp_get_at(v3, last);
    assert forall|n: Seq<char>| sp_has(v1, n) && n != e.0@ implies sp_has(v3, n) && sp_get(v3, n)
        == sp_get(v1, n) by {
        let k = choose|k: int| 0 <= k < v1.len() && #[trigger] v1[k].0@ == n;
        lemma_sp_get_at(v1, k);
        assert(k != idx);
        let k3 = if k < idx {
            k
        } else {
            k - 1
        };
        assert(v3[k3] == v1[k]);
        lemma_sp_get_at(v3, k3);
    }
}

/// Appending an entry with a fresh name adds exactly that name and leaves
/// every old entry's value in place.
pub proof fn lemma_append_entry<T>(v1: Seq<(String, T)>, e: (String, T))
    requires
        sp_unique(v1),
        !sp_has(v1, e.0@),
    ensures
        ({
            let v3 = v1.push(e);
            &&& sp_unique(v3)
            &&& v3.len() == v1.len() + 1
            &&& forall|n: Seq<char>| sp_has(v3, n) <==> (sp_has(v1, n) || n == e.0@)
            &&& sp_has(v3, e.0@)
            &&& sp_get(v3, e.0@) == e.1
            &&& forall|n: Seq<char>|
                sp_has(v1, n) && n != e.0@ ==> sp_has(v3, n) && sp_get(v3, n) == sp_get(v1, n)
            &&& forall|j: int|
                0 <= j < v3.len() ==> (#[trigger] v3[j]) == e || exists|k: int|
                    0 <= k < v1.len() && v3[j] == v1[k]
        }),
{
    let v3 = v1.push(e);
    let last = v3.len() - 1;
    assert forall|j: int| 0 <= j < v3.len() implies (#[trigger] v3[j]) == e || exists|k: int|
        0 <= k < v1.len() && v3[j] == v1[k] by {
        if j < last {
            assert(v3[j] == v1[j]);
        }
    }
    assert(sp_unique(v3)) by {
        assert forall|i: int, j: int| 0 <= i < j < v3.len() implies (#[trigger] v3[i].0@) != (
        #[trigger] v3[j].0@) by {
            if j < last {
                assert(v3[i] == v1[i] && v3[j] == v1[j]);
                assert(v1[i].0@ != v1[j].0@);
            } else {
                assert(v3[i] == v1[i]);
                if v1[i].0@ == e.0@ {
                    assert(sp_has(v1, e.0@));
                }
            }
        }
    }
    assert forall|n: Seq<char>| sp_has(v3, n) implies (sp_has(v1, n) || n == e.0@) by {
        let k = choose|k: int| 0 <= k < v3.len() && #[trigger] v3[k].0@ == n;
        if k < last {
            assert(v1[k].0@ == n);
        }
    }
    assert forall|n: Seq<char>| sp_has(v1, n) implies sp_has(v3, n) by {
        let k = choose|k: int| 0 <= k < v1.len() && #[trigger] v1[k].0@ == n;
        assert(v3[k].0@ == n);
    }
    assert(v3[last] == e);
    lemma_sp_get_at(v3, last);
    assert forall|n: Seq<char>| sp_has(v1, n) && n != e.0@ implies sp_has(v3, n) && sp_get(v3, n)
        == sp_get(v1, n) by {
        let k = choose|k: int| 0 <= k < v1.len() && #[trigger] v1[k].0@ == n;
        lemma_sp_get_at(v1, k);
        assert(v3[k] == v1[k]);
        lemma_sp_get_at(v3, k);
    }
}

/// Finds the position of the entry named `name`, if any.
pub(crate) fn position_of<T>(entries: &Vec<(String, T)>, name: &String) -> (r: Option<usize>)
    ensures
        match r {
            Some(i) => i < entries@.len() && entries@[i as int].0@ == name@,
            None => !sp_has(entries@, name@),
        },
{
    let mut i: usize = 0;
    let n = entries.len();
    while i < n
        invariant
            0 <= i <= n == entries@.len(),
            forall|j: int| 0 <= j < i ==> (#[trigger] entries@[j].0@) != name@,
        decreases n - i,
    {
        let e = &entries[i];
        if e.0.eq(name) {
            return Some(i);
        }
        i = i + 1;
    }
    None
}

} // verus!
