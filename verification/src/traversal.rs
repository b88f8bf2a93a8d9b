//! Pre-order, depth-first enumeration of every node of a directory tree,
//! parent before descendants, and the aggregate size queries computed from
//! it.

use vstd::prelude::*;
use crate::directory::Directory;

verus! {

/// The pre-order stream of a tree: the node itself (under `name`), then the
/// streams of its subdirectories in order.
pub open spec fn preorder(name: Seq<char>, d: Directory) -> Seq<(Seq<char>, Directory)>
    decreases d, d.subdirectories@.len() + 1,
{
    seq![(name, d)] + children_preorder(d, d.subdirectories@.len() as int)
}

/// The concatenated pre-order streams of the first `n` subdirectories of `d`.
pub open spec fn children_preorder(d: Directory, n: int) -> Seq<(Seq<char>, Directory)>
    decreases d, n,
{
    if n <= 0 || n > d.subdirectories@.len() {
        Seq::empty()
    } else {
        children_preorder(d, n - 1) + preorder(
            d.subdirectories@[n - 1].0@,
            d.subdirectories@[n - 1].1,
        )
    }
}

/// A stream entry reduced to what callers observe: the name and the size.
pub open spec fn stream_view(st: Seq<(Seq<char>, Directory)>) -> Seq<(Seq<char>, int)> {
    st.map_values(|e: (Seq<char>, Directory)| (e.0, e.1.total_size()))
}

/// The observed stream of the whole tree, rooted at the synthetic name `/`.
pub open spec fn root_stream(d: Directory) -> Seq<(Seq<char>, int)> {
    stream_view(preorder("/"@, d))
}

/// The enumerator over a tree's nodes: yields one `(name, size)` pair per
/// node, parents strictly before their descendants.
pub struct DirectoryTraverse {
    pub items: Vec<(String, u64)>,
    pub pos: usize,
}

impl DirectoryTraverse {
    /// The cursor never passes the end.
    pub open spec fn wf(self) -> bool {
        self.pos <= self.items@.len()
    }

    /// The entries not yet yielded, in order.
    pub open spec fn remaining(self) -> Seq<(Seq<char>, int)> {
        self.items@.map_values(|e: (String, u64)| (e.0@, e.1 as int)).skip(self.pos as int)
    }

    /// Yields the next node's name and size, or nothing when exhausted.
    pub fn next(&mut self) -> (r: Option<(String, u64)>)
        requires
            old(self).wf(),
        ensures
            final(self).wf(),
            match r {
                Some(e) => {
                    &&& old(self).remaining().len() > 0
                    &&& (e.0@, e.1 as int) == old(self).remaining()[0]
                    &&& final(self).remaining() == old(self).remaining().drop_first()
                },
                None => {
                    &&& old(self).remaining().len() == 0
                    &&& final(self).remaining() == old(self).remaining()
                },
            },
    {
        let ghost m0 = self.items@.map_values(|e: (String, u64)| (e.0@, e.1 as int));
        if self.pos < self.items.len() {
            let e = &self.items[self.pos];
            let name = e.0.clone();
            let size = e.1;
            let ghost p0 = self.pos as int;
            self.pos = self.pos + 1;
            proof {
                assert(m0[p0] == (name@, size as int));
                assert(m0.skip(p0 + 1) =~= m0.skip(p0).drop_first());
            }
            Some((name, size))
        } else {
            None
        }
    }
}

impl Directory {
    /// Appends the whole observed stream of `self` (named `name`) to `out`.
    #[verifier::loop_isolation(false)]
    fn traverse_into(&self, name: String, out: &mut Vec<(String, u64)>)
        requires
            self.total_size() <= u64::MAX,
        ensures
            final(out)@.map_values(|e: (String, u64)| (e.0@, e.1 as int)) =~= old(out)@.map_values(
                |e: (String, u64)| (e.0@, e.1 as int),
            ) + stream_view(preorder(name@, *self)),
        decreases *self,
    {
        let ghost mapper = |e: (String, u64)| (e.0@, e.1 as int);
        let ghost m0 = out@.map_values(mapper);
        let s = self.size();
        out.push((name, s));
        let n = self.subdirectories.len();
        let mut i: usize = 0;
        proof {
            assert(out@.map_values(mapper) =~= m0 + stream_view(seq![(name@, *self)]) + stream_view(
                children_preorder(*self, 0),
            ));
        }
        while i < n
            invariant
                0 <= i <= n == self.subdirectories@.len(),
                out@.map_values(mapper) =~= m0 + stream_view(seq![(name@, *self)]) + stream_view(
                    children_preorder(*self, i as int),
                ),
            decreases n - i,
        {
            let entry = &self.subdirectories[i];
            proof {
                self.lemma_subdirs_size_below_nonneg(i as int);
                entry.1.lemma_total_size_nonneg();
                self.lemma_subdirs_size_below_mono(i + 1, n as int);
                self.lemma_files_size_below_nonneg(self.files@.len() as int);
                assert(decreases_to!(self => self.subdirectories));
                assert(decreases_to!(self.subdirectories => self.subdirectories@));
                assert(decreases_to!(self.subdirectories@ => self.subdirectories@[i as int]));
                assert(decreases_to!(
                    self.subdirectories@[i as int] => self.subdirectories@[i as int].1
                ));
            }
            let child_name = entry.0.clone();
            entry.1.traverse_into(child_name, out);
            proof {
                assert(stream_view(children_preorder(*self, i + 1)) =~= stream_view(
                    children_preorder(*self, i as int),
                ) + stream_view(
                    preorder(self.subdirectories@[i as int].0@, self.subdirectories@[i as int].1),
                ));
            }
            i = i + 1;
        }
        proof {
            assert(stream_view(preorder(name@, *self)) =~= stream_view(seq![(name@, *self)])
                + stream_view(children_preorder(*self, n as int)));
        }
    }

    /// Enumerates every node of the tree rooted here, starting with the
    /// synthetic pair `("/", whole tree)`, each node exactly once and every
    /// parent strictly before its descendants.
    pub fn traverse(&self) -> (r: DirectoryTraverse)
        requires
            self.total_size() <= u64::MAX,
        ensures
            r.wf(),
            r.remaining() == root_stream(*self),
    {
        let mut items: Vec<(String, u64)> = Vec::new();
        let name = String::from_str("/");
        proof {
            reveal_strlit("/");
            assert(name@ == "/"@);
        }
        self.traverse_into(name, &mut items);
        let t = DirectoryTraverse { items, pos: 0 };
        proof {
            assert(t.remaining() =~= root_stream(*self));
        }
        t
    }
}

/// The sum, over the first `n` stream entries, of the sizes under `limit`.
pub open spec fn small_sum_below(st: Seq<(Seq<char>, int)>, limit: int, n: int) -> int
    decreases n,
{
    if n <= 0 || n > st.len() {
        0
    } else {
        small_sum_below(st, limit, n - 1) + if st[n - 1].1 < limit {
            st[n - 1].1
        } else {
            0
        }
    }
}

/// The sum of all directory sizes in the stream that are under `limit`.
pub open spec fn small_sum(st: Seq<(Seq<char>, int)>, limit: int) -> int {
    small_sum_below(st, limit, st.len() as int)
}

proof fn lemma_small_sum_below_mono(st: Seq<(Seq<char>, int)>, limit: int, a: int, b: int)
    requires
        forall|i: int| 0 <= i < st.len() ==> (#[trigger] st[i]).1 >= 0,
        0 <= a <= b <= st.len(),
    ensures
        small_sum_below(st, limit, a) <= small_sum_below(st, limit, b),
        0 <= small_sum_below(st, limit, a),
    decreases b - a, a,
{
    if a < b {
        lemma_small_sum_below_mono(st, limit, a, b - 1);
    } else if a > 0 {
        lemma_small_sum_below_mono(st, limit, a - 1, a - 1);
    }
}

/// Sums the sizes of every node of the tree whose size is strictly under
/// `limit`, over the whole pre-order stream, or reports that the sum does
/// not fit in `u64`. Callers that cannot establish the bound of
/// [`sum_small_directories`] can test it through this function.
#[verifier::loop_isolation(false)]
pub fn checked_sum_small_directories(d: &Directory, limit: u64) -> (r: Option<u64>)
    requires
        d.total_size() <= u64::MAX,
    ensures
        match r {
            Some(v) => v == small_sum(root_stream(*d), limit as int),
            None => small_sum(root_stream(*d), limit as int) > u64::MAX,
        },
{
    let ghost st = root_stream(*d);
    proof {
        assert forall|i: int| 0 <= i < st.len() implies (#[trigger] st[i]).1 >= 0 by {
            let pre = preorder("/"@, *d);
            assert(st[i].1 == pre[i].1.total_size());
            pre[i].1.lemma_total_size_nonneg();
        }
    }
    let mut iter = d.traverse();
    let ghost full = iter.remaining();
    let mut acc: u64 = 0;
    let ghost mut n: int = 0;
    loop
        invariant
            iter.wf(),
            full == st,
            0 <= n <= st.len(),
            iter.remaining() =~= st.skip(n),
            acc == small_sum_below(st, limit as int, n),
        decreases st.len() - n,
    {
        match iter.next() {
            None => {
                break ;
            },
            Some(e) => {
                proof {
                    assert(st.skip(n)[0] == st[n]);
                    lemma_small_sum_below_mono(st, limit as int, n + 1, st.len() as int);
                    assert(st.skip(n).drop_first() =~= st.skip(n + 1));
                }
                if e.1 < limit {
                    acc = match acc.checked_add(e.1) {
                        Some(v) => v,
                        None => {
                            return None;
                        },
                    };
                }
                proof { n = n + 1; }
            },
        }
    }
    Some(acc)
}

/// Sums the sizes of every node of the tree whose size is strictly under
/// `limit`, over the whole pre-order stream.
pub fn sum_small_directories(d: &Directory, limit: u64) -> (r: u64)
    requires
        d.total_size() <= u64::MAX,
        small_sum(root_stream(*d), limit as int) <= u64::MAX,
    ensures
        r == small_sum(root_stream(*d), limit as int),
{
    match checked_sum_small_directories(d, limit) {
        Some(v) => v,
        None => unreached(),
    }
}

/// Finds the smallest directory size in the tree that is at least `bound`;
/// `None` exactly when no node of the tree is that large.
#[verifier::loop_isolation(false)]
pub fn smallest_directory_at_least(d: &Directory, bound: u64) -> (r: Option<u64>)
    requires
        d.total_size() <= u64::MAX,
    ensures
        ({
            let st = root_stream(*d);
            match r {
                Some(v) => {
                    &&& v >= bound
                    &&& exists|i: int| 0 <= i < st.len() && (#[trigger] st[i]).1 == v
                    &&& forall|i: int|
                        0 <= i < st.len() && (#[trigger] st[i]).1 >= bound ==> v <= st[i].1
                },
                None => forall|i: int| 0 <= i < st.len() ==> (#[trigger] st[i]).1 < bound,
            }
        }),
{
    let ghost st = root_stream(*d);
    let mut iter = d.traverse();
    let mut best: Option<u64> = None;
    let ghost mut n: int = 0;
    loop
        invariant
            iter.wf(),
            0 <= n <= st.len(),
            iter.remaining() =~= st.skip(n),
            match best {
                Some(v) => {
                    &&& v >= bound
                    &&& exists|i: int| 0 <= i < n && (#[trigger] st[i]).1 == v
                    &&& forall|i: int|
                        0 <= i < n && (#[trigger] st[i]).1 >= bound ==> v <= st[i].1
                },
                None => forall|i: int| 0 <= i < n ==> (#[trigger] st[i]).1 < bound,
            },
        decreases st.len() - n,
    {
        match iter.next() {
            None => {
                break ;
            },
            Some(e) => {
                proof {
                    assert(st.skip(n)[0] == st[n]);
                    assert(st.skip(n).drop_first() =~= st.skip(n + 1));
                }
                if e.1 >= bound {
                    best = match best {
                        None => Some(e.1),
                        Some(v) => if e.1 < v {
                            Some(e.1)
                        } else {
                            Some(v)
                        },
                    };
                }
                proof { n = n + 1; }
            },
        }
    }
    best
}

} // verus!
