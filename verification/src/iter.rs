//! Depth-first iterators over an `FsTree`.
//!
//! Nodes are visited in depth-first pre-order, the children of a directory in name order.
//! Each visited node comes with its depth (the root is at depth 0) and its path relative to
//! the root (the names of every directory on the way, then its own).
use vstd::prelude::*;

use crate::fs_tree::{FsNode, FsTree};
use crate::path::FsPath;

verus! {

/// A visited node: the node, its depth and its path.
pub type Visit = (FsNode, nat, Seq<Seq<char>>);

/// The nodes of `n` in depth-first pre-order, `n` at depth `d` and path `p`.
pub open spec fn preorder(n: FsNode, d: nat, p: Seq<Seq<char>>) -> Seq<Visit>
    decreases n,
{
    seq![(n, d, p)] + match n {
        FsNode::Directory(ps) => preorder_pairs(ps, d + 1, p),
        _ => Seq::empty(),
    }
}

/// The nodes under the children `ps`, in order, each child at depth `d` below path `p`.
pub open spec fn preorder_pairs(ps: Seq<(Seq<char>, FsNode)>, d: nat, p: Seq<Seq<char>>) -> Seq<
    Visit,
>
    decreases ps,
{
    if ps.len() == 0 {
        Seq::empty()
    } else {
        preorder_pairs(ps.drop_last(), d, p) + preorder(ps.last().1, d, p.push(ps.last().0))
    }
}

/// The filters that an iterator applies to the nodes it visits.
pub struct Filters {
    pub skip_regular_files: bool,
    pub skip_dirs: bool,
    pub skip_symlinks: bool,
    pub min_depth: usize,
    pub max_depth: usize,
}

/// Whether a visit passes the filters.
pub open spec fn passes(f: Filters, v: Visit) -> bool {
    !((f.skip_regular_files && v.0 is Regular) || (f.skip_dirs && v.0 is Directory) || (
    f.skip_symlinks && v.0 is Symlink) || v.1 < f.min_depth || v.1 > f.max_depth)
}

/// The number of visits at the front of `s` that the filters drop before one passes.
pub open spec fn dropped_before(f: Filters, s: Seq<Visit>) -> nat
    decreases s.len(),
{
    if s.len() == 0 || passes(f, s[0]) {
        0
    } else {
        1 + dropped_before(f, s.drop_first())
    }
}

/// The filters that let everything through.
pub open spec fn no_filters() -> Filters {
    Filters {
        skip_regular_files: false,
        skip_dirs: false,
        skip_symlinks: false,
        min_depth: 0,
        max_depth: usize::MAX,
    }
}

/// A pending visit: the node, its depth and its path.
type Pending<'a> = (&'a FsTree, usize, FsPath);

/// The model of a sequence of pending visits.
pub open spec fn visits_view<'a>(v: Seq<(&'a FsTree, usize, FsPath)>) -> Seq<Visit> {
    Seq::new(v.len(), |i: int| (v[i].0@, v[i].1 as nat, v[i].2@))
}

/// Appends the visits of `t` (at depth `depth` and path `path`) to `out`, in pre-order.
pub(crate) fn collect_preorder<'a>(
    t: &'a FsTree,
    depth: usize,
    path: FsPath,
    out: &mut Vec<(&'a FsTree, usize, FsPath)>,
)
    requires
        depth + crate::fs_tree::node_count(t@) <= usize::MAX,
    ensures
        visits_view(final(out)@) == visits_view(old(out)@) + preorder(t@, depth as nat, path@),
    decreases t,
{
    let ghost before = visits_view(out@);
    let ghost pv = path@;
    let here = path.copy();
    out.push((t, depth, path));
    assert(visits_view(out@) =~= before + seq![(t@, depth as nat, pv)]);
    match t {
        FsTree::Directory(children) => {
            let entries = children.as_slice();
            proof {
                crate::fs_tree::lemma_pairs_view(entries@);
            }
            let ghost mid = visits_view(out@);
            let mut i: usize = 0;
            while i < entries.len()
                invariant
                    i <= entries@.len(),
                    children@ == crate::fs_tree::pairs_view(entries@),
                    children@.len() == entries@.len(),
                    forall|j: int|
                        0 <= j < entries@.len() ==> #[trigger] children@[j] == (
                            entries@[j].0@,
                            entries@[j].1@,
                        ),
                    depth + crate::fs_tree::node_count(t@) <= usize::MAX,
                    *t == FsTree::Directory(*children),
                    entries@ == children.pairs(),
                    here@ == pv,
                    visits_view(out@) == mid + preorder_pairs(
                        children@.take(i as int),
                        depth as nat + 1,
                        pv,
                    ),
                decreases entries@.len() - i,
            {
                assert(children@.take(i + 1).drop_last() == children@.take(i as int));
                assert(children@.take(i + 1).last() == children@[i as int]);
                proof {
                    crate::fs_tree::lemma_count_nodes_prefix(children@, i + 1);
                    assert(crate::fs_tree::node_count(children@[i as int].1)
                        <= crate::fs_tree::count_nodes(children@.take(i + 1)));
                    crate::fs_tree::lemma_child_decreases(*children, i as int);
                }
                let mut child_path = here.copy();
                child_path.push_piece(entries[i].0.clone());
                let ghost mid2 = visits_view(out@);
                collect_preorder(&entries[i].1, depth + 1, child_path, out);
                i += 1;
                assert(visits_view(out@) =~= mid + preorder_pairs(
                    children@.take(i as int),
                    depth as nat + 1,
                    pv,
                ));
            }
            assert(children@.take(i as int) == children@);
        },
        _ => {
            assert(visits_view(out@) =~= before + preorder(t@, depth as nat, pv));
        },
    }
}

/// The traversal shared by the iterators: the visits still to come, the filters, and the
/// depth of the last visit handed out.
struct InnerIter<'a> {
    // Visits still to come, the next one last.
    pending: Vec<(&'a FsTree, usize, FsPath)>,
    current_depth: usize,
    filters: Filters,
}

impl<'a> InnerIter<'a> {
    /// The visits still to come, in order.
    closed spec fn remaining(self) -> Seq<Visit> {
        visits_view(self.pending@).reverse()
    }

    /// A traversal of `root` with no filters.
    fn new(root: &'a FsTree) -> (r: InnerIter<'a>)
        requires
            crate::fs_tree::node_count(root@) <= usize::MAX,
        ensures
            r.remaining() == preorder(root@, 0, Seq::empty()),
            r.current_depth == 0,
            r.filters == no_filters(),
    {
        let mut order: Vec<(&'a FsTree, usize, FsPath)> = Vec::new();
        let start = FsPath::new();
        collect_preorder(root, 0, start, &mut order);
        assert(visits_view(order@) =~= preorder(root@, 0, Seq::empty()));
        let ghost all = visits_view(order@);
        let mut pending: Vec<(&'a FsTree, usize, FsPath)> = Vec::new();
        while order.len() > 0
            invariant
                visits_view(order@) == all.take(order@.len() as int),
                order@.len() <= all.len(),
                visits_view(pending@) == all.skip(order@.len() as int).reverse(),
            decreases order@.len(),
        {
            let ghost before = order@;
            let ghost pb = visits_view(pending@);
            let item = order.pop().unwrap();
            let ghost n = order@.len() as int;
            assert(visits_view(before)[n] == all[n]);
            pending.push(item);
            assert(visits_view(order@) =~= all.take(n));
            let ghost tail = all.skip(n);
            assert(tail.len() > 0);
            assert(all.skip(n + 1) =~= tail.drop_first());
            assert(pb =~= tail.drop_first().reverse());
            assert(visits_view(pending@) =~= pb.push(all[n]));
            assert(visits_view(pending@) =~= tail.reverse());
        }
        assert(all.skip(0) == all);
        let r = InnerIter {
            pending,
            current_depth: 0,
            filters: Filters {
                skip_regular_files: false,
                skip_dirs: false,
                skip_symlinks: false,
                min_depth: 0,
                max_depth: usize::MAX,
            },
        };
        assert(r.remaining() =~= preorder(root@, 0, Seq::empty()));
        r
    }

    /// Hands out the next visit that passes the filters, with its path.
    fn next(&mut self) -> (r: Option<(&'a FsTree, FsPath)>)
        ensures
            final(self).filters == old(self).filters,
            dropped_before(old(self).filters, old(self).remaining()) < old(self).remaining().len()
                ==> {
                let s = old(self).remaining();
                let k = dropped_before(old(self).filters, s) as int;
                &&& r matches Some(x)
                &&& x.0@ == s[k].0
                &&& x.1@ == s[k].2
                &&& final(self).current_depth == s[k].1
                &&& final(self).remaining() == s.skip(k + 1)
            },
            dropped_before(old(self).filters, old(self).remaining()) >= old(self).remaining().len()
                ==> {
                &&& r is None
                &&& final(self).current_depth == old(self).current_depth
                &&& final(self).remaining() == Seq::<Visit>::empty()
            },
    {
        let ghost s0 = self.remaining();
        let ghost f = self.filters;
        let ghost k = dropped_before(f, s0);
        let ghost d0 = self.current_depth;
        let total = self.pending.len();
        assert(s0.skip(0) == s0);
        let mut skipped: usize = 0;
        loop
            invariant
                self.filters == f,
                old(self).filters == f,
                old(self).current_depth == d0,
                old(self).remaining() == s0,
                k == dropped_before(f, s0),
                s0.len() == total,
                self.current_depth == d0,
                skipped <= k,
                skipped <= s0.len(),
                self.remaining() == s0.skip(skipped as int),
                dropped_before(f, s0.skip(skipped as int)) == k - skipped,
            decreases self.pending@.len(),
        {
            let ghost rest = self.remaining();
            let ghost pv = visits_view(self.pending@);
            assert(rest.len() == self.pending@.len());
            match self.pending.pop() {
                None => {
                    assert(rest.len() == 0);
                    assert(s0.skip(skipped as int).len() == 0);
                    assert(skipped == s0.len());
                    assert(self.remaining() =~= Seq::<Visit>::empty());
                    assert(dropped_before(f, s0.skip(skipped as int)) == 0);
                    assert(k == skipped);
                    assert(!(k < s0.len()));
                    assert(self.current_depth == old(self).current_depth);
                    return None;
                },
                Some(item) => {
                    assert(rest[0] == pv[pv.len() - 1]);
                    assert(rest[0] == (item.0@, item.1 as nat, item.2@));
                    assert(self.remaining() =~= rest.drop_first());
                    assert(rest.drop_first() =~= s0.skip(skipped + 1));
                    let (node, depth, path) = item;
                    let keep = !((self.filters.skip_regular_files && node.is_regular()) || (
                    self.filters.skip_dirs && node.is_dir()) || (self.filters.skip_symlinks
                        && node.is_symlink()) || depth < self.filters.min_depth || depth
                        > self.filters.max_depth);
                    assert(keep == passes(f, rest[0]));
                    assert(rest[0] == s0[skipped as int]);
                    if keep {
                        assert(dropped_before(f, rest) == 0);
                        self.current_depth = depth;
                        return Some((node, path));
                    }
                    assert(dropped_before(f, rest) == 1 + dropped_before(f, rest.drop_first()));
                    skipped += 1;
                },
            }
        }
    }
}

/// Yields `&FsTree`, created by `FsTree::nodes`.
pub struct NodesIter<'a> {
    inner_iter: InnerIter<'a>,
}

impl<'a> NodesIter<'a> {
    /// The visits still to come, in order, before filtering.
    pub closed spec fn remaining(self) -> Seq<Visit> {
        self.inner_iter.remaining()
    }

    /// The filters in force.
    pub closed spec fn filters(self) -> Filters {
        self.inner_iter.filters
    }

    /// The depth of the last visit handed out (0 before the first).
    pub closed spec fn last_depth(self) -> nat {
        self.inner_iter.current_depth as nat
    }

    /// Returns the depth of the last yielded node: 0 before the first call to `next`, and
    /// unchanged by a call to `next` that yields nothing.
    pub fn depth(&self) -> (r: usize)
        ensures
            r == self.last_depth(),
    {
        self.inner_iter.current_depth
    }

    /// Filter out regular files.
    pub fn skip_regular_files(self, arg: bool) -> (r: Self)
        ensures
            r.remaining() == self.remaining(),
            r.last_depth() == self.last_depth(),
            r.filters() == (Filters { skip_regular_files: arg, skip_dirs: self.filters().skip_dirs, skip_symlinks: self.filters().skip_symlinks, min_depth: self.filters().min_depth, max_depth: self.filters().max_depth }),
    {
        let mut it = self;
        it.inner_iter.filters.skip_regular_files = arg;
        it
    }

    /// Filter out directories.
    pub fn skip_dirs(self, arg: bool) -> (r: Self)
        ensures
            r.remaining() == self.remaining(),
            r.last_depth() == self.last_depth(),
            r.filters() == (Filters { skip_regular_files: self.filters().skip_regular_files, skip_dirs: arg, skip_symlinks: self.filters().skip_symlinks, min_depth: self.filters().min_depth, max_depth: self.filters().max_depth }),
    {
        let mut it = self;
        it.inner_iter.filters.skip_dirs = arg;
        it
    }

    /// Filter out symlinks.
    pub fn skip_symlinks(self, arg: bool) -> (r: Self)
        ensures
            r.remaining() == self.remaining(),
            r.last_depth() == self.last_depth(),
            r.filters() == (Filters { skip_regular_files: self.filters().skip_regular_files, skip_dirs: self.filters().skip_dirs, skip_symlinks: arg, min_depth: self.filters().min_depth, max_depth: self.filters().max_depth }),
    {
        let mut it = self;
        it.inner_iter.filters.skip_symlinks = arg;
        it
    }

    /// Filter out entries below the given minimum depth.
    pub fn min_depth(self, arg: usize) -> (r: Self)
        ensures
            r.remaining() == self.remaining(),
            r.last_depth() == self.last_depth(),
            r.filters() == (Filters { skip_regular_files: self.filters().skip_regular_files, skip_dirs: self.filters().skip_dirs, skip_symlinks: self.filters().skip_symlinks, min_depth: arg, max_depth: self.filters().max_depth }),
    {
        let mut it = self;
        it.inner_iter.filters.min_depth = arg;
        it
    }

    /// Filter out entries above the given maximum depth.
    pub fn max_depth(self, arg: usize) -> (r: Self)
        ensures
            r.remaining() == self.remaining(),
            r.last_depth() == self.last_depth(),
            r.filters() == (Filters { skip_regular_files: self.filters().skip_regular_files, skip_dirs: self.filters().skip_dirs, skip_symlinks: self.filters().skip_symlinks, min_depth: self.filters().min_depth, max_depth: arg }),
    {
        let mut it = self;
        it.inner_iter.filters.max_depth = arg;
        it
    }

    /// Yields the next node that passes the filters.
    pub fn next(&mut self) -> (r: Option<&'a FsTree>)
        ensures
            final(self).filters() == old(self).filters(),
            dropped_before(old(self).filters(), old(self).remaining()) < old(self).remaining().len()
                ==> {
                let s = old(self).remaining();
                let k = dropped_before(old(self).filters(), s) as int;
                &&& r matches Some(x)
                &&& x@ == s[k].0
                &&& final(self).last_depth() == s[k].1
                &&& final(self).remaining() == s.skip(k + 1)
            },
            dropped_before(old(self).filters(), old(self).remaining()) >= old(self).remaining().len()
                ==> {
                &&& r is None
                &&& final(self).last_depth() == old(self).last_depth()
                &&& final(self).remaining() == Seq::<Visit>::empty()
            },
    {
        match self.inner_iter.next() {
            Some((node, _path)) => Some(node),
            None => None,
        }
    }
}

impl<'a> NodesIter<'a> {
    pub(crate) fn new(root: &'a FsTree) -> (r: NodesIter<'a>)
        requires
            crate::fs_tree::node_count(root@) <= usize::MAX,
        ensures
            r.remaining() == preorder(root@, 0, Seq::empty()),
            r.filters() == no_filters(),
            r.last_depth() == 0,
    {
        NodesIter { inner_iter: InnerIter::new(root) }
    }
}

/// Yields `(&FsTree, FsPath)`, created by `FsTree::iter`.
pub struct Iter<'a> {
    inner_iter: InnerIter<'a>,
}

impl<'a> Iter<'a> {
    /// The visits still to come, in order, before filtering.
    pub closed spec fn remaining(self) -> Seq<Visit> {
        self.inner_iter.remaining()
    }

    /// The filters in force.
    pub closed spec fn filters(self) -> Filters {
        self.inner_iter.filters
    }

    /// The depth of the last visit handed out (0 before the first).
    pub closed spec fn last_depth(self) -> nat {
        self.inner_iter.current_depth as nat
    }

    /// Returns the depth of the last yielded node: 0 before the first call to `next`, and
    /// unchanged by a call to `next` that yields nothing.
    pub fn depth(&self) -> (r: usize)
        ensures
            r == self.last_depth(),
    {
        self.inner_iter.current_depth
    }

    /// Filter out regular files.
    pub fn skip_regular_files(self, arg: bool) -> (r: Self)
        ensures
            r.remaining() == self.remaining(),
            r.last_depth() == self.last_depth(),
            r.filters() == (Filters { skip_regular_files: arg, skip_dirs: self.filters().skip_dirs, skip_symlinks: self.filters().skip_symlinks, min_depth: self.filters().min_depth, max_depth: self.filters().max_depth }),
    {
        let mut it = self;
        it.inner_iter.filters.skip_regular_files = arg;
        it
    }

    /// Filter out directories.
    pub fn skip_dirs(self, arg: bool) -> (r: Self)
        ensures
            r.remaining() == self.remaining(),
            r.last_depth() == self.last_depth(),
            r.filters() == (Filters { skip_regular_files: self.filters().skip_regular_files, skip_dirs: arg, skip_symlinks: self.filters().skip_symlinks, min_depth: self.filters().min_depth, max_depth: self.filters().max_depth }),
    {
        let mut it = self;
        it.inner_iter.filters.skip_dirs = arg;
        it
    }

    /// Filter out symlinks.
    pub fn skip_symlinks(self, arg: bool) -> (r: Self)
        ensures
            r.remaining() == self.remaining(),
            r.last_depth() == self.last_depth(),
            r.filters() == (Filters { skip_regular_files: self.filters().skip_regular_files, skip_dirs: self.filters().skip_dirs, skip_symlinks: arg, min_depth: self.filters().min_depth, max_depth: self.filters().max_depth }),
    {
        let mut it = self;
        it.inner_iter.filters.skip_symlinks = arg;
        it
    }

    /// Filter out entries below the given minimum depth.
    pub fn min_depth(self, arg: usize) -> (r: Self)
        ensures
            r.remaining() == self.remaining(),
            r.last_depth() == self.last_depth(),
            r.filters() == (Filters { skip_regular_files: self.filters().skip_regular_files, skip_dirs: self.filters().skip_dirs, skip_symlinks: self.filters().skip_symlinks, min_depth: arg, max_depth: self.filters().max_depth }),
    {
        let mut it = self;
        it.inner_iter.filters.min_depth = arg;
        it
    }

    /// Filter out entries above the given maximum depth.
    pub fn max_depth(self, arg: usize) -> (r: Self)
        ensures
            r.remaining() == self.remaining(),
            r.last_depth() == self.last_depth(),
            r.filters() == (Filters { skip_regular_files: self.filters().skip_regular_files, skip_dirs: self.filters().skip_dirs, skip_symlinks: self.filters().skip_symlinks, min_depth: self.filters().min_depth, max_depth: arg }),
    {
        let mut it = self;
        it.inner_iter.filters.max_depth = arg;
        it
    }

    /// Yields the next node that passes the filters, with its path.
    pub fn next(&mut self) -> (r: Option<(&'a FsTree, FsPath)>)
        ensures
            final(self).filters() == old(self).filters(),
            dropped_before(old(self).filters(), old(self).remaining()) < old(self).remaining().len()
                ==> {
                let s = old(self).remaining();
                let k = dropped_before(old(self).filters(), s) as int;
                &&& r matches Some(x)
                &&& x.0@ == s[k].0
                &&& x.1@ == s[k].2
                &&& final(self).last_depth() == s[k].1
                &&& final(self).remaining() == s.skip(k + 1)
            },
            dropped_before(old(self).filters(), old(self).remaining()) >= old(self).remaining().len()
                ==> {
                &&& r is None
                &&& final(self).last_depth() == old(self).last_depth()
                &&& final(self).remaining() == Seq::<Visit>::empty()
            },
    {
        self.inner_iter.next()
    }
}

impl<'a> Iter<'a> {
    pub(crate) fn new(root: &'a FsTree) -> (r: Iter<'a>)
        requires
            crate::fs_tree::node_count(root@) <= usize::MAX,
        ensures
            r.remaining() == preorder(root@, 0, Seq::empty()),
            r.filters() == no_filters(),
            r.last_depth() == 0,
    {
        Iter { inner_iter: InnerIter::new(root) }
    }
}

/// Yields the path of each node, created by `FsTree::paths`.
pub struct PathsIter<'a> {
    iter: Iter<'a>,
}

impl<'a> PathsIter<'a> {
    /// The visits still to come, in order, before filtering.
    pub closed spec fn remaining(self) -> Seq<Visit> {
        self.iter.inner_iter.remaining()
    }

    /// The filters in force.
    pub closed spec fn filters(self) -> Filters {
        self.iter.inner_iter.filters
    }

    /// The depth of the last visit handed out (0 before the first).
    pub closed spec fn last_depth(self) -> nat {
        self.iter.inner_iter.current_depth as nat
    }

    /// Returns the depth of the last yielded node: 0 before the first call to `next`, and
    /// unchanged by a call to `next` that yields nothing.
    pub fn depth(&self) -> (r: usize)
        ensures
            r == self.last_depth(),
    {
        self.iter.inner_iter.current_depth
    }

    /// Filter out regular files.
    pub fn skip_regular_files(self, arg: bool) -> (r: Self)
        ensures
            r.remaining() == self.remaining(),
            r.last_depth() == self.last_depth(),
            r.filters() == (Filters { skip_regular_files: arg, skip_dirs: self.filters().skip_dirs, skip_symlinks: self.filters().skip_symlinks, min_depth: self.filters().min_depth, max_depth: self.filters().max_depth }),
    {
        let mut it = self;
        it.iter.inner_iter.filters.skip_regular_files = arg;
        it
    }

    /// Filter out directories.
    pub fn skip_dirs(self, arg: bool) -> (r: Self)
        ensures
            r.remaining() == self.remaining(),
            r.last_depth() == self.last_depth(),
            r.filters() == (Filters { skip_regular_files: self.filters().skip_regular_files, skip_dirs: arg, skip_symlinks: self.filters().skip_symlinks, min_depth: self.filters().min_depth, max_depth: self.filters().max_depth }),
    {
        let mut it = self;
        it.iter.inner_iter.filters.skip_dirs = arg;
        it
    }

    /// Filter out symlinks.
    pub fn skip_symlinks(self, arg: bool) -> (r: Self)
        ensures
            r.remaining() == self.remaining(),
            r.last_depth() == self.last_depth(),
            r.filters() == (Filters { skip_regular_files: self.filters().skip_regular_files, skip_dirs: self.filters().skip_dirs, skip_symlinks: arg, min_depth: self.filters().min_depth, max_depth: self.filters().max_depth }),
    {
        let mut it = self;
        it.iter.inner_iter.filters.skip_symlinks = arg;
        it
    }

    /// Filter out entries below the given minimum depth.
    pub fn min_depth(self, arg: usize) -> (r: Self)
        ensures
            r.remaining() == self.remaining(),
            r.last_depth() == self.last_depth(),
            r.filters() == (Filters { skip_regular_files: self.filters().skip_regular_files, skip_dirs: self.filters().skip_dirs, skip_symlinks: self.filters().skip_symlinks, min_depth: arg, max_depth: self.filters().max_depth }),
    {
        let mut it = self;
        it.iter.inner_iter.filters.min_depth = arg;
        it
    }

    /// Filter out entries above the given maximum depth.
    pub fn max_depth(self, arg: usize) -> (r: Self)
        ensures
            r.remaining() == self.remaining(),
            r.last_depth() == self.last_depth(),
            r.filters() == (Filters { skip_regular_files: self.filters().skip_regular_files, skip_dirs: self.filters().skip_dirs, skip_symlinks: self.filters().skip_symlinks, min_depth: self.filters().min_depth, max_depth: arg }),
    {
        let mut it = self;
        it.iter.inner_iter.filters.max_depth = arg;
        it
    }

    /// Yields the path of the next node that passes the filters.
    pub fn next(&mut self) -> (r: Option<FsPath>)
        ensures
            final(self).filters() == old(self).filters(),
            dropped_before(old(self).filters(), old(self).remaining()) < old(self).remaining().len()
                ==> {
                let s = old(self).remaining();
                let k = dropped_before(old(self).filters(), s) as int;
                &&& r matches Some(x)
                &&& x@ == s[k].2
                &&& final(self).last_depth() == s[k].1
                &&& final(self).remaining() == s.skip(k + 1)
            },
            dropped_before(old(self).filters(), old(self).remaining()) >= old(self).remaining().len()
                ==> {
                &&& r is None
                &&& final(self).last_depth() == old(self).last_depth()
                &&& final(self).remaining() == Seq::<Visit>::empty()
            },
    {
        match self.iter.inner_iter.next() {
            Some((_node, path)) => Some(path),
            None => None,
        }
    }
}

impl<'a> PathsIter<'a> {
    pub(crate) fn new(root: &'a FsTree) -> (r: PathsIter<'a>)
        requires
            crate::fs_tree::node_count(root@) <= usize::MAX,
        ensures
            r.remaining() == preorder(root@, 0, Seq::empty()),
            r.filters() == no_filters(),
            r.last_depth() == 0,
    {
        PathsIter { iter: Iter { inner_iter: InnerIter::new(root) } }
    }
}

impl FsTree {
    /// Creates an iterator that yields `(&FsTree, FsPath)`.
    pub fn iter(&self) -> (r: Iter<'_>)
        requires
            crate::fs_tree::node_count(self@) <= usize::MAX,
        ensures
            r.remaining() == preorder(self@, 0, Seq::empty()),
            r.filters() == no_filters(),
            r.last_depth() == 0,
    {
        Iter::new(self)
    }

    /// Creates an iterator that yields `&FsTree`.
    pub fn nodes(&self) -> (r: NodesIter<'_>)
        requires
            crate::fs_tree::node_count(self@) <= usize::MAX,
        ensures
            r.remaining() == preorder(self@, 0, Seq::empty()),
            r.filters() == no_filters(),
            r.last_depth() == 0,
    {
        NodesIter::new(self)
    }

    /// Creates an iterator that yields the path of each node.
    pub fn paths(&self) -> (r: PathsIter<'_>)
        requires
            crate::fs_tree::node_count(self@) <= usize::MAX,
        ensures
            r.remaining() == preorder(self@, 0, Seq::empty()),
            r.filters() == no_filters(),
            r.last_depth() == 0,
    {
        PathsIter::new(self)
    }
}

} // verus!
