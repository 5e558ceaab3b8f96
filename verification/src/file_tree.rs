//! `FileTree`: a recursive file tree in which every node carries its path and an optional
//! value of a caller's choosing.
use vstd::prelude::*;

use crate::path::FsPath;
use crate::text::path_components;

verus! {

/// A recursively defined file tree with a generic extra field.
///
/// Every variant has a `path` and an `extra`; a directory has its `children`, a symlink
/// the path it points to. A child built by `from_path_text` holds the whole path from the
/// root, so for `"a/b/c"` the nodes hold `"a"`, `"a/b"` and `"a/b/c"`.
#[derive(Debug, PartialEq, Eq, PartialOrd, Ord, Hash)]
pub enum FileTree<T> {
    /// A regular file.
    Regular { path: FsPath, extra: Option<T> },
    /// A directory and the trees inside it.
    Directory { path: FsPath, extra: Option<T>, children: Vec<FileTree<T>> },
    /// A symbolic link and the path it points to.
    Symlink { path: FsPath, extra: Option<T>, target_path: FsPath },
}

impl<T> FileTree<T> {
    /// The path of this node.
    pub open spec fn path_of(self) -> Seq<Seq<char>> {
        match self {
            FileTree::Regular { path, .. } => path@,
            FileTree::Directory { path, .. } => path@,
            FileTree::Symlink { path, .. } => path@,
        }
    }

    /// The extra value of this node.
    pub open spec fn extra_of(self) -> Option<T> {
        match self {
            FileTree::Regular { extra, .. } => extra,
            FileTree::Directory { extra, .. } => extra,
            FileTree::Symlink { extra, .. } => extra,
        }
    }

    /// The target path of a symlink; empty for the other variants.
    pub open spec fn target_of(self) -> Seq<Seq<char>> {
        match self {
            FileTree::Symlink { target_path, .. } => target_path@,
            _ => Seq::empty(),
        }
    }

    /// The children of this node: those of a directory, none for the other variants.
    pub open spec fn kids(self) -> Seq<FileTree<T>> {
        match self {
            FileTree::Directory { children, .. } => children@,
            _ => Seq::empty(),
        }
    }
}

/// The number of nodes in `t`, itself included.
pub open spec fn file_count<T>(t: FileTree<T>) -> nat
    decreases t,
{
    match t {
        FileTree::Directory { children, .. } => 1 + file_count_list(children@),
        _ => 1,
    }
}

/// The number of nodes in the trees `ts`.
pub open spec fn file_count_list<T>(ts: Seq<FileTree<T>>) -> nat
    decreases ts,
{
    if ts.len() == 0 {
        0
    } else {
        file_count_list(ts.drop_last()) + file_count(ts.last())
    }
}

pub proof fn lemma_file_count_list_prefix<T>(ts: Seq<FileTree<T>>, i: int)
    requires
        0 <= i <= ts.len(),
    ensures
        file_count_list(ts.take(i)) <= file_count_list(ts),
    decreases ts.len(),
{
    if i < ts.len() {
        assert(ts.drop_last().take(i) == ts.take(i));
        lemma_file_count_list_prefix(ts.drop_last(), i);
    } else {
        assert(ts.take(i) == ts);
    }
}

pub proof fn lemma_file_child_decreases<T>(t: FileTree<T>, i: int)
    requires
        t is Directory,
        0 <= i < t.kids().len(),
    ensures
        decreases_to!(t => t.kids()[i]),
{
    let c = t->Directory_children;
    assert(decreases_to!(t => t->Directory_children));
    assert(decreases_to!(c => c@));
    assert(decreases_to!(c@ => c@[i]));
}

/// The nodes of `t` with their depths, in depth-first pre-order, `t` itself at depth `d`;
/// the children of a directory come in the order they are stored.
pub open spec fn files_preorder<T>(t: FileTree<T>, d: nat) -> Seq<(FileTree<T>, nat)>
    decreases t,
{
    seq![(t, d)] + match t {
        FileTree::Directory { children, .. } => files_preorder_list(children@, d + 1),
        _ => Seq::empty(),
    }
}

/// The pre-order visits of the trees `ts`, one after the other, each at depth `d`.
pub open spec fn files_preorder_list<T>(ts: Seq<FileTree<T>>, d: nat) -> Seq<(FileTree<T>, nat)>
    decreases ts,
{
    if ts.len() == 0 {
        Seq::empty()
    } else {
        files_preorder_list(ts.drop_last(), d) + files_preorder(ts.last(), d)
    }
}

/// Whether `t` is the chain of nodes for the components `ps`, starting at the node that
/// holds the first `k` of them: every node but the last a directory with a single child and
/// no extra value, the last one a regular file holding all of `ps`.
pub open spec fn is_path_chain<T>(t: FileTree<T>, ps: Seq<Seq<char>>, k: nat) -> bool
    decreases ps.len() - k,
{
    if k >= ps.len() {
        t matches FileTree::Regular { path, extra } && path@ == ps && extra is None
    } else {
        &&& t matches FileTree::Directory { path, extra, children }
        &&& path@ == ps.take(k as int)
        &&& extra is None
        &&& children@.len() == 1
        &&& is_path_chain(children@[0], ps, k + 1)
    }
}

/// The tree that `from_path_text` builds for the components `ps`.
pub open spec fn is_text_tree<T>(t: FileTree<T>, ps: Seq<Seq<char>>) -> bool {
    if ps.len() == 0 {
        t matches FileTree::Regular { path, extra } && path@.len() == 0 && extra is None
    } else {
        is_path_chain(t, ps, 1)
    }
}

impl<T> FileTree<T> {
    /// Creates a `FileTree::Regular` at `path`, with no extra value.
    pub fn new_regular(path: FsPath) -> (r: Self)
        ensures
            r == (FileTree::<T>::Regular { path: path, extra: None }),
    {
        Self::new_regular_with_extra(path, None)
    }

    /// Creates a `FileTree::Regular` with an empty path and no extra value.
    pub fn regular_default() -> (r: Self)
        ensures
            r is Regular,
            r.path_of().len() == 0,
            r.extra_of() is None,
    {
        Self::new_regular_with_extra(FsPath::new(), None)
    }

    /// Creates a `FileTree::Regular` from its fields.
    pub fn new_regular_with_extra(path: FsPath, extra: Option<T>) -> (r: Self)
        ensures
            r == (FileTree::Regular { path: path, extra: extra }),
    {
        FileTree::Regular { path, extra }
    }

    /// Creates a `FileTree::Directory` at `path` holding `children`, with no extra value.
    pub fn new_directory(path: FsPath, children: Vec<Self>) -> (r: Self)
        ensures
            r == (FileTree::<T>::Directory { path: path, extra: None, children: children }),
    {
        Self::new_directory_with_extra(path, children, None)
    }

    /// Creates an empty `FileTree::Directory` with an empty path and no extra value.
    pub fn directory_default() -> (r: Self)
        ensures
            r is Directory,
            r.path_of().len() == 0,
            r.extra_of() is None,
            r.kids().len() == 0,
    {
        Self::new_directory_with_extra(FsPath::new(), Vec::new(), None)
    }

    /// Creates a `FileTree::Directory` from its fields.
    pub fn new_directory_with_extra(path: FsPath, children: Vec<Self>, extra: Option<T>) -> (r:
        Self)
        ensures
            r == (FileTree::Directory { path: path, extra: extra, children: children }),
    {
        FileTree::Directory { path, extra, children }
    }

    /// Creates a `FileTree::Symlink` at `path` pointing to `target_path`, with no extra value.
    pub fn new_symlink(path: FsPath, target_path: FsPath) -> (r: Self)
        ensures
            r == (FileTree::<T>::Symlink { path: path, extra: None, target_path: target_path }),
    {
        Self::new_symlink_with_extra(path, target_path, None)
    }

    /// Creates a `FileTree::Symlink` with empty paths and no extra value.
    pub fn symlink_default() -> (r: Self)
        ensures
            r matches FileTree::Symlink { path, extra, target_path } && path@.len() == 0
                && target_path@.len() == 0 && extra is None,
    {
        Self::new_symlink_with_extra(FsPath::new(), FsPath::new(), None)
    }

    /// Creates a `FileTree::Symlink` from its fields.
    pub fn new_symlink_with_extra(path: FsPath, target_path: FsPath, extra: Option<T>) -> (r:
        Self)
        ensures
            r == (FileTree::Symlink { path: path, extra: extra, target_path: target_path }),
    {
        FileTree::Symlink { path, extra, target_path }
    }

    /// Creates the chain of nodes for a path text: `"a/b/c"` gives a directory `"a"` holding
    /// a directory `"a/b"` holding a regular file `"a/b/c"`. A text with one component, or
    /// none, gives a single regular file.
    pub fn from_path_text(text: &str) -> (r: Self)
        ensures
            is_text_tree(r, path_components(text@)),
    {
        let full = FsPath::from_text(text);
        let n = full.len();
        if n == 0 {
            return Self::new_regular(full);
        }
        let mut k: usize = n - 1;
        let mut node = Self::new_regular(full.copy());
        assert(full@.take(n as int) == full@);
        while k >= 1
            invariant
                0 <= k < n,
                n == full@.len(),
                is_path_chain(node, full@, (k + 1) as nat),
            decreases k,
        {
            let mut children: Vec<Self> = Vec::new();
            children.push(node);
            node = Self::new_directory(full.prefix(k), children);
            assert(node.kids()[0] == children@[0]);
            k -= 1;
        }
        node
    }

    /// The children, if this is a directory.
    pub fn children(&self) -> (r: Option<&Vec<Self>>)
        ensures
            self is Directory <==> r is Some,
            r matches Some(c) ==> c@ == self.kids(),
    {
        match self {
            FileTree::Directory { children, .. } => Some(children),
            _ => None,
        }
    }

    /// The children, if this is a directory, to be changed in place.
    pub fn children_mut(&mut self) -> (r: Option<&mut Vec<Self>>)
        ensures
            *old(self) is Directory <==> r is Some,
            r matches Some(c) ==> {
                &&& c@ == old(self).kids()
                &&& *final(self) is Directory
                &&& final(self).path_of() == old(self).path_of()
                &&& final(self).extra_of() == old(self).extra_of()
                &&& final(self).kids() == final(c)@
            },
            r is None ==> *final(self) == *old(self),
    {
        match self {
            FileTree::Directory { children, .. } => Some(children),
            _ => None,
        }
    }

    /// The target path, if this is a symlink, to be changed in place.
    pub fn target_mut(&mut self) -> (r: Option<&mut FsPath>)
        ensures
            *old(self) is Symlink <==> r is Some,
            r matches Some(p) ==> {
                &&& p@ == old(self).target_of()
                &&& *final(self) is Symlink
                &&& final(self).path_of() == old(self).path_of()
                &&& final(self).extra_of() == old(self).extra_of()
                &&& final(self).target_of() == final(p)@
            },
            r is None ==> *final(self) == *old(self),
    {
        match self {
            FileTree::Symlink { target_path, .. } => Some(target_path),
            _ => None,
        }
    }

    /// The target path, if this is a symlink.
    pub fn target(&self) -> (r: Option<&FsPath>)
        ensures
            self is Symlink <==> r is Some,
            r matches Some(p) ==> p@ == self.target_of(),
    {
        match self {
            FileTree::Symlink { target_path, .. } => Some(target_path),
            _ => None,
        }
    }

    /// The path of this node.
    pub fn path(&self) -> (r: &FsPath)
        ensures
            r@ == self.path_of(),
    {
        match self {
            FileTree::Regular { path, .. } => path,
            FileTree::Directory { path, .. } => path,
            FileTree::Symlink { path, .. } => path,
        }
    }

    /// The extra value of this node.
    pub fn extra(&self) -> (r: &Option<T>)
        ensures
            *r == self.extra_of(),
    {
        match self {
            FileTree::Regular { extra, .. } => extra,
            FileTree::Directory { extra, .. } => extra,
            FileTree::Symlink { extra, .. } => extra,
        }
    }

    /// Whether this is a `FileTree::Regular`.
    pub fn is_regular(&self) -> (r: bool)
        ensures
            r == self is Regular,
    {
        matches!(self, FileTree::Regular { .. })
    }

    /// Whether this is a `FileTree::Directory`.
    pub fn is_dir(&self) -> (r: bool)
        ensures
            r == self is Directory,
    {
        matches!(self, FileTree::Directory { .. })
    }

    /// Whether this is a `FileTree::Symlink`.
    pub fn is_symlink(&self) -> (r: bool)
        ensures
            r == self is Symlink,
    {
        matches!(self, FileTree::Symlink { .. })
    }
}

/// Whether `a` and `b` have the same variants, paths and targets everywhere (the extra
/// values aside).
pub open spec fn same_shape<T>(a: FileTree<T>, b: FileTree<T>) -> bool
    decreases a,
{
    &&& (a is Regular <==> b is Regular)
    &&& (a is Directory <==> b is Directory)
    &&& (a is Symlink <==> b is Symlink)
    &&& b.path_of() == a.path_of()
    &&& b.target_of() == a.target_of()
    &&& b.kids().len() == a.kids().len()
    &&& match a {
        FileTree::Directory { children, .. } => forall|i: int|
            #![trigger children@[i]]
            0 <= i < children@.len() ==> same_shape(children@[i], b.kids()[i]),
        _ => true,
    }
}

impl<T: Clone> FileTree<T> {
    /// A copy of this tree: same variants, paths and targets everywhere, the extra values
    /// cloned.
    pub fn copy_tree(&self) -> (r: Self)
        ensures
            same_shape(*self, r),
        decreases self,
    {
        match self {
            FileTree::Regular { path, extra } => FileTree::Regular { path: path.copy(), extra: extra.clone() },
            FileTree::Symlink { path, extra, target_path } => FileTree::Symlink {
                path: path.copy(),
                extra: extra.clone(),
                target_path: target_path.copy(),
            },
            FileTree::Directory { path, extra, children } => {
                let mut out: Vec<FileTree<T>> = Vec::new();
                let mut i: usize = 0;
                while i < children.len()
                    invariant
                        i <= children@.len(),
                        out@.len() == i,
                        *self is Directory,
                        self.kids() == children@,
                        forall|j: int|
                            #![trigger out@[j]]
                            0 <= j < i ==> same_shape(children@[j], out@[j]),
                    decreases children@.len() - i,
                {
                    proof {
                        lemma_file_child_decreases(*self, i as int);
                    }
                    out.push(children[i].copy_tree());
                    i += 1;
                }
                let r = FileTree::Directory { path: path.copy(), extra: extra.clone(), children: out };
                assert forall|j: int| #![trigger children@[j]] 0 <= j < children@.len() implies same_shape(
                    children@[j],
                    r.kids()[j],
                ) by {
                    assert(r.kids()[j] == out@[j]);
                }
                r
            },
        }
    }
}

impl<T: Clone> Clone for FileTree<T> {
    fn clone(&self) -> (r: Self)
        ensures
            same_shape(*self, r),
    {
        self.copy_tree()
    }
}

/// The model of a sequence of pending visits.
pub open spec fn visits_of<'a, T>(v: Seq<(&'a FileTree<T>, usize)>) -> Seq<(FileTree<T>, nat)> {
    Seq::new(v.len(), |i: int| (*v[i].0, v[i].1 as nat))
}

/// Appends the pre-order visits of `t`, at depth `depth`, to `out`.
fn collect_files<'a, T>(t: &'a FileTree<T>, depth: usize, out: &mut Vec<(&'a FileTree<T>, usize)>)
    requires
        depth + file_count(*t) <= usize::MAX,
    ensures
        visits_of(final(out)@) == visits_of(old(out)@) + files_preorder(*t, depth as nat),
    decreases t,
{
    let ghost before = visits_of(out@);
    out.push((t, depth));
    assert(visits_of(out@) =~= before + seq![(*t, depth as nat)]);
    match t {
        FileTree::Directory { children, .. } => {
            let ghost mid = visits_of(out@);
            let mut i: usize = 0;
            while i < children.len()
                invariant
                    i <= children@.len(),
                    depth + file_count(*t) <= usize::MAX,
                    file_count(*t) == 1 + file_count_list(children@),
                    *t is Directory,
                    t.kids() == children@,
                    visits_of(out@) == mid + files_preorder_list(
                        children@.take(i as int),
                        depth as nat + 1,
                    ),
                decreases children@.len() - i,
            {
                assert(children@.take(i + 1).drop_last() == children@.take(i as int));
                assert(children@.take(i + 1).last() == children@[i as int]);
                proof {
                    lemma_file_count_list_prefix(children@, i + 1);
                    lemma_file_child_decreases(*t, i as int);
                }
                collect_files(&children[i], depth + 1, out);
                i += 1;
                assert(visits_of(out@) =~= mid + files_preorder_list(
                    children@.take(i as int),
                    depth as nat + 1,
                ));
            }
            assert(children@.take(i as int) == children@);
        },
        _ => {
            assert(visits_of(out@) =~= before + files_preorder(*t, depth as nat));
        },
    }
}

/// Iterator over every node of a `FileTree`, in depth-first pre-order, created by
/// `FileTree::files`.
pub struct FilesIter<'a, T> {
    // Visits still to come, the next one last.
    pending: Vec<(&'a FileTree<T>, usize)>,
    current_depth: usize,
}

impl<'a, T> FilesIter<'a, T> {
    /// The visits still to come, in order.
    pub closed spec fn remaining(self) -> Seq<(FileTree<T>, nat)> {
        visits_of(self.pending@).reverse()
    }

    /// The depth of the last node handed out (0 before the first).
    pub closed spec fn last_depth(self) -> nat {
        self.current_depth as nat
    }

    /// An iterator over `root` and everything under it.
    pub fn new(root: &'a FileTree<T>) -> (r: Self)
        requires
            file_count(*root) <= usize::MAX,
        ensures
            r.remaining() == files_preorder(*root, 0),
            r.last_depth() == 0,
    {
        let mut order: Vec<(&'a FileTree<T>, usize)> = Vec::new();
        collect_files(root, 0, &mut order);
        assert(visits_of(order@) =~= files_preorder(*root, 0));
        let ghost all = visits_of(order@);
        let mut pending: Vec<(&'a FileTree<T>, usize)> = Vec::new();
        while order.len() > 0
            invariant
                visits_of(order@) == all.take(order@.len() as int),
                order@.len() <= all.len(),
                visits_of(pending@) == all.skip(order@.len() as int).reverse(),
            decreases order@.len(),
        {
            let ghost before = order@;
            let ghost pb = visits_of(pending@);
            let item = order.pop().unwrap();
            let ghost n = order@.len() as int;
            assert(visits_of(before)[n] == all[n]);
            pending.push(item);
            assert(visits_of(order@) =~= all.take(n));
            let ghost tail = all.skip(n);
            assert(all.skip(n + 1) =~= tail.drop_first());
            assert(pb =~= tail.drop_first().reverse());
            assert(visits_of(pending@) =~= pb.push(all[n]));
            assert(visits_of(pending@) =~= tail.reverse());
        }
        assert(all.skip(0) == all);
        let r = FilesIter { pending, current_depth: 0 };
        assert(r.remaining() =~= files_preorder(*root, 0));
        r
    }

    /// The number of nodes still to come.
    pub fn remaining_len(&self) -> (r: usize)
        ensures
            r == self.remaining().len(),
    {
        self.pending.len()
    }

    /// The depth of the last node handed out: 0 before the first call to `next`, and left
    /// unchanged by a call that hands out nothing.
    pub fn depth(&self) -> (r: usize)
        ensures
            r == self.last_depth(),
    {
        self.current_depth
    }

    /// Hands out the next node.
    pub fn next(&mut self) -> (r: Option<&'a FileTree<T>>)
        ensures
            old(self).remaining().len() > 0 ==> {
                &&& r matches Some(x)
                &&& *x == old(self).remaining()[0].0
                &&& final(self).last_depth() == old(self).remaining()[0].1
                &&& final(self).remaining() == old(self).remaining().drop_first()
            },
            old(self).remaining().len() == 0 ==> {
                &&& r is None
                &&& final(self).last_depth() == old(self).last_depth()
                &&& final(self).remaining() == old(self).remaining()
            },
    {
        let ghost rest = self.remaining();
        let ghost pv = visits_of(self.pending@);
        match self.pending.pop() {
            None => None,
            Some(item) => {
                assert(rest[0] == pv[pv.len() - 1]);
                assert(self.remaining() =~= rest.drop_first());
                self.current_depth = item.1;
                Some(item.0)
            },
        }
    }

    /// Turns this iterator into one over the paths of the nodes.
    pub fn paths(self) -> (r: PathsIter<'a, T>)
        ensures
            r.files() == self,
    {
        PathsIter { file_iter: self }
    }
}

/// Iterator over the paths of the nodes of a `FileTree`, in the order of `FilesIter`,
/// created by `FileTree::paths`.
pub struct PathsIter<'a, T> {
    file_iter: FilesIter<'a, T>,
}

impl<'a, T> PathsIter<'a, T> {
    /// The underlying iterator over nodes.
    pub closed spec fn files(self) -> FilesIter<'a, T> {
        self.file_iter
    }

    /// The depth of the node whose path was handed out last.
    pub fn depth(&self) -> (r: usize)
        ensures
            r == self.files().last_depth(),
    {
        self.file_iter.depth()
    }

    /// Hands out the path of the next node.
    pub fn next(&mut self) -> (r: Option<&'a FsPath>)
        ensures
            old(self).files().remaining().len() > 0 ==> {
                &&& r matches Some(p)
                &&& p@ == old(self).files().remaining()[0].0.path_of()
                &&& final(self).files().last_depth() == old(self).files().remaining()[0].1
                &&& final(self).files().remaining() == old(self).files().remaining().drop_first()
            },
            old(self).files().remaining().len() == 0 ==> {
                &&& r is None
                &&& final(self).files().remaining() == old(self).files().remaining()
                &&& final(self).files().last_depth() == old(self).files().last_depth()
            },
    {
        match self.file_iter.next() {
            Some(file) => Some(file.path()),
            None => None,
        }
    }
}

impl<T> FileTree<T> {
    /// An iterator over this node and every node under it, in depth-first pre-order.
    pub fn files(&self) -> (r: FilesIter<'_, T>)
        requires
            file_count(*self) <= usize::MAX,
        ensures
            r.remaining() == files_preorder(*self, 0),
            r.last_depth() == 0,
    {
        FilesIter::new(self)
    }

    /// Shorthand for `self.files().paths()`.
    pub fn paths(&self) -> (r: PathsIter<'_, T>)
        requires
            file_count(*self) <= usize::MAX,
        ensures
            r.files().remaining() == files_preorder(*self, 0),
            r.files().last_depth() == 0,
    {
        self.files().paths()
    }
}


/// Whether `new` keeps the variant, path, extra value and target of `old`, with as many
/// children.
pub open spec fn same_shell<T>(old: FileTree<T>, new: FileTree<T>) -> bool {
    &&& (old is Regular <==> new is Regular)
    &&& (old is Directory <==> new is Directory)
    &&& (old is Symlink <==> new is Symlink)
    &&& new.path_of() == old.path_of()
    &&& new.extra_of() == old.extra_of()
    &&& new.target_of() == old.target_of()
    &&& new.kids().len() == old.kids().len()
}

impl<T> FileTree<T> {
    /// Hands each direct child to `f` and keeps what it gives back, in order; the node
    /// itself is kept. The children are handed over by value: a closure that changes a
    /// child in place takes it and returns the changed child.
    pub fn apply_to_children0<F: Fn(FileTree<T>) -> FileTree<T>>(&mut self, f: &F)
        requires
            forall|x: FileTree<T>| call_requires(*f, (x,)),
        ensures
            same_shell(*old(self), *final(self)),
            forall|i: int|
                0 <= i < old(self).kids().len() ==> call_ensures(
                    *f,
                    (#[trigger] old(self).kids()[i],),
                    final(self).kids()[i],
                ),
    {
        if let FileTree::Directory { children, .. } = self {
            let mut rest: Vec<FileTree<T>> = Vec::new();
            std::mem::swap(&mut rest, children);
            let ghost orig = rest@;
            let mut backwards: Vec<FileTree<T>> = Vec::new();
            while rest.len() > 0
                invariant
                    rest@.len() + backwards@.len() == orig.len(),
                    forall|i: int| 0 <= i < rest@.len() ==> #[trigger] rest@[i] == orig[i],
                    forall|i: int|
                        0 <= i < backwards@.len() ==> #[trigger] backwards@[i] == orig[orig.len()
                            - 1 - i],
                decreases rest@.len(),
            {
                let t = rest.pop().unwrap();
                backwards.push(t);
            }
            while backwards.len() > 0
                invariant
                    children@.len() + backwards@.len() == orig.len(),
                    forall|x: FileTree<T>| call_requires(*f, (x,)),
                    forall|i: int|
                        0 <= i < backwards@.len() ==> #[trigger] backwards@[i] == orig[orig.len()
                            - 1 - i],
                    forall|i: int|
                        0 <= i < children@.len() ==> call_ensures(
                            *f,
                            (orig[i],),
                            #[trigger] children@[i],
                        ),
                decreases backwards@.len(),
            {
                let ghost k = children@.len() as int;
                let t = backwards.pop().unwrap();
                assert(t == orig[k]);
                let u = f(t);
                children.push(u);
            }
        }
    }
}

/// A record of how `apply_to_all_children1` treated a tree: for each direct child, the
/// child as it was once its own descendants had been treated (what `f` was then handed),
/// and the record of that treatment.
pub enum Treatment<T> {
    Step(Seq<(FileTree<T>, Treatment<T>)>),
}

/// Whether `new` is what `apply_to_all_children1` makes of `old` by the treatment `w`: the
/// node itself is kept, and each direct child of `new` is what `f` gave back for the
/// treated child recorded in `w`, itself treated from the matching child of `old`.
pub open spec fn treated_with<T, F: Fn(FileTree<T>) -> FileTree<T>>(
    f: F,
    old: FileTree<T>,
    new: FileTree<T>,
    w: Treatment<T>,
) -> bool
    decreases old,
{
    &&& same_shell(old, new)
    &&& match old {
        FileTree::Directory { children, .. } => {
            &&& w->Step_0.len() == children@.len()
            &&& forall|i: int|
                #![trigger children@[i]]
                0 <= i < children@.len() ==> treated_with(
                    f,
                    children@[i],
                    w->Step_0[i].0,
                    w->Step_0[i].1,
                ) && call_ensures(f, (w->Step_0[i].0,), new.kids()[i])
        },
        _ => true,
    }
}

/// What `apply_to_all_children1` makes of `old`: the node itself is kept, and each direct
/// child becomes what `f` gives back for that child once all of its own descendants have
/// been treated the same way.
pub open spec fn descendants_applied<T, F: Fn(FileTree<T>) -> FileTree<T>>(
    f: F,
    old: FileTree<T>,
    new: FileTree<T>,
) -> bool {
    exists|w: Treatment<T>| treated_with(f, old, new, w)
}

impl<T> FileTree<T> {
    /// Applies `f` to every direct and indirect descendant, deepest first: each child's own
    /// descendants are treated before `f` is handed the child itself and what it gives back
    /// takes the child's place. The node itself is kept.
    pub fn apply_to_all_children1<F: Fn(FileTree<T>) -> FileTree<T>>(&mut self, f: &F)
        requires
            forall|x: FileTree<T>| call_requires(*f, (x,)),
        ensures
            descendants_applied(*f, *old(self), *final(self)),
        decreases *old(self),
    {
        let ghost start = *self;
        let mut node = FileTree::regular_default();
        std::mem::swap(&mut node, self);
        match node {
            FileTree::Directory { path, extra, children: rest } => {
                let mut rest = rest;
                let ghost orig = rest@;
                assert(orig == start.kids());
                let mut backwards: Vec<FileTree<T>> = Vec::new();
                while rest.len() > 0
                    invariant
                        rest@.len() + backwards@.len() == orig.len(),
                        forall|i: int| 0 <= i < rest@.len() ==> #[trigger] rest@[i] == orig[i],
                        forall|i: int|
                            0 <= i < backwards@.len() ==> #[trigger] backwards@[i] == orig[orig.len()
                                - 1 - i],
                    decreases rest@.len(),
                {
                    let t = rest.pop().unwrap();
                    backwards.push(t);
                }
                let mut children: Vec<FileTree<T>> = Vec::new();
                let ghost mut ws: Seq<(FileTree<T>, Treatment<T>)> = Seq::empty();
                while backwards.len() > 0
                    invariant
                        children@.len() + backwards@.len() == orig.len(),
                        ws.len() == children@.len(),
                        start is Directory,
                        start == *old(self),
                        orig == start.kids(),
                        forall|x: FileTree<T>| call_requires(*f, (x,)),
                        forall|i: int|
                            0 <= i < backwards@.len() ==> #[trigger] backwards@[i] == orig[orig.len()
                                - 1 - i],
                        forall|i: int|
                            #![trigger orig[i]]
                            0 <= i < children@.len() ==> treated_with(
                                *f,
                                orig[i],
                                ws[i].0,
                                ws[i].1,
                            ) && call_ensures(*f, (ws[i].0,), children@[i]),
                    decreases backwards@.len(),
                {
                    let ghost k = children@.len() as int;
                    let mut t = backwards.pop().unwrap();
                    assert(t == orig[k]);
                    proof {
                        lemma_file_child_decreases(start, k);
                    }
                    t.apply_to_all_children1(f);
                    let ghost treated = t;
                    let ghost wk = choose|w: Treatment<T>| treated_with(*f, orig[k], treated, w);
                    let u = f(t);
                    let ghost before = children@;
                    let ghost ws_before = ws;
                    children.push(u);
                    proof {
                        ws = ws.push((treated, wk));
                    }
                    assert forall|i: int|
                        #![trigger orig[i]]
                        0 <= i < children@.len() implies treated_with(
                            *f,
                            orig[i],
                            ws[i].0,
                            ws[i].1,
                        ) && call_ensures(*f, (ws[i].0,), children@[i]) by {
                        if i < k {
                            assert(children@[i] == before[i]);
                            assert(ws[i] == ws_before[i]);
                        }
                    }
                }
                *self = FileTree::Directory { path, extra, children };
                let ghost w = Treatment::Step(ws);
                assert(self.kids() == children@);
                assert(same_shell(start, *self));
                assert(treated_with(*f, start, *self, w));
            },
            other => {
                *self = other;
                assert(treated_with(*f, start, *self, Treatment::Step(Seq::empty())));
            },
        }
    }
}

/// Each of the trees `ts` counts no more nodes than all of them together.
pub proof fn lemma_file_count_member<T>(ts: Seq<FileTree<T>>, i: int)
    requires
        0 <= i < ts.len(),
    ensures
        file_count(ts[i]) <= file_count_list(ts),
    decreases ts.len(),
{
    if i < ts.len() - 1 {
        assert(ts.drop_last()[i] == ts[i]);
        lemma_file_count_member(ts.drop_last(), i);
    }
}

/// A record of how `apply_to_all` rewrote a tree: what `f` gave back for the node itself,
/// and the records of how each child of that was rewritten in turn.
pub enum Rewrite<T> {
    Node(FileTree<T>, Seq<Rewrite<T>>),
}

/// Whether `new` is what `apply_to_all` makes of `old` by the rewrite `w`: `f` is handed
/// `old` and gives back the node recorded in `w`; `new` keeps that node's path, type and
/// extra value, and each of its children is that node's child rewritten the same way.
pub open spec fn rewritten_with<T, F: Fn(FileTree<T>) -> FileTree<T>>(
    f: F,
    old: FileTree<T>,
    new: FileTree<T>,
    w: Rewrite<T>,
) -> bool
    decreases new,
{
    &&& call_ensures(f, (old,), w->Node_0)
    &&& same_shell(w->Node_0, new)
    &&& match new {
        FileTree::Directory { children, .. } => {
            &&& w->Node_1.len() == children@.len()
            &&& forall|i: int|
                #![trigger children@[i]]
                0 <= i < children@.len() ==> rewritten_with(
                    f,
                    w->Node_0.kids()[i],
                    children@[i],
                    w->Node_1[i],
                )
        },
        _ => true,
    }
}

/// What `apply_to_all` makes of `old`: `f` is applied to the node itself, and then, in the
/// same way, to every child of what it gave back, all the way down.
pub open spec fn all_applied<T, F: Fn(FileTree<T>) -> FileTree<T>>(
    f: F,
    old: FileTree<T>,
    new: FileTree<T>,
) -> bool {
    exists|w: Rewrite<T>| rewritten_with(f, old, new, w)
}

impl<T> FileTree<T> {
    /// Applies `f` to this node and then to every direct and indirect descendant, the root
    /// first: `f` is handed the node, what it gives back takes the node's place, and the
    /// children of that are treated in turn. The walk goes down the trees that `f` gives
    /// back, so it ends only when `f` never gives back a larger tree than it was handed.
    pub fn apply_to_all<F: Fn(FileTree<T>) -> FileTree<T>>(&mut self, f: &F)
        requires
            forall|x: FileTree<T>| call_requires(*f, (x,)),
            forall|x: FileTree<T>, y: FileTree<T>|
                call_ensures(*f, (x,), y) ==> file_count(y) <= file_count(x),
        ensures
            all_applied(*f, *old(self), *final(self)),
        decreases file_count(*old(self)),
    {
        let ghost start = *self;
        let mut node = FileTree::regular_default();
        std::mem::swap(&mut node, self);
        let u = f(node);
        let ghost mid = u;
        assert(file_count(mid) <= file_count(start));
        match u {
            FileTree::Directory { path, extra, children: rest } => {
                let mut rest = rest;
                let ghost orig = rest@;
                assert(orig == mid.kids());
                let mut backwards: Vec<FileTree<T>> = Vec::new();
                while rest.len() > 0
                    invariant
                        rest@.len() + backwards@.len() == orig.len(),
                        forall|i: int| 0 <= i < rest@.len() ==> #[trigger] rest@[i] == orig[i],
                        forall|i: int|
                            0 <= i < backwards@.len() ==> #[trigger] backwards@[i] == orig[orig.len()
                                - 1 - i],
                    decreases rest@.len(),
                {
                    let t = rest.pop().unwrap();
                    backwards.push(t);
                }
                let mut children: Vec<FileTree<T>> = Vec::new();
                let ghost mut ws: Seq<Rewrite<T>> = Seq::empty();
                while backwards.len() > 0
                    invariant
                        children@.len() + backwards@.len() == orig.len(),
                        ws.len() == children@.len(),
                        mid is Directory,
                        orig == mid.kids(),
                        file_count(mid) <= file_count(*old(self)),
                        forall|x: FileTree<T>| call_requires(*f, (x,)),
                        forall|x: FileTree<T>, y: FileTree<T>|
                            call_ensures(*f, (x,), y) ==> file_count(y) <= file_count(x),
                        forall|i: int|
                            0 <= i < backwards@.len() ==> #[trigger] backwards@[i] == orig[orig.len()
                                - 1 - i],
                        forall|i: int|
                            #![trigger orig[i]]
                            0 <= i < children@.len() ==> rewritten_with(*f, orig[i], children@[i], ws[i]),
                    decreases backwards@.len(),
                {
                    let ghost k = children@.len() as int;
                    let mut t = backwards.pop().unwrap();
                    assert(t == orig[k]);
                    proof {
                        lemma_file_count_member(orig, k);
                    }
                    t.apply_to_all(f);
                    let ghost wk = choose|w: Rewrite<T>| rewritten_with(*f, orig[k], t, w);
                    let ghost before = children@;
                    let ghost ws_before = ws;
                    children.push(t);
                    proof {
                        ws = ws.push(wk);
                    }
                    assert forall|i: int|
                        #![trigger orig[i]]
                        0 <= i < children@.len() implies rewritten_with(
                            *f,
                            orig[i],
                            children@[i],
                            ws[i],
                        ) by {
                        if i < k {
                            assert(children@[i] == before[i]);
                            assert(ws[i] == ws_before[i]);
                        }
                    }
                }
                *self = FileTree::Directory { path, extra, children };
                let ghost w = Rewrite::Node(mid, ws);
                assert(self.kids() == children@);
                assert(same_shell(mid, *self));
                assert(rewritten_with(*f, start, *self, w));
            },
            other => {
                *self = other;
                assert(rewritten_with(*f, start, *self, Rewrite::Node(mid, Seq::empty())));
            },
        }
    }
}

} // verus!
