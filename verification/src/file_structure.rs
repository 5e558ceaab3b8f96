//! `File`: a recursive file representation whose nodes hold one path component each, with
//! iterators that rebuild the full paths while walking.
use vstd::prelude::*;

use crate::path::{joined, parent_pieces, FsPath};
use crate::text::path_components;

verus! {

/// A recursive file representation with a generic extra field.
#[derive(Debug, PartialEq, Eq, PartialOrd, Ord, Hash)]
pub struct File<T> {
    /// The path of the file, relative to its parent.
    pub path: FsPath,
    /// What kind of file it is.
    pub file_type: FileType<T>,
    /// An optional value of the caller's choosing.
    pub extra: Option<T>,
}

/// The type of a `File`, with the children of a directory and the target of a symlink.
#[derive(Debug, PartialEq, Eq, PartialOrd, Ord, Hash)]
pub enum FileType<T> {
    Regular,
    Directory(Vec<File<T>>),
    Symlink(FsPath),
}

impl<T> FileType<T> {
    /// The children of a directory; none for the other variants.
    pub open spec fn kids(self) -> Seq<File<T>> {
        match self {
            FileType::Directory(children) => children@,
            _ => Seq::empty(),
        }
    }

    /// The name of the file type as shown to users: `file`, `directory` or `symbolic link`.
    pub fn display_text(&self) -> (r: String)
        ensures
            r@ == match self {
                FileType::Regular => "file"@,
                FileType::Directory(_) => "directory"@,
                FileType::Symlink(_) => "symbolic link"@,
            },
    {
        match self {
            FileType::Regular => String::from_str("file"),
            FileType::Directory(_) => String::from_str("directory"),
            FileType::Symlink(_) => String::from_str("symbolic link"),
        }
    }

    /// Whether this is `FileType::Regular`.
    pub fn is_regular(&self) -> (r: bool)
        ensures
            r == *self is Regular,
    {
        matches!(self, FileType::Regular)
    }

    /// Whether this is `FileType::Directory`.
    pub fn is_dir(&self) -> (r: bool)
        ensures
            r == *self is Directory,
    {
        matches!(self, FileType::Directory(_))
    }

    /// Whether this is `FileType::Symlink`.
    pub fn is_symlink(&self) -> (r: bool)
        ensures
            r == *self is Symlink,
    {
        matches!(self, FileType::Symlink(_))
    }

    /// The children, if this is a directory.
    pub fn children(&self) -> (r: Option<&Vec<File<T>>>)
        ensures
            *self is Directory <==> r is Some,
            r matches Some(c) ==> c@ == self.kids(),
    {
        match self {
            FileType::Directory(children) => Some(children),
            _ => None,
        }
    }
}

impl<T> Default for FileType<T> {
    fn default() -> (r: Self)
        ensures
            r is Regular,
    {
        FileType::Regular
    }
}

/// Whether `f` is the chain of files for the components `ps` from the `k`-th on: each file
/// but the last a directory holding the next one and named by one component, the last a
/// regular file holding what is left of `ps` (nothing, or one component).
pub open spec fn is_file_chain<T>(f: File<T>, ps: Seq<Seq<char>>, k: nat) -> bool
    decreases ps.len() - k,
{
    &&& f.extra is None
    &&& if ps.len() <= k + 1 {
        f.path@ == ps.subrange(k as int, ps.len() as int) && f.file_type is Regular
    } else {
        &&& f.path@ == seq![ps[k as int]]
        &&& f.file_type.kids().len() == 1
        &&& f.file_type is Directory
        &&& is_file_chain(f.file_type.kids()[0], ps, k + 1)
    }
}

impl<T> File<T> {
    /// A file at `path` of type `file_type`, with no extra value.
    pub fn new(path: FsPath, file_type: FileType<T>) -> (r: Self)
        ensures
            r == (File { path: path, file_type: file_type, extra: None }),
    {
        File { path, file_type, extra: None }
    }

    /// The chain of files for a path text: `"a/b/c"` gives a directory `"a"` holding a
    /// directory `"b"` holding a regular file `"c"`.
    pub fn from_text(text: &str) -> (r: Self)
        ensures
            is_file_chain(r, path_components(text@), 0),
    {
        let full = FsPath::from_text(text);
        let pieces = full.pieces();
        let n = pieces.len();
        if n <= 1 {
            let r = File::new(full.copy(), FileType::Regular);
            assert(full@.subrange(0, n as int) =~= full@);
            return r;
        }
        let mut last = FsPath::new();
        last.push_piece(pieces[n - 1].clone());
        assert(last@ =~= full@.subrange(n - 1, n as int));
        let mut node = File::new(last, FileType::Regular);
        let mut k: usize = n - 1;
        while k > 0
            invariant
                0 <= k < n,
                n == full@.len(),
                pieces.deep_view() == full@,
                is_file_chain(node, full@, k as nat),
            decreases k,
        {
            k -= 1;
            let mut name = FsPath::new();
            name.push_piece(pieces[k].clone());
            assert(name@ =~= seq![full@[k as int]]);
            let mut children: Vec<File<T>> = Vec::new();
            children.push(node);
            node = File::new(name, FileType::Directory(children));
            assert(node.file_type.kids()[0] == children@[0]);
        }
        node
    }

    /// The children, if this is a directory.
    pub fn children(&self) -> (r: Option<&Vec<File<T>>>)
        ensures
            self.file_type is Directory <==> r is Some,
            r matches Some(c) ==> c@ == self.file_type.kids(),
    {
        self.file_type.children()
    }

    /// Whether this is a regular file.
    pub fn is_regular(&self) -> (r: bool)
        ensures
            r == self.file_type is Regular,
    {
        self.file_type.is_regular()
    }

    /// Whether this is a directory.
    pub fn is_dir(&self) -> (r: bool)
        ensures
            r == self.file_type is Directory,
    {
        self.file_type.is_dir()
    }

    /// Whether this is a symlink.
    pub fn is_symlink(&self) -> (r: bool)
        ensures
            r == self.file_type is Symlink,
    {
        self.file_type.is_symlink()
    }
}

/// Whether `a` and `b` have the same paths, types and targets everywhere (the extra values
/// aside).
pub open spec fn same_file_shape<T>(a: File<T>, b: File<T>) -> bool
    decreases a,
{
    &&& b.path@ == a.path@
    &&& (a.file_type is Regular <==> b.file_type is Regular)
    &&& (a.file_type is Directory <==> b.file_type is Directory)
    &&& (a.file_type is Symlink <==> b.file_type is Symlink)
    &&& (a.file_type matches FileType::Symlink(t) ==> b.file_type matches FileType::Symlink(u)
        && u@ == t@)
    &&& b.file_type.kids().len() == a.file_type.kids().len()
    &&& match a.file_type {
        FileType::Directory(children) => forall|i: int|
            #![trigger children@[i]]
            0 <= i < children@.len() ==> same_file_shape(children@[i], b.file_type.kids()[i]),
        _ => true,
    }
}

impl<T: Clone> File<T> {
    /// A copy of this file: same paths, types and targets everywhere, the extra values
    /// cloned.
    pub fn copy_file(&self) -> (r: Self)
        ensures
            same_file_shape(*self, r),
        decreases self,
    {
        let file_type = match &self.file_type {
            FileType::Regular => FileType::Regular,
            FileType::Symlink(target) => FileType::Symlink(target.copy()),
            FileType::Directory(children) => {
                let mut out: Vec<File<T>> = Vec::new();
                let mut i: usize = 0;
                while i < children.len()
                    invariant
                        i <= children@.len(),
                        out@.len() == i,
                        self.file_type is Directory,
                        self.file_type.kids() == children@,
                        forall|j: int|
                            #![trigger out@[j]]
                            0 <= j < i ==> same_file_shape(children@[j], out@[j]),
                    decreases children@.len() - i,
                {
                    proof {
                        lemma_file_child_decreases(*self, i as int);
                    }
                    out.push(children[i].copy_file());
                    i += 1;
                }
                FileType::Directory(out)
            },
        };
        let r = File { path: self.path.copy(), file_type, extra: self.extra.clone() };
        proof {
            if let FileType::Directory(children) = &self.file_type {
                assert forall|j: int| #![trigger children@[j]] 0 <= j < children@.len() implies same_file_shape(
                    children@[j],
                    r.file_type.kids()[j],
                ) by {}
            }
        }
        r
    }
}

impl<T: Clone> Clone for File<T> {
    fn clone(&self) -> (r: Self)
        ensures
            same_file_shape(*self, r),
    {
        self.copy_file()
    }
}

/// The number of files in `f`, itself included.
pub open spec fn file_total<T>(f: File<T>) -> nat
    decreases f,
{
    match f.file_type {
        FileType::Directory(children) => 1 + file_total_list(children@),
        _ => 1,
    }
}

/// The number of files in `fs`.
pub open spec fn file_total_list<T>(fs: Seq<File<T>>) -> nat
    decreases fs,
{
    if fs.len() == 0 {
        0
    } else {
        file_total_list(fs.drop_last()) + file_total(fs.last())
    }
}

pub proof fn lemma_file_total_list_prefix<T>(fs: Seq<File<T>>, i: int)
    requires
        0 <= i <= fs.len(),
    ensures
        file_total_list(fs.take(i)) <= file_total_list(fs),
    decreases fs.len(),
{
    if i < fs.len() {
        assert(fs.drop_last().take(i) == fs.take(i));
        lemma_file_total_list_prefix(fs.drop_last(), i);
    } else {
        assert(fs.take(i) == fs);
    }
}

pub proof fn lemma_file_child_decreases<T>(f: File<T>, i: int)
    requires
        f.file_type is Directory,
        0 <= i < f.file_type.kids().len(),
    ensures
        decreases_to!(f => f.file_type.kids()[i]),
{
    let c = f.file_type->Directory_0;
    assert(decreases_to!(f => f.file_type));
    assert(decreases_to!(f.file_type => c));
    assert(decreases_to!(c => c@));
    assert(decreases_to!(c@ => c@[i]));
}

/// The files of `f` with their depths, in depth-first pre-order, `f` at depth `d`.
pub open spec fn file_preorder<T>(f: File<T>, d: nat) -> Seq<(File<T>, nat)>
    decreases f,
{
    seq![(f, d)] + match f.file_type {
        FileType::Directory(children) => file_preorder_list(children@, d + 1),
        _ => Seq::empty(),
    }
}

/// The pre-order visits of the files `fs`, one after the other, each at depth `d`.
pub open spec fn file_preorder_list<T>(fs: Seq<File<T>>, d: nat) -> Seq<(File<T>, nat)>
    decreases fs,
{
    if fs.len() == 0 {
        Seq::empty()
    } else {
        file_preorder_list(fs.drop_last(), d) + file_preorder(fs.last(), d)
    }
}

/// The model of a sequence of pending visits.
pub open spec fn file_visits<'a, T>(v: Seq<(&'a File<T>, usize)>) -> Seq<(File<T>, nat)> {
    Seq::new(v.len(), |i: int| (*v[i].0, v[i].1 as nat))
}

/// Appends the pre-order visits of `f`, at depth `depth`, to `out`.
fn collect_file_visits<'a, T>(f: &'a File<T>, depth: usize, out: &mut Vec<(&'a File<T>, usize)>)
    requires
        depth + file_total(*f) <= usize::MAX,
    ensures
        file_visits(final(out)@) == file_visits(old(out)@) + file_preorder(*f, depth as nat),
    decreases f,
{
    let ghost before = file_visits(out@);
    out.push((f, depth));
    assert(file_visits(out@) =~= before + seq![(*f, depth as nat)]);
    match &f.file_type {
        FileType::Directory(children) => {
            let ghost mid = file_visits(out@);
            let mut i: usize = 0;
            while i < children.len()
                invariant
                    i <= children@.len(),
                    depth + file_total(*f) <= usize::MAX,
                    file_total(*f) == 1 + file_total_list(children@),
                    f.file_type is Directory,
                    f.file_type.kids() == children@,
                    file_visits(out@) == mid + file_preorder_list(
                        children@.take(i as int),
                        depth as nat + 1,
                    ),
                decreases children@.len() - i,
            {
                assert(children@.take(i + 1).drop_last() == children@.take(i as int));
                assert(children@.take(i + 1).last() == children@[i as int]);
                proof {
                    lemma_file_total_list_prefix(children@, i + 1);
                    lemma_file_child_decreases(*f, i as int);
                }
                collect_file_visits(&children[i], depth + 1, out);
                i += 1;
                assert(file_visits(out@) =~= mid + file_preorder_list(
                    children@.take(i as int),
                    depth as nat + 1,
                ));
            }
            assert(children@.take(i as int) == children@);
        },
        _ => {
            assert(file_visits(out@) =~= before + file_preorder(*f, depth as nat));
        },
    }
}

/// Iterator over every file of a `File`, in depth-first pre-order, created by
/// `File::files`.
pub struct FilesIter<'a, T> {
    // Visits still to come, the next one last.
    pending: Vec<(&'a File<T>, usize)>,
    current_depth: usize,
}

impl<'a, T> FilesIter<'a, T> {
    /// The visits still to come, in order.
    pub closed spec fn remaining(self) -> Seq<(File<T>, nat)> {
        file_visits(self.pending@).reverse()
    }

    /// The depth of the last file handed out (0 before the first).
    pub closed spec fn last_depth(self) -> nat {
        self.current_depth as nat
    }

    /// An iterator over `root` and everything under it.
    pub fn new(root: &'a File<T>) -> (r: Self)
        requires
            file_total(*root) <= usize::MAX,
        ensures
            r.remaining() == file_preorder(*root, 0),
            r.last_depth() == 0,
    {
        let mut order: Vec<(&'a File<T>, usize)> = Vec::new();
        collect_file_visits(root, 0, &mut order);
        assert(file_visits(order@) =~= file_preorder(*root, 0));
        let ghost all = file_visits(order@);
        let mut pending: Vec<(&'a File<T>, usize)> = Vec::new();
        while order.len() > 0
            invariant
                file_visits(order@) == all.take(order@.len() as int),
                order@.len() <= all.len(),
                file_visits(pending@) == all.skip(order@.len() as int).reverse(),
            decreases order@.len(),
        {
            let ghost before = order@;
            let ghost pb = file_visits(pending@);
            let item = order.pop().unwrap();
            let ghost n = order@.len() as int;
            assert(file_visits(before)[n] == all[n]);
            pending.push(item);
            assert(file_visits(order@) =~= all.take(n));
            let ghost tail = all.skip(n);
            assert(all.skip(n + 1) =~= tail.drop_first());
            assert(pb =~= tail.drop_first().reverse());
            assert(file_visits(pending@) =~= pb.push(all[n]));
            assert(file_visits(pending@) =~= tail.reverse());
        }
        assert(all.skip(0) == all);
        let r = FilesIter { pending, current_depth: 0 };
        assert(r.remaining() =~= file_preorder(*root, 0));
        r
    }

    /// The number of files still to come.
    pub fn remaining_len(&self) -> (r: usize)
        ensures
            r == self.remaining().len(),
    {
        self.pending.len()
    }

    /// The depth of the last file handed out: 0 before the first call to `next`, and left
    /// unchanged by a call that hands out nothing.
    pub fn depth(&self) -> (r: usize)
        ensures
            r == self.last_depth(),
    {
        self.current_depth
    }

    /// Hands out the next file.
    pub fn next(&mut self) -> (r: Option<&'a File<T>>)
        ensures
            old(self).remaining().len() > 0 ==> {
                &&& r matches Some(x)
                &&& *x == old(self).remaining()[0].0
                &&& final(self).last_depth() == old(self).remaining()[0].1
                &&& final(self).remaining() == old(self).remaining().drop_first()
            },
            old(self).remaining().len() == 0 ==> {
                &&& r is None
                &&& final(self).last_depth() == old(self).last_depth()
                &&& final(self).remaining() == old(self).remaining()
            },
    {
        let ghost rest = self.remaining();
        let ghost pv = file_visits(self.pending@);
        match self.pending.pop() {
            None => None,
            Some(item) => {
                assert(rest[0] == pv[pv.len() - 1]);
                assert(self.remaining() =~= rest.drop_first());
                self.current_depth = item.1;
                Some(item.0)
            },
        }
    }

    /// Turns this iterator into one over the paths of the files.
    pub fn paths(self) -> (r: PathsIter<'a, T>)
        ensures
            r.files() == self,
            r.current()@.len() == 0,
            r.previous_depth() == 0,
            !r.shows_last_segment(),
    {
        PathsIter::new(self)
    }
}

/// The path after a step of `PathsIter`: from `cur`, built for a file at depth `last`,
/// to the one for the file `p` at depth `d`.
pub open spec fn next_path(cur: Seq<Seq<char>>, last: nat, d: nat, p: Seq<Seq<char>>) -> Seq<
    Seq<char>,
> {
    let a = if d < last {
        parent_pieces(cur)
    } else {
        cur
    };
    let b = if d <= last {
        parent_pieces(a)
    } else {
        a
    };
    joined(b, p)
}

/// Iterator over the full paths of the files of a `File`, each built from the one before:
/// going back up pops a component (once more when going up a level), then the file's
/// path is joined. It can instead yield each file's own path.
pub struct PathsIter<'a, T> {
    current_path: FsPath,
    last_depth: usize,
    file_iter: FilesIter<'a, T>,
    only_show_last_segment: bool,
}

impl<'a, T> PathsIter<'a, T> {
    /// The underlying iterator over files.
    pub closed spec fn files(self) -> FilesIter<'a, T> {
        self.file_iter
    }

    /// The path built so far.
    pub closed spec fn current(self) -> FsPath {
        self.current_path
    }

    /// The depth of the file whose path was handed out last (0 before the first).
    pub closed spec fn previous_depth(self) -> nat {
        self.last_depth as nat
    }

    /// Whether each file's own path is yielded instead of the full path.
    pub closed spec fn shows_last_segment(self) -> bool {
        self.only_show_last_segment
    }

    /// An iterator over the paths of the files of `file_iter`.
    pub fn new(file_iter: FilesIter<'a, T>) -> (r: Self)
        ensures
            r.files() == file_iter,
            r.current()@.len() == 0,
            r.previous_depth() == 0,
            !r.shows_last_segment(),
    {
        PathsIter { file_iter, last_depth: 0, current_path: FsPath::new(), only_show_last_segment: false }
    }

    /// Sets whether each file's own path is yielded instead of the full path.
    pub fn only_show_last_segment(self, arg: bool) -> (r: Self)
        ensures
            r.files() == self.files(),
            r.current() == self.current(),
            r.previous_depth() == self.previous_depth(),
            r.shows_last_segment() == arg,
    {
        let mut it = self;
        it.only_show_last_segment = arg;
        it
    }

    /// The depth of the file whose path was handed out last.
    pub fn depth(&self) -> (r: usize)
        ensures
            r == self.files().last_depth(),
    {
        self.file_iter.depth()
    }

    /// Hands out the path of the next file.
    pub fn next(&mut self) -> (r: Option<FsPath>)
        ensures
            final(self).shows_last_segment() == old(self).shows_last_segment(),
            old(self).files().remaining().len() > 0 ==> {
                let f = old(self).files().remaining()[0];
                let built = next_path(old(self).current()@, old(self).previous_depth(), f.1, f.0.path@);
                &&& r matches Some(p)
                &&& old(self).shows_last_segment() ==> p@ == f.0.path@ && final(self).current()
                    == old(self).current()
                &&& !old(self).shows_last_segment() ==> p@ == built && final(self).current()@
                    == built
                &&& final(self).previous_depth() == f.1
                &&& final(self).files().remaining() == old(self).files().remaining().drop_first()
                &&& final(self).files().last_depth() == f.1
            },
            old(self).files().remaining().len() == 0 ==> {
                &&& r is None
                &&& final(self).files().remaining() == old(self).files().remaining()
                &&& final(self).files().last_depth() == old(self).files().last_depth()
                &&& final(self).current() == old(self).current()
                &&& final(self).previous_depth() == old(self).previous_depth()
            },
    {
        let file = match self.file_iter.next() {
            Some(f) => f,
            None => {
                return None;
            },
        };
        let current_depth = self.file_iter.depth();
        let result = if self.only_show_last_segment {
            file.path.copy()
        } else {
            if current_depth < self.last_depth {
                self.current_path.pop_parent();
            }
            if current_depth <= self.last_depth {
                self.current_path.pop_parent();
            }
            self.current_path.push_path(&file.path);
            self.current_path.copy()
        };
        self.last_depth = current_depth;
        Some(result)
    }
}

impl<T> File<T> {
    /// An iterator over this file and every file under it, in depth-first pre-order.
    pub fn files(&self) -> (r: FilesIter<'_, T>)
        requires
            file_total(*self) <= usize::MAX,
        ensures
            r.remaining() == file_preorder(*self, 0),
            r.last_depth() == 0,
    {
        FilesIter::new(self)
    }

    /// Shorthand for `self.files().paths()`.
    pub fn paths(&self) -> (r: PathsIter<'_, T>)
        requires
            file_total(*self) <= usize::MAX,
        ensures
            r.files().remaining() == file_preorder(*self, 0),
            r.files().last_depth() == 0,
            r.current()@.len() == 0,
            r.previous_depth() == 0,
            !r.shows_last_segment(),
    {
        self.files().paths()
    }
}

} // verus!
