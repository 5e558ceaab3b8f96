//! `DotfileGroup`: a directory of dotfiles and the trees found in it.
use vstd::prelude::*;

use std::collections::VecDeque;

use crate::file_tree::FileTree;
use crate::path::FsPath;

verus! {

/// The components of `p` without its first `n`.
pub open spec fn skip_pieces(p: Seq<Seq<char>>, n: nat) -> Seq<Seq<char>> {
    if n >= p.len() {
        Seq::empty()
    } else {
        p.skip(n as int)
    }
}

/// Whether `r` is `t` with the first `n` components taken off the path of every node.
pub open spec fn is_trimmed(r: FileTree<()>, t: FileTree<()>, n: nat) -> bool
    decreases t,
{
    &&& r.path_of() == skip_pieces(t.path_of(), n)
    &&& r.extra_of() == t.extra_of()
    &&& match t {
        FileTree::Regular { .. } => r is Regular,
        FileTree::Symlink { target_path, .. } => r is Symlink && r.target_of() == target_path@,
        FileTree::Directory { children, .. } => {
            &&& r is Directory
            &&& r.kids().len() == children@.len()
            &&& forall|i: int|
                0 <= i < children@.len() ==> is_trimmed(#[trigger] r.kids()[i], children@[i], n)
        },
    }
}

/// `t` with the first `n` components taken off the path of every node.
fn trim_tree(t: FileTree<()>, n: usize) -> (r: FileTree<()>)
    ensures
        is_trimmed(r, t, n as nat),
    decreases t,
{
    match t {
        FileTree::Regular { path, extra } => FileTree::Regular { path: path.suffix_from(n), extra },
        FileTree::Symlink { path, extra, target_path } => FileTree::Symlink {
            path: path.suffix_from(n),
            extra,
            target_path,
        },
        FileTree::Directory { path, extra, children } => {
            let ghost orig = children@;
            let ghost whole = FileTree::<()>::Directory { path, extra, children };
            let mut rest = children;
            let mut backwards: Vec<FileTree<()>> = Vec::new();
            while rest.len() > 0
                invariant
                    rest@.len() + backwards@.len() == orig.len(),
                    forall|i: int| 0 <= i < rest@.len() ==> #[trigger] rest@[i] == orig[i],
                    forall|i: int|
                        0 <= i < backwards@.len() ==> #[trigger] backwards@[i] == orig[orig.len()
                            - 1 - i],
                decreases rest@.len(),
            {
                let c = rest.pop().unwrap();
                backwards.push(c);
            }
            let mut out: Vec<FileTree<()>> = Vec::new();
            while backwards.len() > 0
                invariant
                    out@.len() + backwards@.len() == orig.len(),
                    forall|i: int|
                        0 <= i < backwards@.len() ==> #[trigger] backwards@[i] == orig[orig.len()
                            - 1 - i],
                    forall|i: int| 0 <= i < out@.len() ==> is_trimmed(#[trigger] out@[i], orig[i], n as nat),
                    whole is Directory,
                    whole.kids() == orig,
                    decreases_to!(t => whole.kids()),
                decreases backwards@.len(),
            {
                let ghost k = out@.len() as int;
                let c = backwards.pop().unwrap();
                assert(c == orig[k]);
                proof {
                    crate::file_tree::lemma_file_child_decreases(whole, k);
                }
                let u = trim_tree(c, n);
                out.push(u);
            }
            FileTree::Directory { path: path.suffix_from(n), extra, children: out }
        },
    }
}

/// The queue that `files_into_queue` makes of the trees `fs`: the trees that are not
/// directories first, in their order, then the directories, last first.
pub open spec fn queued(fs: Seq<FileTree<()>>) -> Seq<FileTree<()>>
    decreases fs.len(),
{
    if fs.len() == 0 {
        Seq::empty()
    } else {
        let rest = queued(fs.drop_first());
        if fs[0] is Directory {
            rest.push(fs[0])
        } else {
            seq![fs[0]] + rest
        }
    }
}

/// A directory of dotfiles and the trees found in it.
#[derive(Debug, Default, Clone)]
pub struct DotfileGroup {
    pub starting_path: FsPath,
    pub files: Vec<FileTree<()>>,
}

impl DotfileGroup {
    /// A group of `files` found at `starting_path`.
    pub fn new(starting_path: FsPath, files: Vec<FileTree<()>>) -> (r: Self)
        ensures
            r.starting_path == starting_path,
            r.files == files,
    {
        DotfileGroup { starting_path, files }
    }

    /// Takes the components of the starting path off the path of every node of every tree,
    /// so that each node's path is relative to the starting path.
    pub fn trim_starting_path_from_files(&mut self)
        ensures
            final(self).starting_path == old(self).starting_path,
            final(self).files@.len() == old(self).files@.len(),
            forall|i: int|
                0 <= i < old(self).files@.len() ==> is_trimmed(
                    #[trigger] final(self).files@[i],
                    old(self).files@[i],
                    old(self).starting_path@.len(),
                ),
    {
        let len_to_trim = self.starting_path.len();
        let mut files: Vec<FileTree<()>> = Vec::new();
        std::mem::swap(&mut files, &mut self.files);
        let ghost orig = files@;
        let mut backwards: Vec<FileTree<()>> = Vec::new();
        while files.len() > 0
            invariant
                files@.len() + backwards@.len() == orig.len(),
                forall|i: int| 0 <= i < files@.len() ==> #[trigger] files@[i] == orig[i],
                forall|i: int|
                    0 <= i < backwards@.len() ==> #[trigger] backwards@[i] == orig[orig.len() - 1
                        - i],
            decreases files@.len(),
        {
            let c = files.pop().unwrap();
            backwards.push(c);
        }
        let mut out: Vec<FileTree<()>> = Vec::new();
        while backwards.len() > 0
            invariant
                out@.len() + backwards@.len() == orig.len(),
                forall|i: int|
                    0 <= i < backwards@.len() ==> #[trigger] backwards@[i] == orig[orig.len() - 1
                        - i],
                forall|i: int|
                    0 <= i < out@.len() ==> is_trimmed(#[trigger] out@[i], orig[i], len_to_trim as nat),
            decreases backwards@.len(),
        {
            let c = backwards.pop().unwrap();
            let u = trim_tree(c, len_to_trim);
            out.push(u);
        }
        self.files = out;
    }

    /// Moves the trees into a queue (see `queued`). Leaves no trees in the group.
    pub fn files_into_queue(&mut self) -> (r: VecDeque<FileTree<()>>)
        ensures
            final(self).files@.len() == 0,
            final(self).starting_path == old(self).starting_path,
            r@ == queued(old(self).files@),
    {
        let ghost orig = self.files@;
        let mut deque: VecDeque<FileTree<()>> = VecDeque::new();
        let mut files: Vec<FileTree<()>> = Vec::new();
        std::mem::swap(&mut files, &mut self.files);
        assert(orig.skip(orig.len() as int) =~= Seq::<FileTree<()>>::empty());
        while files.len() > 0
            invariant
                files@ == orig.take(files@.len() as int),
                files@.len() <= orig.len(),
                deque@ == queued(orig.skip(files@.len() as int)),
            decreases files@.len(),
        {
            let ghost n = (files@.len() - 1) as int;
            let file = files.pop().unwrap();
            assert(file == orig[n]);
            assert(orig.skip(n).drop_first() =~= orig.skip(n + 1));
            assert(orig.skip(n)[0] == orig[n]);
            if file.is_dir() {
                deque.push_back(file);
            } else {
                deque.push_front(file);
            }
            assert(files@ =~= orig.take(n));
            assert(deque@ =~= queued(orig.skip(n)));
        }
        assert(orig.skip(0) =~= orig);
        deque
    }
}

} // verus!
