//! Paths held as their components.
use vstd::prelude::*;

use crate::text::{chars_of, components_of, path_components};

verus! {

/// A relative or absolute filesystem path, held as its components (see `path_components`).
///
/// Two paths are equal when their components are, so `"a/b/"` and `"a/b"` are the same path.
#[derive(Debug, PartialEq, Eq, PartialOrd, Ord, Hash)]
pub struct FsPath {
    pieces: Vec<String>,
}

impl View for FsPath {
    type V = Seq<Seq<char>>;

    closed spec fn view(&self) -> Seq<Seq<char>> {
        self.pieces.deep_view()
    }
}

/// Whether a component is an ordinary name (not the root, `.` or `..`).
pub open spec fn is_normal_piece(p: Seq<char>) -> bool {
    p.len() > 0 && p != seq!['/'] && p != seq!['.'] && p != seq!['.', '.']
}

/// The text of a path: its components joined by `/`, the root component standing alone.
pub open spec fn path_text(ps: Seq<Seq<char>>) -> Seq<char>
    decreases ps.len(),
{
    if ps.len() == 0 {
        Seq::empty()
    } else if ps.len() == 1 {
        ps[0]
    } else {
        let init = path_text(ps.drop_last());
        if init == seq!['/'] {
            init + ps.last()
        } else {
            init.push('/') + ps.last()
        }
    }
}

/// The components of the parent of a path (`PathBuf::pop`): the last component dropped,
/// except that the empty path and the root have no parent and stay as they are.
pub open spec fn parent_pieces(p: Seq<Seq<char>>) -> Seq<Seq<char>> {
    if p.len() == 0 || (p.len() == 1 && p[0] == seq!['/']) {
        p
    } else {
        p.drop_last()
    }
}

/// The components of `base` joined with `p` (`PathBuf::push`): an absolute `p` replaces
/// `base`, any other is appended to it.
pub open spec fn joined(base: Seq<Seq<char>>, p: Seq<Seq<char>>) -> Seq<Seq<char>> {
    if p.len() > 0 && p[0] == seq!['/'] {
        p
    } else {
        base + p
    }
}

impl FsPath {
    /// A copy of this path.
    pub fn copy(&self) -> (r: FsPath)
        ensures
            r@ == self@,
    {
        let mut out: Vec<String> = Vec::new();
        let mut i: usize = 0;
        while i < self.pieces.len()
            invariant
                i <= self.pieces@.len(),
                out.deep_view() == self.pieces.deep_view().take(i as int),
            decreases self.pieces@.len() - i,
        {
            let piece = self.pieces[i].clone();
            let ghost before = out.deep_view();
            let ghost pv = piece@;
            out.push(piece);
            assert(out.deep_view() =~= before.push(pv));
            assert(self.pieces.deep_view().take(i + 1) =~= self.pieces.deep_view().take(
                i as int,
            ).push(pv));
            i += 1;
        }
        assert(self.pieces.deep_view().take(i as int) =~= self.pieces.deep_view());
        FsPath { pieces: out }
    }

    /// A path made of the first `k` components of this one.
    pub fn prefix(&self, k: usize) -> (r: FsPath)
        requires
            k <= self@.len(),
        ensures
            r@ == self@.take(k as int),
    {
        let mut out: Vec<String> = Vec::new();
        let mut i: usize = 0;
        while i < k
            invariant
                i <= k <= self.pieces@.len(),
                out.deep_view() == self.pieces.deep_view().take(i as int),
            decreases k - i,
        {
            let piece = self.pieces[i].clone();
            let ghost before = out.deep_view();
            let ghost pv = piece@;
            out.push(piece);
            assert(out.deep_view() =~= before.push(pv));
            assert(self.pieces.deep_view().take(i + 1) =~= self.pieces.deep_view().take(
                i as int,
            ).push(pv));
            i += 1;
        }
        FsPath { pieces: out }
    }

    /// The path without its first `k` components (empty when it has no more than `k`).
    pub fn suffix_from(&self, k: usize) -> (r: FsPath)
        ensures
            r@ == (if k >= self@.len() {
                Seq::<Seq<char>>::empty()
            } else {
                self@.skip(k as int)
            }),
    {
        let mut out: Vec<String> = Vec::new();
        let n = self.pieces.len();
        let mut i: usize = k;
        if i > n {
            i = n;
        }
        let ghost start = i;
        while i < n
            invariant
                start <= i <= n == self.pieces@.len(),
                start == (if k >= n { n } else { k }),
                out.deep_view() == self.pieces.deep_view().subrange(start as int, i as int),
            decreases n - i,
        {
            let piece = self.pieces[i].clone();
            let ghost before = out.deep_view();
            let ghost pv = piece@;
            out.push(piece);
            assert(out.deep_view() =~= before.push(pv));
            assert(self.pieces.deep_view().subrange(start as int, i + 1) =~= self.pieces.deep_view().subrange(
                start as int,
                i as int,
            ).push(pv));
            i += 1;
        }
        let r = FsPath { pieces: out };
        assert(r@ =~= (if k >= self@.len() {
            Seq::<Seq<char>>::empty()
        } else {
            self@.skip(k as int)
        }));
        r
    }

    /// The empty path.
    pub fn new() -> (r: FsPath)
        ensures
            r@ == Seq::<Seq<char>>::empty(),
    {
        let r = FsPath { pieces: Vec::new() };
        assert(r@ =~= Seq::<Seq<char>>::empty());
        r
    }

    /// The path written as `text`.
    pub fn from_text(text: &str) -> (r: FsPath)
        ensures
            r@ == path_components(text@),
    {
        FsPath { pieces: components_of(text) }
    }

    /// The path whose components are `pieces`.
    pub fn from_pieces(pieces: Vec<String>) -> (r: FsPath)
        ensures
            r@ == pieces.deep_view(),
    {
        FsPath { pieces }
    }

    /// The components of this path.
    pub fn pieces(&self) -> (r: &Vec<String>)
        ensures
            r.deep_view() == self@,
    {
        &self.pieces
    }

    /// The number of components.
    pub fn len(&self) -> (r: usize)
        ensures
            r == self@.len(),
    {
        self.pieces.len()
    }

    /// Whether the path has no components.
    pub fn is_empty(&self) -> (r: bool)
        ensures
            r == (self@.len() == 0),
    {
        self.pieces.len() == 0
    }

    /// Appends one component.
    pub fn push_piece(&mut self, piece: String)
        ensures
            final(self)@ == old(self)@.push(piece@),
    {
        let ghost before = self@;
        let ghost pv = piece@;
        self.pieces.push(piece);
        assert(self@ =~= before.push(pv));
    }

    /// Removes the last component, if any; returns whether one was removed.
    pub fn pop(&mut self) -> (r: bool)
        ensures
            r == (old(self)@.len() > 0),
            r ==> final(self)@ == old(self)@.drop_last(),
            !r ==> final(self)@ == old(self)@,
    {
        let ghost before = self@;
        match self.pieces.pop() {
            Some(_) => {
                assert(self@ =~= before.drop_last());
                true
            },
            None => false,
        }
    }

    /// Whether this path has the same components as `other`.
    pub fn same_as(&self, other: &FsPath) -> (r: bool)
        ensures
            r == (self@ == other@),
    {
        let n = self.pieces.len();
        if n != other.pieces.len() {
            return false;
        }
        let mut i: usize = 0;
        while i < n
            invariant
                i <= n == self@.len() == other@.len(),
                forall|j: int| 0 <= j < i ==> self@[j] == other@[j],
            decreases n - i,
        {
            let a = chars_of(self.pieces[i].as_str());
            let b = chars_of(other.pieces[i].as_str());
            assert(a@ == self@[i as int] && b@ == other@[i as int]);
            if crate::text::compare_chars(a.as_slice(), b.as_slice()) != crate::text::Cmp::Equal {
                assert(self@[i as int] != other@[i as int]);
                return false;
            }
            i += 1;
        }
        assert(self@ =~= other@);
        true
    }

    /// Truncates the path to its parent (`PathBuf::pop`); returns whether it had one.
    pub fn pop_parent(&mut self) -> (r: bool)
        ensures
            final(self)@ == parent_pieces(old(self)@),
            r == (old(self)@.len() > 0 && !(old(self)@.len() == 1 && old(self)@[0] == seq!['/'])),
    {
        let n = self.pieces.len();
        if n == 0 {
            return false;
        }
        if n == 1 {
            let cs = chars_of(self.pieces[0].as_str());
            assert(cs@ == self@[0]);
            if cs.len() == 1 && cs[0] == '/' {
                assert(cs@ =~= seq!['/']);
                return false;
            }
            assert(cs@ != seq!['/']);
        }
        self.pop()
    }

    /// Joins `p` to this path (`PathBuf::push`): an absolute `p` replaces it, any other is
    /// appended.
    pub fn push_path(&mut self, p: &FsPath)
        ensures
            final(self)@ == joined(old(self)@, p@),
    {
        let n = p.pieces.len();
        if n > 0 {
            let cs = chars_of(p.pieces[0].as_str());
            assert(cs@ == p@[0]);
            if cs.len() == 1 && cs[0] == '/' {
                assert(cs@ =~= seq!['/']);
                *self = p.copy();
                return;
            }
            assert(cs@ != seq!['/']);
        }
        let ghost start = self@;
        let mut i: usize = 0;
        while i < n
            invariant
                i <= n == p@.len(),
                self@ == start + p@.take(i as int),
            decreases n - i,
        {
            self.push_piece(p.pieces[i].clone());
            assert(p@.take(i + 1) =~= p@.take(i as int).push(p@[i as int]));
            i += 1;
        }
        assert(p@.take(i as int) =~= p@);
    }

    /// The last component, when it is an ordinary name.
    pub fn file_name(&self) -> (r: Option<&String>)
        ensures
            match r {
                Some(name) => self@.len() > 0 && is_normal_piece(self@.last()) && name@
                    == self@.last(),
                None => self@.len() == 0 || !is_normal_piece(self@.last()),
            },
    {
        let n = self.pieces.len();
        if n == 0 {
            return None;
        }
        let last = &self.pieces[n - 1];
        let cs = chars_of(last.as_str());
        assert(cs@ == self@.last());
        let root_like = cs.len() == 1 && (cs[0] == '/' || cs[0] == '.');
        let up = cs.len() == 2 && cs[0] == '.' && cs[1] == '.';
        proof {
            if cs@.len() == 1 {
                assert(cs@ != seq!['.', '.']);
                if cs@[0] == '/' {
                    assert(cs@ == seq!['/']);
                } else if cs@[0] == '.' {
                    assert(cs@ == seq!['.']);
                } else {
                    assert(cs@ != seq!['/']);
                    assert(cs@ != seq!['.']);
                }
            } else if cs@.len() == 2 {
                assert(cs@ != seq!['/']);
                assert(cs@ != seq!['.']);
                if cs@[0] == '.' && cs@[1] == '.' {
                    assert(cs@ == seq!['.', '.']);
                } else {
                    assert(cs@ != seq!['.', '.']);
                }
            } else {
                assert(cs@ != seq!['/']);
                assert(cs@ != seq!['.']);
                assert(cs@ != seq!['.', '.']);
            }
        }
        if cs.len() == 0 || root_like || up {
            None
        } else {
            Some(last)
        }
    }
}


impl Default for FsPath {
    fn default() -> (r: Self)
        ensures
            r@ == Seq::<Seq<char>>::empty(),
    {
        FsPath::new()
    }
}

impl Clone for FsPath {
    fn clone(&self) -> (r: Self)
        ensures
            r@ == self@,
    {
        self.copy()
    }
}

} // verus!
