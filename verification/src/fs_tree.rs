//! The filesystem tree (`FsTree`), its children map (`TrieMap`), and their model.
use vstd::prelude::*;

use crate::path::FsPath;
use crate::text::{
    chars_lt, chars_of, components_of, path_components, compare_chars, lemma_chars_lt_irreflexive, lemma_chars_lt_transitive,
    lemma_chars_lt_trichotomy, Cmp,
};

verus! {

/// The mathematical model of a tree node: a directory is the sequence of its children,
/// named and ordered by name.
pub enum FsNode {
    Regular,
    Directory(Seq<(Seq<char>, FsNode)>),
    Symlink(Seq<Seq<char>>),
}

/// The names of `ps` strictly increase (so no name occurs twice).
pub open spec fn sorted_keys(ps: Seq<(Seq<char>, FsNode)>) -> bool {
    forall|i: int, j: int| 0 <= i < j < ps.len() ==> chars_lt(#[trigger] ps[i].0, #[trigger] ps[j].0)
}

/// Every directory in `n`, at any depth, keeps its children sorted by name.
pub open spec fn node_wf(n: FsNode) -> bool
    decreases n,
{
    match n {
        FsNode::Directory(ps) => sorted_keys(ps) && forall|i: int|
            0 <= i < ps.len() ==> node_wf(#[trigger] ps[i].1),
        _ => true,
    }
}

/// The child named `k`, if any.
pub open spec fn find_child(ps: Seq<(Seq<char>, FsNode)>, k: Seq<char>) -> Option<FsNode>
    decreases ps.len(),
{
    if ps.len() == 0 {
        None
    } else if ps.last().0 == k {
        Some(ps.last().1)
    } else {
        find_child(ps.drop_last(), k)
    }
}

/// The number of children whose name comes before `k`.
pub open spec fn lower_bound(ps: Seq<(Seq<char>, FsNode)>, k: Seq<char>) -> int
    decreases ps.len(),
{
    if ps.len() == 0 {
        0
    } else if chars_lt(ps.last().0, k) {
        ps.len() as int
    } else {
        lower_bound(ps.drop_last(), k)
    }
}

/// `ps` with the child `k` set to `v`: replaced if present, else added in name order.
pub open spec fn put_child(ps: Seq<(Seq<char>, FsNode)>, k: Seq<char>, v: FsNode) -> Seq<
    (Seq<char>, FsNode),
> {
    let p = lower_bound(ps, k);
    if p < ps.len() && ps[p].0 == k {
        ps.update(p, (k, v))
    } else {
        ps.insert(p, (k, v))
    }
}

pub proof fn lemma_find_child_at(ps: Seq<(Seq<char>, FsNode)>, i: int)
    requires
        sorted_keys(ps),
        0 <= i < ps.len(),
    ensures
        find_child(ps, ps[i].0) == Some(ps[i].1),
    decreases ps.len(),
{
    if i < ps.len() - 1 {
        assert(chars_lt(ps[i].0, ps[ps.len() - 1].0));
        lemma_chars_lt_irreflexive(ps[i].0);
        assert(ps.drop_last()[i] == ps[i]);
        lemma_find_child_at(ps.drop_last(), i);
    }
}

pub proof fn lemma_find_child_absent(ps: Seq<(Seq<char>, FsNode)>, k: Seq<char>)
    requires
        forall|i: int| 0 <= i < ps.len() ==> (#[trigger] ps[i]).0 != k,
    ensures
        find_child(ps, k) == None::<FsNode>,
    decreases ps.len(),
{
    if ps.len() > 0 {
        assert(ps.last() == ps[ps.len() - 1]);
        assert forall|i: int| 0 <= i < ps.drop_last().len() implies (
        #[trigger] ps.drop_last()[i]).0 != k by {
            assert(ps.drop_last()[i] == ps[i]);
        }
        lemma_find_child_absent(ps.drop_last(), k);
    }
}

pub proof fn lemma_find_child_present(ps: Seq<(Seq<char>, FsNode)>, k: Seq<char>) -> (i: int)
    requires
        find_child(ps, k) is Some,
    ensures
        0 <= i < ps.len(),
        ps[i].0 == k,
        find_child(ps, k) == Some(ps[i].1),
    decreases ps.len(),
{
    if ps.last().0 == k {
        ps.len() - 1
    } else {
        let j = lemma_find_child_present(ps.drop_last(), k);
        j
    }
}

pub proof fn lemma_lower_bound(ps: Seq<(Seq<char>, FsNode)>, k: Seq<char>)
    requires
        sorted_keys(ps),
    ensures
        0 <= lower_bound(ps, k) <= ps.len(),
        forall|j: int| 0 <= j < lower_bound(ps, k) ==> chars_lt(#[trigger] ps[j].0, k),
        forall|j: int| lower_bound(ps, k) <= j < ps.len() ==> !chars_lt(#[trigger] ps[j].0, k),
    decreases ps.len(),
{
    if ps.len() > 0 {
        let n = ps.len() - 1;
        if chars_lt(ps.last().0, k) {
            assert forall|j: int| 0 <= j < ps.len() implies chars_lt(#[trigger] ps[j].0, k) by {
                if j < n {
                    assert(chars_lt(ps[j].0, ps[n].0));
                    lemma_chars_lt_transitive(ps[j].0, ps[n].0, k);
                }
            }
        } else {
            let d = ps.drop_last();
            assert(sorted_keys(d)) by {
                assert forall|i: int, j: int| 0 <= i < j < d.len() implies chars_lt(
                    #[trigger] d[i].0,
                    #[trigger] d[j].0,
                ) by {
                    assert(d[i] == ps[i] && d[j] == ps[j]);
                }
            }
            lemma_lower_bound(d, k);
            assert forall|j: int| 0 <= j < lower_bound(ps, k) implies chars_lt(
                #[trigger] ps[j].0,
                k,
            ) by {
                assert(d[j] == ps[j]);
            }
            assert forall|j: int| lower_bound(ps, k) <= j < ps.len() implies !chars_lt(
                #[trigger] ps[j].0,
                k,
            ) by {
                if j < n {
                    assert(d[j] == ps[j]);
                }
            }
        }
    }
}

/// What stays true of the names when a child is set.
pub proof fn lemma_put_child(ps: Seq<(Seq<char>, FsNode)>, k: Seq<char>, v: FsNode)
    requires
        sorted_keys(ps),
    ensures
        sorted_keys(put_child(ps, k, v)),
        find_child(put_child(ps, k, v), k) == Some(v),
        forall|k2: Seq<char>|
            k2 != k ==> #[trigger] find_child(put_child(ps, k, v), k2) == find_child(ps, k2),
{
    lemma_lower_bound(ps, k);
    let p = lower_bound(ps, k);
    let r = put_child(ps, k, v);
    if p < ps.len() && ps[p].0 == k {
        assert(sorted_keys(r)) by {
            assert forall|i: int, j: int| 0 <= i < j < r.len() implies chars_lt(
                #[trigger] r[i].0,
                #[trigger] r[j].0,
            ) by {
                assert(ps[i].0 == r[i].0 && ps[j].0 == r[j].0);
            }
        }
        lemma_find_child_at(r, p);
        assert forall|k2: Seq<char>| k2 != k implies #[trigger] find_child(r, k2) == find_child(
            ps,
            k2,
        ) by {
            if find_child(ps, k2) is Some {
                let i = lemma_find_child_present(ps, k2);
                lemma_find_child_at(ps, i);
                lemma_find_child_at(r, i);
            } else if find_child(r, k2) is Some {
                let i = lemma_find_child_present(r, k2);
                lemma_find_child_at(ps, i);
            }
        }
    } else {
        assert(sorted_keys(r)) by {
            assert forall|i: int, j: int| 0 <= i < j < r.len() implies chars_lt(
                #[trigger] r[i].0,
                #[trigger] r[j].0,
            ) by {
                if j < p {
                    assert(r[i] == ps[i] && r[j] == ps[j]);
                } else if j == p {
                    assert(r[i] == ps[i]);
                } else if i == p {
                    assert(r[j] == ps[j - 1]);
                    lemma_chars_lt_trichotomy(ps[j - 1].0, k);
                    if j - 1 > p {
                        assert(chars_lt(ps[p].0, ps[j - 1].0));
                        lemma_chars_lt_trichotomy(ps[p].0, k);
                        if chars_lt(k, ps[p].0) {
                            lemma_chars_lt_transitive(k, ps[p].0, ps[j - 1].0);
                        }
                    } else {
                        lemma_chars_lt_trichotomy(ps[p].0, k);
                    }
                } else if i < p {
                    assert(r[i] == ps[i] && r[j] == ps[j - 1]);
                } else {
                    assert(r[i] == ps[i - 1] && r[j] == ps[j - 1]);
                }
            }
        }
        lemma_find_child_at(r, p);
        assert forall|k2: Seq<char>| k2 != k implies #[trigger] find_child(r, k2) == find_child(
            ps,
            k2,
        ) by {
            if find_child(ps, k2) is Some {
                let i = lemma_find_child_present(ps, k2);
                lemma_find_child_at(ps, i);
                if i < p {
                    assert(r[i] == ps[i]);
                    lemma_find_child_at(r, i);
                } else {
                    assert(r[i + 1] == ps[i]);
                    lemma_find_child_at(r, i + 1);
                }
            } else if find_child(r, k2) is Some {
                let i = lemma_find_child_present(r, k2);
                if i < p {
                    assert(r[i] == ps[i]);
                    lemma_find_child_at(ps, i);
                } else if i > p {
                    assert(r[i] == ps[i - 1]);
                    lemma_find_child_at(ps, i - 1);
                }
            }
        }
    }
}

/// The number of nodes of `n`, the root included.
pub open spec fn node_count(n: FsNode) -> nat
    decreases n,
{
    match n {
        FsNode::Directory(ps) => 1 + count_nodes(ps),
        _ => 1,
    }
}

/// The number of nodes under the children `ps`.
pub open spec fn count_nodes(ps: Seq<(Seq<char>, FsNode)>) -> nat
    decreases ps,
{
    if ps.len() == 0 {
        0
    } else {
        count_nodes(ps.drop_last()) + node_count(ps.last().1)
    }
}

/// Whether `n` is a leaf: a regular file, a symlink, or an empty directory.
pub open spec fn is_leaf_node(n: FsNode) -> bool {
    match n {
        FsNode::Directory(ps) => ps.len() == 0,
        _ => true,
    }
}

/// The number of leaves of `n`.
pub open spec fn leaf_count(n: FsNode) -> nat
    decreases n,
{
    match n {
        FsNode::Directory(ps) => if ps.len() == 0 {
            1
        } else {
            count_leaves(ps)
        },
        _ => 1,
    }
}

/// The number of leaves under the children `ps`.
pub open spec fn count_leaves(ps: Seq<(Seq<char>, FsNode)>) -> nat
    decreases ps,
{
    if ps.len() == 0 {
        0
    } else {
        count_leaves(ps.drop_last()) + leaf_count(ps.last().1)
    }
}

pub proof fn lemma_leaves_le_nodes(n: FsNode)
    ensures
        leaf_count(n) <= node_count(n),
    decreases n,
{
    if let FsNode::Directory(ps) = n {
        lemma_count_leaves_le(ps);
    }
}

pub proof fn lemma_count_leaves_le(ps: Seq<(Seq<char>, FsNode)>)
    ensures
        count_leaves(ps) <= count_nodes(ps),
    decreases ps,
{
    if ps.len() > 0 {
        lemma_count_leaves_le(ps.drop_last());
        lemma_leaves_le_nodes(ps.last().1);
    }
}

/// The nested directories named by `pieces`, ending in a regular file; a regular file when
/// `pieces` is empty.
pub open spec fn from_pieces(pieces: Seq<Seq<char>>) -> FsNode
    decreases pieces.len(),
{
    if pieces.len() == 0 {
        FsNode::Regular
    } else {
        FsNode::Directory(seq![(pieces[0], from_pieces(pieces.drop_first()))])
    }
}

/// The node reached from `n` by following `comps`, a `.` component staying in place.
pub open spec fn lookup(n: FsNode, comps: Seq<Seq<char>>) -> Option<FsNode>
    decreases comps.len(),
{
    if comps.len() == 0 {
        Some(n)
    } else if comps[0] == seq!['.'] {
        lookup(n, comps.drop_first())
    } else {
        match n {
            FsNode::Directory(ps) => match find_child(ps, comps[0]) {
                Some(c) => lookup(c, comps.drop_first()),
                None => None,
            },
            _ => None,
        }
    }
}

/// `n` with the node reached by `comps` (as in `lookup`) replaced by `v`; `n` itself when
/// `comps` reaches nothing.
pub open spec fn replace_at(n: FsNode, comps: Seq<Seq<char>>, v: FsNode) -> FsNode
    decreases comps.len(),
{
    if comps.len() == 0 {
        v
    } else if comps[0] == seq!['.'] {
        replace_at(n, comps.drop_first(), v)
    } else {
        match n {
            FsNode::Directory(ps) => match find_child(ps, comps[0]) {
                Some(c) => FsNode::Directory(
                    put_child(ps, comps[0], replace_at(c, comps.drop_first(), v)),
                ),
                None => n,
            },
            _ => n,
        }
    }
}

/// Whether a node can be placed at `comps` in `n`: `comps` is empty, or what precedes its last
/// component is a directory.
pub open spec fn can_insert(n: FsNode, comps: Seq<Seq<char>>) -> bool {
    comps.len() == 0 || lookup(n, comps.drop_last()) matches Some(FsNode::Directory(_))
}

/// `n` with `v` placed at `comps` (the last component naming the new child, the others
/// followed as in `lookup`).
pub open spec fn insert_at(n: FsNode, comps: Seq<Seq<char>>, v: FsNode) -> FsNode
    decreases comps.len(),
{
    if comps.len() == 0 {
        v
    } else if comps.len() == 1 {
        match n {
            FsNode::Directory(ps) => FsNode::Directory(put_child(ps, comps[0], v)),
            _ => n,
        }
    } else if comps[0] == seq!['.'] {
        insert_at(n, comps.drop_first(), v)
    } else {
        match n {
            FsNode::Directory(ps) => match find_child(ps, comps[0]) {
                Some(c) => FsNode::Directory(
                    put_child(ps, comps[0], insert_at(c, comps.drop_first(), v)),
                ),
                None => n,
            },
            _ => n,
        }
    }
}

/// Two trees merged: where both are directories, children present on one side only are kept
/// and children present on both sides are merged; otherwise the left tree wins.
pub open spec fn merge_nodes(l: FsNode, r: FsNode) -> FsNode
    decreases l, r,
{
    match l {
        FsNode::Directory(a) => match r {
            FsNode::Directory(b) => FsNode::Directory(merge_pairs(a, b)),
            _ => l,
        },
        _ => l,
    }
}

/// Two sorted child sequences merged in name order, children with the same name merged.
pub open spec fn merge_pairs(a: Seq<(Seq<char>, FsNode)>, b: Seq<(Seq<char>, FsNode)>) -> Seq<
    (Seq<char>, FsNode),
>
    decreases a, b,
{
    if a.len() == 0 {
        b
    } else if b.len() == 0 {
        a
    } else if chars_lt(b.last().0, a.last().0) {
        merge_pairs(a.drop_last(), b).push(a.last())
    } else if chars_lt(a.last().0, b.last().0) {
        merge_pairs(a, b.drop_last()).push(b.last())
    } else {
        merge_pairs(a.drop_last(), b.drop_last()).push(
            (a.last().0, merge_nodes(a.last().1, b.last().1)),
        )
    }
}

/// Whether merging `r` into `l` meets a conflict: somewhere the two trees have a node at the
/// same place that are not both directories.
pub open spec fn conflicts(l: FsNode, r: FsNode) -> bool
    decreases r,
{
    match l {
        FsNode::Directory(a) => match r {
            FsNode::Directory(b) => conflict_pairs(a, b),
            _ => true,
        },
        _ => true,
    }
}

/// Whether some child of `b` conflicts with the child of `a` of the same name.
pub open spec fn conflict_pairs(a: Seq<(Seq<char>, FsNode)>, b: Seq<(Seq<char>, FsNode)>) -> bool
    decreases b,
{
    if b.len() == 0 {
        false
    } else {
        conflict_pairs(a, b.drop_last()) || match find_child(a, b.last().0) {
            Some(x) => conflicts(x, b.last().1),
            None => false,
        }
    }
}

/// The children of a directory node: a map from names to nodes, kept in name order.
#[derive(Debug, PartialEq, Eq, PartialOrd, Ord, Hash)]
pub struct TrieMap {
    entries: Vec<(String, FsTree)>,
}

/// A filesystem tree: a regular file, a directory with named children, or a symlink with
/// its target path (which might be broken).
#[derive(Debug, PartialEq, Eq, PartialOrd, Ord, Hash)]
pub enum FsTree {
    /// A regular file.
    Regular,
    /// A directory, might have children `FsTree`s inside.
    Directory(TrieMap),
    /// Symbolic link, and its target path.
    Symlink(FsPath),
}

/// Each child of a directory is smaller than the directory.
pub proof fn lemma_child_decreases(m: TrieMap, i: int)
    requires
        0 <= i < m.pairs().len(),
    ensures
        decreases_to!(FsTree::Directory(m) => m.pairs()[i].1),
{
    let t = FsTree::Directory(m);
    assert(decreases_to!(t => t->Directory_0));
    assert(t->Directory_0 == m);
    assert(decreases_to!(m => m.entries));
    assert(decreases_to!(m.entries => m.entries@));
    assert(decreases_to!(m.entries@ => m.entries@[i]));
    assert(decreases_to!(m.entries@[i] => m.entries@[i].1));
}

/// The model of a sequence of named children.
pub open spec fn pairs_view(es: Seq<(String, FsTree)>) -> Seq<(Seq<char>, FsNode)>
    decreases es,
{
    if es.len() == 0 {
        Seq::empty()
    } else {
        pairs_view(es.drop_last()).push((es.last().0@, tree_view(es.last().1)))
    }
}

pub proof fn lemma_pairs_view(es: Seq<(String, FsTree)>)
    ensures
        pairs_view(es).len() == es.len(),
        forall|i: int|
            0 <= i < es.len() ==> #[trigger] pairs_view(es)[i] == (es[i].0@, tree_view(es[i].1)),
    decreases es.len(),
{
    if es.len() > 0 {
        lemma_pairs_view(es.drop_last());
        assert forall|i: int| 0 <= i < es.len() implies #[trigger] pairs_view(es)[i] == (
        es[i].0@,
        tree_view(es[i].1),
        ) by {
            if i < es.len() - 1 {
                assert(es.drop_last()[i] == es[i]);
            }
        }
    }
}

/// Changing one child of a sequence changes that child of its model.
pub proof fn lemma_pairs_view_updates()
    ensures
        forall|es: Seq<(String, FsTree)>, i: int, e: (String, FsTree)|
            0 <= i < es.len() ==> #[trigger] pairs_view(es.update(i, e)) == pairs_view(es).update(
                i,
                (e.0@, tree_view(e.1)),
            ),
{
    assert forall|es: Seq<(String, FsTree)>, i: int, e: (String, FsTree)|
        0 <= i < es.len() implies #[trigger] pairs_view(es.update(i, e)) == pairs_view(
        es,
    ).update(i, (e.0@, tree_view(e.1))) by {
        lemma_pairs_view(es);
        lemma_pairs_view(es.update(i, e));
        assert(pairs_view(es.update(i, e)) =~= pairs_view(es).update(i, (e.0@, tree_view(e.1))));
    }
}

/// Setting a child to the node it already holds changes nothing.
pub proof fn lemma_put_child_same(ps: Seq<(Seq<char>, FsNode)>, k: Seq<char>)
    requires
        sorted_keys(ps),
        find_child(ps, k) is Some,
    ensures
        put_child(ps, k, find_child(ps, k)->0) == ps,
{
    let i = lemma_find_child_present(ps, k);
    lemma_lower_bound(ps, k);
    let p = lower_bound(ps, k);
    lemma_chars_lt_irreflexive(k);
    if p < i {
        assert(chars_lt(ps[p].0, ps[i].0));
        if chars_lt(ps[p].0, k) {
        } else {
            lemma_chars_lt_trichotomy(ps[p].0, k);
        }
    }
    assert(p == i);
    assert(put_child(ps, k, find_child(ps, k)->0) =~= ps);
}

/// The model of a tree.
pub open spec fn tree_view(t: FsTree) -> FsNode
    decreases t,
{
    match t {
        FsTree::Regular => FsNode::Regular,
        FsTree::Directory(m) => FsNode::Directory(pairs_view(m.pairs())),
        FsTree::Symlink(p) => FsNode::Symlink(p@),
    }
}

impl TrieMap {
    /// The named children, in order.
    pub closed spec fn pairs(self) -> Seq<(String, FsTree)> {
        self.entries@
    }
}

impl View for TrieMap {
    type V = Seq<(Seq<char>, FsNode)>;

    open spec fn view(&self) -> Seq<(Seq<char>, FsNode)> {
        pairs_view(self.pairs())
    }
}

impl View for FsTree {
    type V = FsNode;

    open spec fn view(&self) -> FsNode {
        tree_view(*self)
    }
}


impl FsTree {
    /// A copy of this tree.
    pub fn deep_copy(&self) -> (r: FsTree)
        ensures
            r@ == self@,
        decreases self,
    {
        match self {
            FsTree::Regular => FsTree::Regular,
            FsTree::Symlink(p) => FsTree::Symlink(p.copy()),
            FsTree::Directory(m) => FsTree::Directory(m.deep_copy()),
        }
    }
}

impl TrieMap {
    /// A copy of these children.
    pub fn deep_copy(&self) -> (r: TrieMap)
        ensures
            r@ == self@,
        decreases self,
    {
        let mut out: Vec<(String, FsTree)> = Vec::new();
        let mut i: usize = 0;
        while i < self.entries.len()
            invariant
                i <= self.entries@.len(),
                pairs_view(out@) == pairs_view(self.entries@).take(i as int),
            decreases self.entries@.len() - i,
        {
            let k = self.entries[i].0.clone();
            let v = self.entries[i].1.deep_copy();
            proof {
                lemma_pairs_view(out@);
                lemma_pairs_view(self.entries@);
            }
            out.push((k, v));
            i += 1;
            proof {
                lemma_pairs_view(out@);
                assert(pairs_view(out@) =~= pairs_view(self.entries@).take(i as int));
            }
        }
        proof {
            lemma_pairs_view(self.entries@);
        }
        assert(pairs_view(self.entries@).take(i as int) =~= pairs_view(self.entries@));
        TrieMap { entries: out }
    }
}

impl TrieMap {
    /// An empty map.
    pub fn new() -> (r: TrieMap)
        ensures
            r@ == Seq::<(Seq<char>, FsNode)>::empty(),
    {
        let r = TrieMap { entries: Vec::new() };
        assert(r@ =~= Seq::<(Seq<char>, FsNode)>::empty());
        r
    }

    /// The number of children.
    pub fn len(&self) -> (r: usize)
        ensures
            r == self@.len(),
    {
        proof {
            lemma_pairs_view(self.entries@);
        }
        self.entries.len()
    }

    /// Whether there are no children.
    pub fn is_empty(&self) -> (r: bool)
        ensures
            r == (self@.len() == 0),
    {
        proof {
            lemma_pairs_view(self.entries@);
        }
        self.entries.len() == 0
    }

    /// The named children, in name order.
    pub fn as_slice(&self) -> (r: &[(String, FsTree)])
        ensures
            r@ == self.pairs(),
            pairs_view(r@) == self@,
    {
        self.entries.as_slice()
    }

    /// Whether the name of child `i` comes before `key`.
    fn name_before(&self, i: usize, key: &[char]) -> (r: bool)
        requires
            i < self@.len(),
        ensures
            r == chars_lt(self@[i as int].0, key@),
    {
        proof {
            lemma_pairs_view(self.entries@);
        }
        let name = chars_of(self.entries[i].0.as_str());
        compare_chars(name.as_slice(), key) == Cmp::Less
    }

    /// Where `key` is or would be: the number of names before it, and whether it is present.
    fn search(&self, key: &[char]) -> (r: (usize, bool))
        requires
            sorted_keys(self@),
        ensures
            r.0 == lower_bound(self@, key@),
            r.1 == (r.0 < self@.len() && self@[r.0 as int].0 == key@),
    {
        proof {
            lemma_pairs_view(self.entries@);
            lemma_lower_bound(self@, key@);
        }
        let mut i: usize = 0;
        while i < self.entries.len() && self.name_before(i, key)
            invariant
                i <= self.entries@.len(),
                self@.len() == self.entries@.len(),
                sorted_keys(self@),
                forall|j: int| 0 <= j < i ==> chars_lt(#[trigger] self@[j].0, key@),
            decreases self.entries@.len() - i,
        {
            i += 1;
        }
        proof {
            let lb = lower_bound(self@, key@);
            if i < lb {
                assert(chars_lt(self@[i as int].0, key@));
            }
            if (i as int) > lb {
                assert(chars_lt(self@[lb].0, key@));
            }
        }
        if i < self.entries.len() {
            let name = chars_of(self.entries[i].0.as_str());
            let same = compare_chars(name.as_slice(), key) == Cmp::Equal;
            (i, same)
        } else {
            (i, false)
        }
    }

    /// The child named `key`, if any.
    pub fn get(&self, key: &str) -> (r: Option<&FsTree>)
        requires
            sorted_keys(self@),
        ensures
            match r {
                Some(t) => find_child(self@, key@) == Some(t@),
                None => find_child(self@, key@) is None,
            },
    {
        let key_chars = chars_of(key);
        let (pos, found) = self.search(key_chars.as_slice());
        proof {
            lemma_pairs_view(self.entries@);
            lemma_lower_bound(self@, key@);
        }
        if found {
            proof {
                lemma_find_child_at(self@, pos as int);
            }
            Some(&self.entries[pos].1)
        } else {
            proof {
                assert forall|i: int| 0 <= i < self@.len() implies (#[trigger] self@[i]).0
                    != key@ by {
                    if i < pos {
                        lemma_chars_lt_irreflexive(key@);
                    } else if i > pos {
                        assert(chars_lt(self@[pos as int].0, self@[i].0));
                        lemma_chars_lt_trichotomy(self@[pos as int].0, key@);
                        if chars_lt(key@, self@[pos as int].0) {
                            lemma_chars_lt_transitive(key@, self@[pos as int].0, self@[i].0);
                            lemma_chars_lt_irreflexive(key@);
                        }
                    }
                }
                lemma_find_child_absent(self@, key@);
            }
            None
        }
    }

    /// The child named `key`, if any, to be changed in place.
    pub fn get_mut(&mut self, key: &str) -> (r: Option<&mut FsTree>)
        requires
            sorted_keys(old(self)@),
        ensures
            r is Some <==> find_child(old(self)@, key@) is Some,
            r matches Some(t) ==> find_child(old(self)@, key@) == Some(t@) && final(self)@
                == put_child(old(self)@, key@, final(t)@),
            r is None ==> *final(self) == *old(self),
    {
        let key_chars = chars_of(key);
        let (pos, found) = self.search(key_chars.as_slice());
        proof {
            lemma_pairs_view(self.entries@);
            lemma_lower_bound(self@, key@);
            lemma_pairs_view_updates();
        }
        if found {
            proof {
                lemma_find_child_at(self@, pos as int);
            }
            let entry = &mut self.entries[pos];
            Some(&mut entry.1)
        } else {
            proof {
                assert forall|i: int| 0 <= i < self@.len() implies (#[trigger] self@[i]).0
                    != key@ by {
                    if i < pos {
                        lemma_chars_lt_irreflexive(key@);
                    } else if i > pos {
                        assert(chars_lt(self@[pos as int].0, self@[i].0));
                        lemma_chars_lt_trichotomy(self@[pos as int].0, key@);
                        if chars_lt(key@, self@[pos as int].0) {
                            lemma_chars_lt_transitive(key@, self@[pos as int].0, self@[i].0);
                            lemma_chars_lt_irreflexive(key@);
                        }
                    }
                }
                lemma_find_child_absent(self@, key@);
            }
            None
        }
    }

    /// Sets the child `key` to `value`, returning the child it replaced.
    pub fn insert(&mut self, key: String, value: FsTree) -> (r: Option<FsTree>)
        requires
            sorted_keys(old(self)@),
        ensures
            final(self)@ == put_child(old(self)@, key@, value@),
            sorted_keys(final(self)@),
            match r {
                Some(t) => find_child(old(self)@, key@) == Some(t@),
                None => find_child(old(self)@, key@) is None,
            },
    {
        let key_chars = chars_of(key.as_str());
        let (pos, found) = self.search(key_chars.as_slice());
        let ghost old_view = self@;
        proof {
            lemma_pairs_view(self.entries@);
            lemma_lower_bound(self@, key@);
            lemma_put_child(old_view, key@, value@);
        }
        let ghost kv = key@;
        let ghost vv = value@;
        if found {
            proof {
                lemma_find_child_at(old_view, pos as int);
            }
            let previous = self.entries.remove(pos);
            self.entries.insert(pos, (key, value));
            proof {
                lemma_pairs_view(self.entries@);
                assert(self@ =~= old_view.update(pos as int, (kv, vv)));
            }
            Some(previous.1)
        } else {
            self.entries.insert(pos, (key, value));
            proof {
                lemma_pairs_view(self.entries@);
                assert(self@ =~= old_view.insert(pos as int, (kv, vv)));
                assert forall|i: int| 0 <= i < old_view.len() implies (#[trigger] old_view[i]).0
                    != kv by {
                    if i < pos {
                        lemma_chars_lt_irreflexive(kv);
                    } else if pos < old_view.len() {
                        lemma_chars_lt_trichotomy(old_view[pos as int].0, kv);
                        if i > pos {
                            assert(chars_lt(old_view[pos as int].0, old_view[i].0));
                            lemma_chars_lt_transitive(kv, old_view[pos as int].0, old_view[i].0);
                            lemma_chars_lt_irreflexive(kv);
                        }
                    }
                }
                lemma_find_child_absent(old_view, kv);
            }
            None
        }
    }
}

/// The name of a node's variant, as shown to users.
pub open spec fn variant_name(n: FsNode) -> Seq<char> {
    match n {
        FsNode::Regular => "regular file"@,
        FsNode::Directory(_) => "directory"@,
        FsNode::Symlink(_) => "symlink"@,
    }
}

pub proof fn lemma_child_wf(ps: Seq<(Seq<char>, FsNode)>, k: Seq<char>)
    requires
        node_wf(FsNode::Directory(ps)),
        find_child(ps, k) is Some,
    ensures
        node_wf(find_child(ps, k)->0),
{
    let i = lemma_find_child_present(ps, k);
    assert(node_wf(ps[i].1));
}

pub proof fn lemma_count_nodes_prefix(ps: Seq<(Seq<char>, FsNode)>, i: int)
    requires
        0 <= i <= ps.len(),
    ensures
        count_nodes(ps.take(i)) <= count_nodes(ps),
    decreases ps.len(),
{
    if i < ps.len() {
        assert(ps.drop_last().take(i) == ps.take(i));
        lemma_count_nodes_prefix(ps.drop_last(), i);
    } else {
        assert(ps.take(i) == ps);
    }
}

pub proof fn lemma_count_leaves_prefix(ps: Seq<(Seq<char>, FsNode)>, i: int)
    requires
        0 <= i <= ps.len(),
    ensures
        count_leaves(ps.take(i)) <= count_leaves(ps),
    decreases ps.len(),
{
    if i < ps.len() {
        assert(ps.drop_last().take(i) == ps.take(i));
        lemma_count_leaves_prefix(ps.drop_last(), i);
    } else {
        assert(ps.take(i) == ps);
    }
}

pub proof fn lemma_put_child_wf(ps: Seq<(Seq<char>, FsNode)>, k: Seq<char>, v: FsNode)
    requires
        node_wf(FsNode::Directory(ps)),
        node_wf(v),
    ensures
        node_wf(FsNode::Directory(put_child(ps, k, v))),
{
    lemma_put_child(ps, k, v);
    lemma_lower_bound(ps, k);
    let r = put_child(ps, k, v);
    let p = lower_bound(ps, k);
    assert forall|i: int| 0 <= i < r.len() implies node_wf(#[trigger] r[i].1) by {
        if p < ps.len() && ps[p].0 == k {
            if i != p {
                assert(r[i] == ps[i]);
            }
        } else {
            if i < p {
                assert(r[i] == ps[i]);
            } else if i > p {
                assert(r[i] == ps[i - 1]);
            }
        }
    }
}

pub proof fn lemma_from_pieces_wf(pieces: Seq<Seq<char>>)
    ensures
        node_wf(from_pieces(pieces)),
    decreases pieces.len(),
{
    if pieces.len() > 0 {
        lemma_from_pieces_wf(pieces.drop_first());
        let ps = seq![(pieces[0], from_pieces(pieces.drop_first()))];
        assert(node_wf(ps[0].1));
    }
}

pub proof fn lemma_sorted_push(ps: Seq<(Seq<char>, FsNode)>, x: (Seq<char>, FsNode))
    requires
        sorted_keys(ps),
        ps.len() > 0 ==> chars_lt(ps.last().0, x.0),
    ensures
        sorted_keys(ps.push(x)),
{
    let r = ps.push(x);
    assert forall|i: int, j: int| 0 <= i < j < r.len() implies chars_lt(
        #[trigger] r[i].0,
        #[trigger] r[j].0,
    ) by {
        if j == ps.len() {
            if i < ps.len() - 1 {
                assert(chars_lt(ps[i].0, ps[ps.len() - 1].0));
                lemma_chars_lt_transitive(ps[i].0, ps[ps.len() - 1].0, x.0);
            }
        } else {
            assert(r[i] == ps[i] && r[j] == ps[j]);
        }
    }
}

pub proof fn lemma_wf_drop_last(ps: Seq<(Seq<char>, FsNode)>)
    requires
        node_wf(FsNode::Directory(ps)),
        ps.len() > 0,
    ensures
        node_wf(FsNode::Directory(ps.drop_last())),
        node_wf(ps.last().1),
        ps.len() > 1 ==> chars_lt(ps.drop_last().last().0, ps.last().0),
{
    let d = ps.drop_last();
    assert(node_wf(ps[ps.len() - 1].1));
    assert forall|i: int| 0 <= i < d.len() implies node_wf(#[trigger] d[i].1) by {
        assert(d[i] == ps[i]);
    }
    assert forall|i: int, j: int| 0 <= i < j < d.len() implies chars_lt(
        #[trigger] d[i].0,
        #[trigger] d[j].0,
    ) by {
        assert(d[i] == ps[i] && d[j] == ps[j]);
    }
    if ps.len() > 1 {
        assert(chars_lt(ps[ps.len() - 2].0, ps[ps.len() - 1].0));
    }
}

pub proof fn lemma_conflict_prefix(
    a: Seq<(Seq<char>, FsNode)>,
    b: Seq<(Seq<char>, FsNode)>,
    j: int,
)
    requires
        0 <= j <= b.len(),
        conflict_pairs(a, b.take(j)),
    ensures
        conflict_pairs(a, b),
    decreases b.len(),
{
    if j < b.len() {
        assert(b.drop_last().take(j) == b.take(j));
        lemma_conflict_prefix(a, b.drop_last(), j);
    } else {
        assert(b.take(j) == b);
    }
}

pub proof fn lemma_merge_nodes_wf(l: FsNode, r: FsNode)
    requires
        node_wf(l),
        node_wf(r),
    ensures
        node_wf(merge_nodes(l, r)),
    decreases l, r,
{
    match l {
        FsNode::Directory(a) => match r {
            FsNode::Directory(b) => lemma_merge_pairs_wf(a, b),
            _ => {},
        },
        _ => {},
    }
}

pub proof fn lemma_merge_pairs_wf(a: Seq<(Seq<char>, FsNode)>, b: Seq<(Seq<char>, FsNode)>)
    requires
        node_wf(FsNode::Directory(a)),
        node_wf(FsNode::Directory(b)),
    ensures
        node_wf(FsNode::Directory(merge_pairs(a, b))),
        merge_pairs(a, b).len() == 0 ==> a.len() == 0 && b.len() == 0,
        merge_pairs(a, b).len() > 0 ==> (a.len() > 0 && merge_pairs(a, b).last().0 == a.last().0)
            || (b.len() > 0 && merge_pairs(a, b).last().0 == b.last().0),
    decreases a, b,
{
    if a.len() == 0 || b.len() == 0 {
    } else {
        lemma_wf_drop_last(a);
        lemma_wf_drop_last(b);
        lemma_chars_lt_trichotomy(a.last().0, b.last().0);
        let (m, x) = if chars_lt(b.last().0, a.last().0) {
            lemma_merge_pairs_wf(a.drop_last(), b);
            (merge_pairs(a.drop_last(), b), a.last())
        } else if chars_lt(a.last().0, b.last().0) {
            lemma_merge_pairs_wf(a, b.drop_last());
            (merge_pairs(a, b.drop_last()), b.last())
        } else {
            lemma_merge_pairs_wf(a.drop_last(), b.drop_last());
            lemma_merge_nodes_wf(a.last().1, b.last().1);
            (
                merge_pairs(a.drop_last(), b.drop_last()),
                (a.last().0, merge_nodes(a.last().1, b.last().1)),
            )
        };
        assert(merge_pairs(a, b) == m.push(x));
        if m.len() > 0 {
            if chars_lt(b.last().0, a.last().0) {
                if b.len() > 0 && m.last().0 == b.last().0 {
                } else {
                    assert(chars_lt(a.drop_last().last().0, a.last().0));
                }
            } else if chars_lt(a.last().0, b.last().0) {
                if m.last().0 == a.last().0 {
                } else {
                    assert(chars_lt(b.drop_last().last().0, b.last().0));
                }
            } else {
                if a.len() > 1 && m.last().0 == a.drop_last().last().0 {
                    assert(chars_lt(a.drop_last().last().0, a.last().0));
                } else {
                    assert(chars_lt(b.drop_last().last().0, b.last().0));
                }
            }
        }
        lemma_sorted_push(m, x);
        let r = m.push(x);
        assert forall|i: int| 0 <= i < r.len() implies node_wf(#[trigger] r[i].1) by {
            if i < m.len() {
                assert(r[i] == m[i]);
            }
        }
    }
}

/// Whether the text `s` is the single component `.`.
fn is_dot(s: &str) -> (r: bool)
    ensures
        r == (s@ == seq!['.']),
{
    let cs = chars_of(s);
    let r = cs.len() == 1 && cs[0] == '.';
    proof {
        if cs@.len() == 1 && cs@[0] == '.' {
            assert(cs@ == seq!['.']);
        }
    }
    r
}

impl TrieMap {
    /// These children merged with `other`'s (see `merge_pairs`).
    fn merge_with(self, other: TrieMap) -> (r: TrieMap)
        requires
            node_wf(FsNode::Directory(self@)),
            node_wf(FsNode::Directory(other@)),
        ensures
            r@ == merge_pairs(self@, other@),
        decreases self,
    {
        let ghost orig = self;
        let ghost target = merge_pairs(self@, other@);
        let mut a = self.entries;
        let mut b = other.entries;
        let mut out: Vec<(String, FsTree)> = Vec::new();
        proof {
            lemma_pairs_view(a@);
            lemma_pairs_view(b@);
            assert(pairs_view(out@) =~= Seq::<(Seq<char>, FsNode)>::empty());
            assert(a@ == orig.entries@.take(a@.len() as int));
        }
        while a.len() > 0 || b.len() > 0
            invariant
                node_wf(FsNode::Directory(pairs_view(a@))),
                node_wf(FsNode::Directory(pairs_view(b@))),
                orig == self,
                a@ == orig.entries@.take(a@.len() as int),
                a@.len() <= orig.entries@.len(),
                target == merge_pairs(pairs_view(a@), pairs_view(b@)) + pairs_view(out@),
            decreases a@.len() + b@.len(),
        {
            let ghost av = pairs_view(a@);
            let ghost bv = pairs_view(b@);
            let ghost ov = pairs_view(out@);
            proof {
                lemma_pairs_view(a@);
                lemma_pairs_view(b@);
                lemma_pairs_view(out@);
                if av.len() > 0 {
                    lemma_wf_drop_last(av);
                    assert(pairs_view(a@.drop_last()) =~= av.drop_last());
                }
                if bv.len() > 0 {
                    lemma_wf_drop_last(bv);
                    assert(pairs_view(b@.drop_last()) =~= bv.drop_last());
                }
            }
            let take_a: bool;
            let take_b: bool;
            if a.len() == 0 {
                take_a = false;
                take_b = true;
            } else if b.len() == 0 {
                take_a = true;
                take_b = false;
            } else {
                let ka = chars_of(a[a.len() - 1].0.as_str());
                let kb = chars_of(b[b.len() - 1].0.as_str());
                match compare_chars(ka.as_slice(), kb.as_slice()) {
                    Cmp::Greater => {
                        take_a = true;
                        take_b = false;
                    },
                    Cmp::Less => {
                        take_a = false;
                        take_b = true;
                    },
                    Cmp::Equal => {
                        take_a = true;
                        take_b = true;
                    },
                }
            }
            if take_a && take_b {
                let (ka, va) = a.pop().unwrap();
                let (_kb, vb) = b.pop().unwrap();
                proof {
                    let k = a@.len() as int;
                    assert(orig.entries@[k] == (ka, va));
                    assert(decreases_to!(orig => orig.entries));
                    assert(decreases_to!(orig.entries => orig.entries@));
                    assert(decreases_to!(orig.entries@ => orig.entries@[k]));
                    assert(decreases_to!(orig.entries@[k] => orig.entries@[k].1));
                    assert(decreases_to!(orig => va));
                }
                let merged = va.merge(vb);
                let ghost item = (ka@, merged@);
                out.insert(0, (ka, merged));
                proof {
                    lemma_pairs_view(out@);
                    assert(pairs_view(out@) =~= seq![item] + ov);
                    assert(a@ =~= orig.entries@.take(a@.len() as int));
                }
            } else if take_a {
                let entry = a.pop().unwrap();
                let ghost item = (entry.0@, entry.1@);
                out.insert(0, entry);
                proof {
                    lemma_pairs_view(out@);
                    assert(pairs_view(out@) =~= seq![item] + ov);
                    assert(a@ =~= orig.entries@.take(a@.len() as int));
                }
            } else {
                let entry = b.pop().unwrap();
                let ghost item = (entry.0@, entry.1@);
                out.insert(0, entry);
                proof {
                    lemma_pairs_view(out@);
                    assert(pairs_view(out@) =~= seq![item] + ov);
                }
            }
            assert(target =~= merge_pairs(pairs_view(a@), pairs_view(b@)) + pairs_view(out@));
        }
        proof {
            lemma_pairs_view(a@);
            lemma_pairs_view(b@);
            assert(merge_pairs(pairs_view(a@), pairs_view(b@)) =~= Seq::<
                (Seq<char>, FsNode),
            >::empty());
        }
        assert(target =~= pairs_view(out@));
        TrieMap { entries: out }
    }

    /// Whether some child of `other` conflicts with the child of `self` of the same name.
    fn conflicts_with(&self, other: &TrieMap) -> (r: bool)
        requires
            node_wf(FsNode::Directory(self@)),
            node_wf(FsNode::Directory(other@)),
        ensures
            r == conflict_pairs(self@, other@),
        decreases other,
    {
        proof {
            lemma_pairs_view(other.entries@);
        }
        let mut i: usize = 0;
        while i < other.entries.len()
            invariant
                i <= other.entries@.len(),
                other@.len() == other.entries@.len(),
                node_wf(FsNode::Directory(self@)),
                node_wf(FsNode::Directory(other@)),
                forall|j: int|
                    0 <= j < other.entries@.len() ==> #[trigger] other@[j] == (
                        other.entries@[j].0@,
                        tree_view(other.entries@[j].1),
                    ),
                !conflict_pairs(self@, other@.take(i as int)),
            decreases other.entries@.len() - i,
        {
            assert(other@.take(i + 1).drop_last() == other@.take(i as int));
            assert(other@.take(i + 1).last() == other@[i as int]);
            let (name, node) = (&other.entries[i].0, &other.entries[i].1);
            assert(node_wf(other@[i as int].1));
            match self.get(name.as_str()) {
                Some(mine) => {
                    proof {
                        lemma_child_wf(self@, name@);
                    }
                    if mine.conflicts_with(node) {
                        proof {
                            lemma_conflict_prefix(self@, other@, i + 1);
                        }
                        return true;
                    }
                },
                None => {},
            }
            i += 1;
        }
        assert(other@.take(i as int) == other@);
        false
    }

    /// The number of nodes under these children.
    fn count_all(&self) -> (r: usize)
        requires
            count_nodes(self@) <= usize::MAX,
        ensures
            r == count_nodes(self@),
        decreases self,
    {
        proof {
            lemma_pairs_view(self.entries@);
        }
        let mut total: usize = 0;
        let mut i: usize = 0;
        while i < self.entries.len()
            invariant
                i <= self.entries@.len(),
                self@.len() == self.entries@.len(),
                forall|j: int|
                    0 <= j < self.entries@.len() ==> #[trigger] self@[j] == (
                        self.entries@[j].0@,
                        tree_view(self.entries@[j].1),
                    ),
                count_nodes(self@) <= usize::MAX,
                total == count_nodes(self@.take(i as int)),
            decreases self.entries@.len() - i,
        {
            assert(self@.take(i + 1).drop_last() == self@.take(i as int));
            proof {
                lemma_count_nodes_prefix(self@, i + 1);
            }
            let n = self.entries[i].1.len_all();
            total = total + n;
            i += 1;
        }
        assert(self@.take(i as int) == self@);
        total
    }

    /// The number of nodes under these children, if it fits in a `usize`.
    fn checked_count_all(&self) -> (r: Option<usize>)
        ensures
            r matches Some(n) ==> n == count_nodes(self@),
            r is None ==> count_nodes(self@) > usize::MAX,
        decreases self,
    {
        proof {
            lemma_pairs_view(self.entries@);
        }
        let mut total: usize = 0;
        let mut i: usize = 0;
        while i < self.entries.len()
            invariant
                i <= self.entries@.len(),
                self@.len() == self.entries@.len(),
                forall|j: int|
                    0 <= j < self.entries@.len() ==> #[trigger] self@[j] == (
                        self.entries@[j].0@,
                        tree_view(self.entries@[j].1),
                    ),
                total == count_nodes(self@.take(i as int)),
            decreases self.entries@.len() - i,
        {
            assert(self@.take(i + 1).drop_last() == self@.take(i as int));
            proof {
                lemma_count_nodes_prefix(self@, i + 1);
                lemma_child_decreases(*self, i as int);
            }
            match self.entries[i].1.checked_len_all() {
                None => {
                    return None;
                },
                Some(n) => match total.checked_add(n) {
                    None => {
                        return None;
                    },
                    Some(t) => {
                        total = t;
                    },
                },
            }
            i += 1;
        }
        assert(self@.take(i as int) == self@);
        Some(total)
    }

    /// The number of leaves under these children.
    fn count_leafs(&self) -> (r: usize)
        requires
            count_nodes(self@) <= usize::MAX,
        ensures
            r == count_leaves(self@),
        decreases self,
    {
        proof {
            lemma_pairs_view(self.entries@);
            lemma_count_leaves_le(self@);
        }
        let mut total: usize = 0;
        let mut i: usize = 0;
        while i < self.entries.len()
            invariant
                i <= self.entries@.len(),
                self@.len() == self.entries@.len(),
                forall|j: int|
                    0 <= j < self.entries@.len() ==> #[trigger] self@[j] == (
                        self.entries@[j].0@,
                        tree_view(self.entries@[j].1),
                    ),
                count_nodes(self@) <= usize::MAX,
                count_leaves(self@) <= count_nodes(self@),
                total == count_leaves(self@.take(i as int)),
            decreases self.entries@.len() - i,
        {
            assert(self@.take(i + 1).drop_last() == self@.take(i as int));
            proof {
                lemma_count_leaves_prefix(self@, i + 1);
                lemma_count_nodes_prefix(self@, i + 1);
                lemma_leaves_le_nodes(self@[i as int].1);
                assert(node_count(self@[i as int].1) <= count_nodes(self@.take(i + 1)));
            }
            let n = self.entries[i].1.len_leafs();
            total = total + n;
            i += 1;
        }
        assert(self@.take(i as int) == self@);
        total
    }
}

impl FsTree {
    /// Every directory of the tree keeps its children sorted by name.
    pub open spec fn wf(&self) -> bool {
        node_wf(self@)
    }

    /// Creates an empty directory node.
    pub fn new_dir() -> (r: FsTree)
        ensures
            r@ == FsNode::Directory(Seq::empty()),
            r.wf(),
    {
        FsTree::Directory(TrieMap::new())
    }

    /// Counts the leaves: regular files, symlinks and empty directories.
    pub fn len_leafs(&self) -> (r: usize)
        requires
            node_count(self@) <= usize::MAX,
        ensures
            r == leaf_count(self@),
        decreases self,
    {
        match self {
            FsTree::Directory(children) => {
                if children.is_empty() {
                    1
                } else {
                    children.count_leafs()
                }
            },
            _ => 1,
        }
    }

    /// Counts all the nodes of the tree, the root included.
    pub fn len_all(&self) -> (r: usize)
        requires
            node_count(self@) <= usize::MAX,
        ensures
            r == node_count(self@),
        decreases self,
    {
        match self {
            FsTree::Directory(children) => 1 + children.count_all(),
            _ => 1,
        }
    }

    /// The number of nodes, this one included, if it fits in a `usize` (as `len_all`).
    pub fn checked_len_all(&self) -> (r: Option<usize>)
        ensures
            r matches Some(n) ==> n == node_count(self@),
            r is None ==> node_count(self@) > usize::MAX,
        decreases self,
    {
        match self {
            FsTree::Directory(children) => match children.checked_count_all() {
                Some(n) => n.checked_add(1),
                None => None,
            },
            _ => Some(1),
        }
    }

    /// The nested directories named by `pieces`, ending in a regular file (a regular file
    /// when `pieces` is empty).
    pub fn from_path_pieces(pieces: Vec<String>) -> (r: FsTree)
        ensures
            r@ == from_pieces(pieces.deep_view()),
            r.wf(),
    {
        let ghost all = pieces.deep_view();
        let mut pieces = pieces;
        let mut tree = FsTree::Regular;
        while pieces.len() > 0
            invariant
                pieces.deep_view() == all.take(pieces@.len() as int),
                pieces@.len() <= all.len(),
                tree@ == from_pieces(all.skip(pieces@.len() as int)),
            decreases pieces@.len(),
        {
            let ghost before = pieces.deep_view();
            let piece = pieces.pop().unwrap();
            let ghost n = pieces@.len() as int;
            assert(pieces.deep_view() =~= before.drop_last());
            assert(before[n] == piece@);
            assert(all.take(n + 1)[n] == all[n]);
            assert(all.skip(n).drop_first() =~= all.skip(n + 1));
            let ghost sub = tree@;
            let mut children = TrieMap::new();
            children.insert(piece, tree);
            assert(children@ =~= seq![(all[n], sub)]);
            tree = FsTree::Directory(children);
        }
        assert(all.skip(0) == all);
        proof {
            lemma_from_pieces_wf(all);
        }
        tree
    }

    /// The tree made of the components of `path`: nested directories ending in a regular file.
    pub fn from_path_text(path: &str) -> (r: FsTree)
        ensures
            r@ == from_pieces(path_components(path@)),
            r.wf(),
    {
        FsTree::from_path_pieces(components_of(path))
    }

    /// The node at `path`, relative to `self` (`.` components are ignored).
    pub fn get(&self, path: &str) -> (r: Option<&FsTree>)
        requires
            self.wf(),
        ensures
            match r {
                Some(t) => lookup(self@, path_components(path@)) == Some(t@),
                None => lookup(self@, path_components(path@)) is None,
            },
    {
        let comps = components_of(path);
        assert(comps.deep_view().skip(0) == comps.deep_view());
        self.get_pieces(&comps, 0)
    }

    pub(crate) fn get_pieces<'a>(&'a self, comps: &Vec<String>, i: usize) -> (r: Option<&'a FsTree>)
        requires
            self.wf(),
            i <= comps@.len(),
        ensures
            match r {
                Some(t) => lookup(self@, comps.deep_view().skip(i as int)) == Some(t@),
                None => lookup(self@, comps.deep_view().skip(i as int)) is None,
            },
        decreases comps@.len() - i,
    {
        let ghost rest = comps.deep_view().skip(i as int);
        if i == comps.len() {
            assert(rest.len() == 0);
            return Some(self);
        }
        assert(rest[0] == comps@[i as int]@);
        assert(rest.drop_first() == comps.deep_view().skip(i + 1));
        if is_dot(comps[i].as_str()) {
            return self.get_pieces(comps, i + 1);
        }
        match self {
            FsTree::Directory(children) => match children.get(comps[i].as_str()) {
                Some(child) => {
                    proof {
                        lemma_child_wf(children@, comps@[i as int]@);
                    }
                    child.get_pieces(comps, i + 1)
                },
                None => None,
            },
            _ => None,
        }
    }

    /// The node at `path`, relative to `self` (`.` components are ignored), to be changed in
    /// place: when the borrow ends, `self` holds the changed node at `path`.
    pub fn get_mut(&mut self, path: &str) -> (r: Option<&mut FsTree>)
        requires
            old(self).wf(),
        ensures
            r is Some <==> lookup(old(self)@, path_components(path@)) is Some,
            r matches Some(t) ==> lookup(old(self)@, path_components(path@)) == Some(t@)
                && final(self)@ == replace_at(old(self)@, path_components(path@), final(t)@),
            r is None ==> final(self)@ == old(self)@,
    {
        let comps = components_of(path);
        assert(comps.deep_view().skip(0) == comps.deep_view());
        self.get_mut_pieces(&comps, 0)
    }

    pub(crate) fn get_mut_pieces<'a>(&'a mut self, comps: &Vec<String>, i: usize) -> (r: Option<
        &'a mut FsTree,
    >)
        requires
            old(self).wf(),
            i <= comps@.len(),
        ensures
            r is Some <==> lookup(old(self)@, comps.deep_view().skip(i as int)) is Some,
            r matches Some(t) ==> lookup(old(self)@, comps.deep_view().skip(i as int)) == Some(t@)
                && final(self)@ == replace_at(
                old(self)@,
                comps.deep_view().skip(i as int),
                final(t)@,
            ),
            r is None ==> final(self)@ == old(self)@,
        decreases comps@.len() - i,
    {
        let ghost rest = comps.deep_view().skip(i as int);
        if i == comps.len() {
            assert(rest.len() == 0);
            return Some(self);
        }
        assert(rest[0] == comps@[i as int]@);
        assert(rest.drop_first() == comps.deep_view().skip(i + 1));
        if is_dot(comps[i].as_str()) {
            return self.get_mut_pieces(comps, i + 1);
        }
        match self {
            FsTree::Directory(children) => {
                proof {
                    lemma_pairs_view(children.pairs());
                }
                match children.get_mut(comps[i].as_str()) {
                    Some(child) => {
                        proof {
                            lemma_child_wf(old(self)@->Directory_0, comps@[i as int]@);
                            lemma_put_child_same(old(self)@->Directory_0, comps@[i as int]@);
                        }
                        child.get_mut_pieces(comps, i + 1)
                    },
                    None => None,
                }
            },
            _ => None,
        }
    }

    /// The node at `path`, which must exist (what `tree[path]` gives).
    pub fn index(&self, path: &str) -> (r: &FsTree)
        requires
            self.wf(),
            lookup(self@, path_components(path@)) is Some,
        ensures
            lookup(self@, path_components(path@)) == Some(r@),
    {
        self.get(path).unwrap()
    }

    /// Places `node` at `path`, relative to `self`: the last component names the new child
    /// of the directory that the other components lead to. The path must not be empty, and
    /// what precedes its last component must be a directory.
    pub fn insert(&mut self, path: &str, node: FsTree)
        requires
            old(self).wf(),
            node.wf(),
            path_components(path@).len() > 0,
            can_insert(old(self)@, path_components(path@)),
        ensures
            final(self)@ == insert_at(old(self)@, path_components(path@), node@),
            final(self).wf(),
    {
        let comps = components_of(path);
        assert(comps.deep_view().skip(0) == comps.deep_view());
        self.insert_pieces(&comps, 0, node);
    }

    pub(crate) fn insert_pieces(&mut self, comps: &Vec<String>, i: usize, node: FsTree)
        requires
            old(self).wf(),
            node.wf(),
            i <= comps@.len(),
            can_insert(old(self)@, comps.deep_view().skip(i as int)),
        ensures
            final(self)@ == insert_at(old(self)@, comps.deep_view().skip(i as int), node@),
            final(self).wf(),
        decreases comps@.len() - i,
    {
        let ghost rest = comps.deep_view().skip(i as int);
        let ghost old_view = self@;
        if i == comps.len() {
            assert(rest.len() == 0);
            *self = node;
            return ;
        }
        assert(rest[0] == comps@[i as int]@);
        assert(rest.drop_first() =~= comps.deep_view().skip(i + 1));
        if i + 1 == comps.len() {
            assert(rest.drop_last() =~= Seq::<Seq<char>>::empty());
            match self {
                FsTree::Directory(children) => {
                    proof {
                        lemma_put_child_wf(children@, comps@[i as int]@, node@);
                    }
                    children.insert(comps[i].clone(), node);
                },
                _ => {},
            }
            return ;
        }
        if is_dot(comps[i].as_str()) {
            assert(rest.drop_last().drop_first() =~= rest.drop_first().drop_last());
            self.insert_pieces(comps, i + 1, node);
            return ;
        }
        assert(rest.drop_last()[0] == rest[0]);
        assert(rest.drop_last().drop_first() =~= rest.drop_first().drop_last());
        match self {
            FsTree::Directory(children) => {
                let key = chars_of(comps[i].as_str());
                let (pos, found) = children.search(key.as_slice());
                proof {
                    lemma_pairs_view(children.entries@);
                    lemma_lower_bound(children@, key@);
                    if !found {
                        assert forall|j: int| 0 <= j < children@.len() implies (
                        #[trigger] children@[j]).0 != key@ by {
                            if j < pos {
                                lemma_chars_lt_irreflexive(key@);
                            } else if pos < children@.len() {
                                lemma_chars_lt_trichotomy(children@[pos as int].0, key@);
                                if j > pos {
                                    assert(chars_lt(children@[pos as int].0, children@[j].0));
                                    lemma_chars_lt_transitive(
                                        key@,
                                        children@[pos as int].0,
                                        children@[j].0,
                                    );
                                    lemma_chars_lt_irreflexive(key@);
                                }
                            }
                        }
                        lemma_find_child_absent(children@, key@);
                    }
                }
                if found {
                    let ghost ps = children@;
                    proof {
                        lemma_find_child_at(ps, pos as int);
                        lemma_child_wf(ps, key@);
                    }
                    let (name, mut child) = children.entries.remove(pos);
                    child.insert_pieces(comps, i + 1, node);
                    let ghost new_child = child@;
                    proof {
                        lemma_put_child_wf(ps, key@, new_child);
                        lemma_lower_bound(ps, key@);
                    }
                    children.entries.insert(pos, (name, child));
                    proof {
                        lemma_pairs_view(children.entries@);
                        assert(children@ =~= ps.update(pos as int, (key@, new_child)));
                    }
                }
            },
            _ => {},
        }
    }

    /// Merges `other` into `self`: where both are directories their children are merged
    /// by name; otherwise (a conflict) `self` is kept and `other` discarded.
    pub fn merge(self, other: FsTree) -> (r: FsTree)
        requires
            self.wf(),
            other.wf(),
        ensures
            r@ == merge_nodes(self@, other@),
            r.wf(),
        decreases self,
    {
        proof {
            lemma_merge_nodes_wf(self@, other@);
        }
        match self {
            FsTree::Directory(left) => match other {
                FsTree::Directory(right) => FsTree::Directory(left.merge_with(right)),
                _ => FsTree::Directory(left),
            },
            _ => self,
        }
    }

    /// Whether merging `other` into `self` would meet a conflict (see `merge`).
    pub fn conflicts_with(&self, other: &FsTree) -> (r: bool)
        requires
            self.wf(),
            other.wf(),
        ensures
            r == conflicts(self@, other@),
        decreases other,
    {
        match self {
            FsTree::Directory(left) => match other {
                FsTree::Directory(right) => left.conflicts_with(right),
                _ => true,
            },
            _ => true,
        }
    }

    /// Whether `self` and `other` are of the same variant.
    pub fn is_same_type_as(&self, other: &FsTree) -> (r: bool)
        ensures
            r == ((self@ is Regular && other@ is Regular) || (self@ is Directory
                && other@ is Directory) || (self@ is Symlink && other@ is Symlink)),
    {
        match (self, other) {
            (FsTree::Regular, FsTree::Regular) => true,
            (FsTree::Directory(_), FsTree::Directory(_)) => true,
            (FsTree::Symlink(_), FsTree::Symlink(_)) => true,
            _ => false,
        }
    }

    /// The children, if `self` is a directory.
    pub fn children(&self) -> (r: Option<&TrieMap>)
        ensures
            match r {
                Some(m) => self@ == FsNode::Directory(m@),
                None => !(self@ is Directory),
            },
    {
        match self {
            FsTree::Directory(children) => Some(children),
            _ => None,
        }
    }

    /// The children, if `self` is a directory, to be changed in place.
    pub fn children_mut(&mut self) -> (r: Option<&mut TrieMap>)
        ensures
            old(self)@ is Directory <==> r is Some,
            r matches Some(m) ==> old(self)@ == FsNode::Directory(m@) && final(self)@
                == FsNode::Directory(final(m)@),
            r is None ==> final(self)@ == old(self)@,
    {
        match self {
            FsTree::Directory(children) => Some(children),
            _ => None,
        }
    }

    /// The target path, if `self` is a symlink, to be changed in place.
    pub fn target_mut(&mut self) -> (r: Option<&mut FsPath>)
        ensures
            old(self)@ is Symlink <==> r is Some,
            r matches Some(p) ==> old(self)@ == FsNode::Symlink(p@) && final(self)@
                == FsNode::Symlink(final(p)@),
            r is None ==> final(self)@ == old(self)@,
    {
        match self {
            FsTree::Symlink(target) => Some(target),
            _ => None,
        }
    }

    /// The target path, if `self` is a symlink.
    pub fn target(&self) -> (r: Option<&FsPath>)
        ensures
            match r {
                Some(p) => self@ == FsNode::Symlink(p@),
                None => !(self@ is Symlink),
            },
    {
        match self {
            FsTree::Symlink(target) => Some(target),
            _ => None,
        }
    }

    /// Whether `self` is a leaf: any node but a directory with children.
    pub fn is_leaf(&self) -> (r: bool)
        ensures
            r == is_leaf_node(self@),
    {
        match self {
            FsTree::Directory(children) => children.is_empty(),
            _ => true,
        }
    }

    /// The file type bits of a `mode_t` for this node: those of a regular file, of a
    /// directory, and, for a symlink, those of a symbolic link.
    pub fn as_mode_t(&self) -> (r: libc::mode_t)
        ensures
            r == match self@ {
                FsNode::Regular => 0o100000int,
                FsNode::Directory(_) => 0o40000int,
                FsNode::Symlink(_) => 0o120000int,
            },
    {
        match self {
            FsTree::Regular => crate::outside::mode_regular(),
            FsTree::Directory(_) => crate::outside::mode_directory(),
            FsTree::Symlink(_) => crate::outside::mode_symlink(),
        }
    }

    /// The variant's name, for showing to users.
    pub fn variant_str(&self) -> (r: &'static str)
        ensures
            r@ == variant_name(self@),
    {
        match self {
            FsTree::Regular => {
                proof {
                    reveal_strlit("regular file");
                }
                "regular file"
            },
            FsTree::Directory(_) => {
                proof {
                    reveal_strlit("directory");
                }
                "directory"
            },
            FsTree::Symlink(_) => {
                proof {
                    reveal_strlit("symlink");
                }
                "symlink"
            },
        }
    }

    /// Whether `self` is a regular file.
    pub fn is_regular(&self) -> (r: bool)
        ensures
            r == (self@ is Regular),
    {
        match self {
            FsTree::Regular => true,
            _ => false,
        }
    }

    /// Whether `self` is a directory.
    pub fn is_dir(&self) -> (r: bool)
        ensures
            r == (self@ is Directory),
    {
        match self {
            FsTree::Directory(_) => true,
            _ => false,
        }
    }

    /// Whether `self` is a symlink.
    pub fn is_symlink(&self) -> (r: bool)
        ensures
            r == (self@ is Symlink),
    {
        match self {
            FsTree::Symlink(_) => true,
            _ => false,
        }
    }
}

impl Clone for FsTree {
    fn clone(&self) -> (r: Self)
        ensures
            r@ == self@,
    {
        self.deep_copy()
    }
}

impl Clone for TrieMap {
    fn clone(&self) -> (r: Self)
        ensures
            r@ == self@,
    {
        self.deep_copy()
    }
}

} // verus!
