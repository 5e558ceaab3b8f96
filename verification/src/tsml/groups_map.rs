//! `GroupsMap`: the trees of each group, by group name, in name order.
use vstd::prelude::*;

use crate::file_tree::FileTree;
use crate::text::{chars_lt, chars_of, compare_chars, lemma_chars_lt_transitive, Cmp};
use crate::tsml::model::{
    inherit_root, inherit_roots, lemma_node_list_view, lemma_node_list_view_ext, node_list_view,
    node_view, Node,
};
use crate::tsml::tags::Tags;
use crate::tsml::model::with_parent_trees;

verus! {

/// Whether the keys of `ps` are in strictly ascending order.
pub open spec fn keys_sorted<V>(ps: Seq<(Seq<char>, V)>) -> bool {
    forall|i: int, j: int| 0 <= i < j < ps.len() ==> chars_lt(#[trigger] ps[i].0, #[trigger] ps[j].0)
}

/// The number of keys of `ps` that come before `k`, when the keys are sorted.
pub open spec fn key_lower_bound<V>(ps: Seq<(Seq<char>, V)>, k: Seq<char>) -> int
    decreases ps.len(),
{
    if ps.len() == 0 {
        0
    } else if chars_lt(ps.last().0, k) {
        ps.len() as int
    } else {
        key_lower_bound(ps.drop_last(), k)
    }
}

pub proof fn lemma_key_lower_bound<V>(ps: Seq<(Seq<char>, V)>, k: Seq<char>)
    requires
        keys_sorted(ps),
    ensures
        0 <= key_lower_bound(ps, k) <= ps.len(),
        forall|j: int| 0 <= j < key_lower_bound(ps, k) ==> chars_lt(#[trigger] ps[j].0, k),
        forall|j: int| key_lower_bound(ps, k) <= j < ps.len() ==> !chars_lt(#[trigger] ps[j].0, k),
    decreases ps.len(),
{
    if ps.len() > 0 {
        let n = ps.len() - 1;
        if chars_lt(ps.last().0, k) {
            assert forall|j: int| 0 <= j < ps.len() implies chars_lt(#[trigger] ps[j].0, k) by {
                if j < n {
                    assert(chars_lt(ps[j].0, ps[n].0));
                    lemma_chars_lt_transitive(ps[j].0, ps[n].0, k);
                }
            }
        } else {
            let d = ps.drop_last();
            assert(keys_sorted(d)) by {
                assert forall|i: int, j: int| 0 <= i < j < d.len() implies chars_lt(
                    #[trigger] d[i].0,
                    #[trigger] d[j].0,
                ) by {
                    assert(d[i] == ps[i] && d[j] == ps[j]);
                }
            }
            lemma_key_lower_bound(d, k);
            assert forall|j: int| 0 <= j < key_lower_bound(ps, k) implies chars_lt(
                #[trigger] ps[j].0,
                k,
            ) by {
                assert(d[j] == ps[j]);
            }
            assert forall|j: int| key_lower_bound(ps, k) <= j < ps.len() implies !chars_lt(
                #[trigger] ps[j].0,
                k,
            ) by {
                if j < n {
                    assert(d[j] == ps[j]);
                }
            }
        }
    }
}

/// The groups `ps` once the trees `files` have been filed under `g`: a new group keeps
/// them in order; an existing group gets them appended last first.
pub open spec fn merge_group(ps: Seq<(Seq<char>, Seq<Node>)>, g: Seq<char>, files: Seq<Node>) -> Seq<
    (Seq<char>, Seq<Node>),
> {
    let p = key_lower_bound(ps, g);
    if p < ps.len() && ps[p].0 == g {
        ps.update(p, (g, ps[p].1 + files.reverse()))
    } else {
        ps.insert(p, (g, files))
    }
}

/// The groups `ps` with the group `g` holding exactly `files`: replaced if present, else
/// added in name order.
pub open spec fn set_group(ps: Seq<(Seq<char>, Seq<Node>)>, g: Seq<char>, files: Seq<Node>) -> Seq<
    (Seq<char>, Seq<Node>),
> {
    let p = key_lower_bound(ps, g);
    if p < ps.len() && ps[p].0 == g {
        ps.update(p, (g, files))
    } else {
        ps.insert(p, (g, files))
    }
}

pub proof fn lemma_set_group_sorted(ps: Seq<(Seq<char>, Seq<Node>)>, g: Seq<char>, files: Seq<
    Node,
>)
    requires
        keys_sorted(ps),
    ensures
        keys_sorted(set_group(ps, g, files)),
{
    lemma_merge_group_sorted(ps, g, files);
    let p = key_lower_bound(ps, g);
    let r = set_group(ps, g, files);
    let m = merge_group(ps, g, files);
    lemma_key_lower_bound(ps, g);
    assert(r.len() == m.len());
    assert forall|i: int, j: int| 0 <= i < j < r.len() implies chars_lt(
        #[trigger] r[i].0,
        #[trigger] r[j].0,
    ) by {
        if p < ps.len() && ps[p].0 == g {
            assert(r[i].0 == m[i].0 && r[j].0 == m[j].0);
        } else {
            assert(r[i].0 == m[i].0 && r[j].0 == m[j].0);
        }
    }
}

pub proof fn lemma_merge_group_sorted(ps: Seq<(Seq<char>, Seq<Node>)>, g: Seq<char>, files: Seq<
    Node,
>)
    requires
        keys_sorted(ps),
    ensures
        keys_sorted(merge_group(ps, g, files)),
{
    lemma_key_lower_bound(ps, g);
    let p = key_lower_bound(ps, g);
    let r = merge_group(ps, g, files);
    if p < ps.len() && ps[p].0 == g {
        assert forall|i: int, j: int| 0 <= i < j < r.len() implies chars_lt(
            #[trigger] r[i].0,
            #[trigger] r[j].0,
        ) by {
            assert(r[i].0 == ps[i].0 && r[j].0 == ps[j].0);
        }
    } else {
        if p < ps.len() {
            crate::text::lemma_chars_lt_trichotomy(ps[p].0, g);
        }
        assert forall|i: int, j: int| 0 <= i < j < r.len() implies chars_lt(
            #[trigger] r[i].0,
            #[trigger] r[j].0,
        ) by {
            if j < p {
                assert(r[i] == ps[i] && r[j] == ps[j]);
            } else if j == p {
                assert(r[i] == ps[i]);
            } else if i == p {
                assert(r[j] == ps[j - 1]);
                if j - 1 > p {
                    assert(chars_lt(ps[p].0, ps[j - 1].0));
                    lemma_chars_lt_transitive(g, ps[p].0, ps[j - 1].0);
                }
            } else if i < p {
                assert(r[i] == ps[i] && r[j] == ps[j - 1]);
                if j - 1 > p {
                    assert(chars_lt(ps[p].0, ps[j - 1].0));
                    lemma_chars_lt_transitive(g, ps[p].0, ps[j - 1].0);
                }
                lemma_chars_lt_transitive(ps[i].0, g, ps[j - 1].0);
            } else {
                assert(r[i] == ps[i - 1] && r[j] == ps[j - 1]);
            }
        }
    }
}

/// The model of the entries of a `GroupsMap`.
pub open spec fn entries_view(es: Seq<(String, Vec<FileTree<Tags>>)>) -> Seq<
    (Seq<char>, Seq<Node>),
> {
    Seq::new(es.len(), |i: int| (es[i].0@, node_list_view(es[i].1@)))
}

/// The group names and trees of the entries of a `GroupsMap`.
pub open spec fn entries_trees(es: Seq<(String, Vec<FileTree<Tags>>)>) -> Seq<
    (Seq<char>, Seq<FileTree<Tags>>),
> {
    Seq::new(es.len(), |i: int| (es[i].0@, es[i].1@))
}

/// The trees of each group, by group name, in name order.
#[derive(Debug, Clone)]
pub struct GroupsMap {
    entries: Vec<(String, Vec<FileTree<Tags>>)>,
}

impl GroupsMap {
    /// The groups in name order, each with its trees.
    pub closed spec fn pairs(self) -> Seq<(Seq<char>, Seq<Node>)> {
        entries_view(self.entries@)
    }

    /// The groups in name order, each with its trees as they are held.
    pub closed spec fn trees(self) -> Seq<(Seq<char>, Seq<FileTree<Tags>>)> {
        entries_trees(self.entries@)
    }

    /// Whether the group names are in strictly ascending order.
    pub open spec fn wf(self) -> bool {
        keys_sorted(self.pairs())
    }

    /// Whether the group names are in strictly ascending order (`wf`).
    pub fn is_sorted(&self) -> (r: bool)
        ensures
            r == self.wf(),
    {
        let mut i: usize = 1;
        if self.entries.len() < 2 {
            assert forall|a: int, b: int| 0 <= a < b < self.pairs().len() implies chars_lt(
                #[trigger] self.pairs()[a].0,
                #[trigger] self.pairs()[b].0,
            ) by {}
            return true;
        }
        while i < self.entries.len()
            invariant
                1 <= i <= self.entries@.len(),
                self.pairs().len() == self.entries@.len(),
                forall|a: int, b: int|
                    0 <= a < b < i ==> chars_lt(#[trigger] self.pairs()[a].0, #[trigger] self.pairs()[b].0),
            decreases self.entries@.len() - i,
        {
            let prev = chars_of(self.entries[i - 1].0.as_str());
            let cur = chars_of(self.entries[i].0.as_str());
            assert(self.pairs()[i - 1].0 == prev@);
            assert(self.pairs()[i as int].0 == cur@);
            if compare_chars(prev.as_slice(), cur.as_slice()) != Cmp::Less {
                return false;
            }
            assert forall|a: int, b: int| 0 <= a < b < i + 1 implies chars_lt(
                #[trigger] self.pairs()[a].0,
                #[trigger] self.pairs()[b].0,
            ) by {
                if b == i && a < i - 1 {
                    lemma_chars_lt_transitive(self.pairs()[a].0, self.pairs()[i - 1].0, self.pairs()[b].0);
                }
            }
            i += 1;
        }
        true
    }

    /// No groups.
    pub fn new() -> (r: GroupsMap)
        ensures
            r.wf(),
            r.pairs() == Seq::<(Seq<char>, Seq<Node>)>::empty(),
    {
        let r = GroupsMap { entries: Vec::new() };
        assert(r.pairs() =~= Seq::<(Seq<char>, Seq<Node>)>::empty());
        r
    }

    /// The number of groups.
    pub fn len(&self) -> (r: usize)
        ensures
            r == self.pairs().len(),
    {
        self.entries.len()
    }

    /// Whether there is no group.
    pub fn is_empty(&self) -> (r: bool)
        ensures
            r == (self.pairs().len() == 0),
    {
        self.entries.len() == 0
    }

    /// The groups in name order, each with its trees.
    pub fn as_slice(&self) -> (r: &[(String, Vec<FileTree<Tags>>)])
        ensures
            entries_view(r@) == self.pairs(),
            entries_trees(r@) == self.trees(),
    {
        self.entries.as_slice()
    }

    /// Where the group `key` is or would be.
    fn position(&self, key: &[char]) -> (r: (usize, bool))
        requires
            self.wf(),
        ensures
            r.0 == key_lower_bound(self.pairs(), key@),
            r.1 == (r.0 < self.pairs().len() && self.pairs()[r.0 as int].0 == key@),
    {
        proof {
            lemma_key_lower_bound(self.pairs(), key@);
        }
        let mut i: usize = 0;
        while i < self.entries.len() && compare_chars(
            chars_of(self.entries[i].0.as_str()).as_slice(),
            key,
        ) == Cmp::Less
            invariant
                i <= self.entries@.len(),
                self.pairs().len() == self.entries@.len(),
                keys_sorted(self.pairs()),
                forall|j: int| 0 <= j < i ==> chars_lt(#[trigger] self.pairs()[j].0, key@),
            decreases self.entries@.len() - i,
        {
            assert(self.pairs()[i as int].0 == self.entries@[i as int].0@);
            i += 1;
        }
        proof {
            let lb = key_lower_bound(self.pairs(), key@);
            if i < self.entries@.len() {
                assert(self.pairs()[i as int].0 == self.entries@[i as int].0@);
            }
            if i < lb {
                assert(chars_lt(self.pairs()[i as int].0, key@));
            }
            if i > lb {
                assert(!chars_lt(self.pairs()[lb].0, key@));
            }
        }
        if i < self.entries.len() {
            let found = compare_chars(chars_of(self.entries[i].0.as_str()).as_slice(), key)
                == Cmp::Equal;
            assert(self.pairs()[i as int].0 == self.entries@[i as int].0@);
            (i, found)
        } else {
            (i, false)
        }
    }

    /// The trees of the group `key`, if there is such a group.
    pub fn get(&self, key: &str) -> (r: Option<&Vec<FileTree<Tags>>>)
        requires
            self.wf(),
        ensures
            match r {
                Some(v) => {
                    let p = key_lower_bound(self.pairs(), key@);
                    &&& p < self.pairs().len()
                    &&& self.pairs()[p].0 == key@
                    &&& node_list_view(v@) == self.pairs()[p].1
                },
                None => forall|i: int|
                    0 <= i < self.pairs().len() ==> #[trigger] self.pairs()[i].0 != key@,
            },
    {
        let k = chars_of(key);
        let (i, found) = self.position(k.as_slice());
        proof {
            lemma_key_lower_bound(self.pairs(), key@);
            crate::text::lemma_chars_lt_irreflexive(key@);
        }
        if found {
            Some(&self.entries[i].1)
        } else {
            proof {
                assert forall|j: int| 0 <= j < self.pairs().len() implies #[trigger] self.pairs()[j].0
                    != key@ by {
                    if j > i && self.pairs()[j].0 == key@ {
                        assert(chars_lt(self.pairs()[i as int].0, self.pairs()[j].0));
                        crate::text::lemma_chars_lt_trichotomy(self.pairs()[i as int].0, key@);
                    }
                }
            }
            None
        }
    }

    /// Files the trees `files` under `group`: a new group keeps them in order; an existing
    /// group gets them appended last first.
    pub fn merge_files(&mut self, group: String, files: Vec<FileTree<Tags>>)
        requires
            old(self).wf(),
        ensures
            final(self).wf(),
            final(self).pairs() == merge_group(old(self).pairs(), group@, node_list_view(files@)),
    {
        let ghost ps = self.pairs();
        let ghost fv = node_list_view(files@);
        let k = chars_of(group.as_str());
        let (i, found) = self.position(k.as_slice());
        proof {
            lemma_merge_group_sorted(ps, group@, fv);
            lemma_key_lower_bound(ps, group@);
            lemma_node_list_view(files@);
        }
        if found {
            let (name, mut trees) = self.entries.remove(i);
            let ghost tv = trees@;
            proof {
                assert(node_list_view(tv) == ps[i as int].1);
                lemma_node_list_view(tv);
            }
            let mut rest = files;
            while rest.len() > 0
                invariant
                    rest@.len() <= files@.len(),
                    forall|j: int| 0 <= j < rest@.len() ==> #[trigger] rest@[j] == files@[j],
                    trees@.len() == tv.len() + files@.len() - rest@.len(),
                    forall|j: int| 0 <= j < tv.len() ==> #[trigger] trees@[j] == tv[j],
                    forall|j: int|
                        tv.len() <= j < trees@.len() ==> #[trigger] trees@[j] == files@[files@.len()
                            - 1 - (j - tv.len())],
                decreases rest@.len(),
            {
                let t = rest.pop().unwrap();
                trees.push(t);
            }
            proof {
                lemma_node_list_view_ext(trees@, ps[i as int].1 + fv.reverse());
            }
            self.entries.insert(i, (name, trees));
            assert(self.pairs() =~= merge_group(ps, group@, fv));
        } else {
            let ghost gv = group@;
            let ghost old_entries = self.entries@;
            assert(ps.len() == old_entries.len());
            assert(i <= self.entries@.len());
            self.entries.insert(i, (group, files));
            assert(self.entries@ == old_entries.insert(i as int, (group, files)));
            assert(self.pairs() =~= ps.insert(i as int, (gv, fv)));
        }
    }

    /// Makes the group `group` hold exactly `files`, replacing what it held.
    pub fn set_files(&mut self, group: String, files: Vec<FileTree<Tags>>)
        requires
            old(self).wf(),
        ensures
            final(self).wf(),
            final(self).pairs() == set_group(old(self).pairs(), group@, node_list_view(files@)),
    {
        let ghost ps = self.pairs();
        let ghost fv = node_list_view(files@);
        let ghost gv = group@;
        let k = chars_of(group.as_str());
        let (i, found) = self.position(k.as_slice());
        proof {
            lemma_set_group_sorted(ps, group@, fv);
            lemma_key_lower_bound(ps, group@);
        }
        let ghost old_entries = self.entries@;
        assert(ps.len() == old_entries.len());
        if found {
            let _ = self.entries.remove(i);
            self.entries.insert(i, (group, files));
            assert(self.entries@ == old_entries.update(i as int, (group, files)));
            assert(self.pairs() =~= ps.update(i as int, (gv, fv)));
        } else {
            self.entries.insert(i, (group, files));
            assert(self.entries@ == old_entries.insert(i as int, (group, files)));
            assert(self.pairs() =~= ps.insert(i as int, (gv, fv)));
        }
    }

    /// Passes the tags of every top-level tree down to the trees under it (`inherit_root`).
    pub fn inherit_all(self) -> (r: GroupsMap)
        requires
            self.wf(),
        ensures
            r.wf(),
            r.pairs().len() == self.pairs().len(),
            forall|i: int|
                0 <= i < r.pairs().len() ==> #[trigger] r.pairs()[i] == (
                    self.pairs()[i].0,
                    inherit_roots(self.pairs()[i].1),
                ),
    {
        let ghost ps = self.pairs();
        let ghost orig = self.entries@;
        let mut rest = self.entries;
        let mut backwards: Vec<(String, Vec<FileTree<Tags>>)> = Vec::new();
        while rest.len() > 0
            invariant
                rest@.len() + backwards@.len() == orig.len(),
                forall|i: int| 0 <= i < rest@.len() ==> #[trigger] rest@[i] == orig[i],
                forall|i: int|
                    0 <= i < backwards@.len() ==> #[trigger] backwards@[i] == orig[orig.len() - 1
                        - i],
            decreases rest@.len(),
        {
            let e = rest.pop().unwrap();
            backwards.push(e);
        }
        let mut out: Vec<(String, Vec<FileTree<Tags>>)> = Vec::new();
        while backwards.len() > 0
            invariant
                out@.len() + backwards@.len() == orig.len(),
                ps == entries_view(orig),
                forall|i: int|
                    0 <= i < backwards@.len() ==> #[trigger] backwards@[i] == orig[orig.len() - 1
                        - i],
                forall|i: int|
                    0 <= i < out@.len() ==> #[trigger] entries_view(out@)[i] == (
                        ps[i].0,
                        inherit_roots(ps[i].1),
                    ),
            decreases backwards@.len(),
        {
            let ghost k = out@.len() as int;
            let (name, trees) = backwards.pop().unwrap();
            let ghost tv = trees@;
            assert(ps[k] == (name@, node_list_view(tv)));
            let mut rest_trees = trees;
            let mut back_trees: Vec<FileTree<Tags>> = Vec::new();
            while rest_trees.len() > 0
                invariant
                    rest_trees@.len() + back_trees@.len() == tv.len(),
                    forall|i: int| 0 <= i < rest_trees@.len() ==> #[trigger] rest_trees@[i] == tv[i],
                    forall|i: int|
                        0 <= i < back_trees@.len() ==> #[trigger] back_trees@[i] == tv[tv.len() - 1
                            - i],
                decreases rest_trees@.len(),
            {
                let t = rest_trees.pop().unwrap();
                back_trees.push(t);
            }
            let mut done: Vec<FileTree<Tags>> = Vec::new();
            proof {
                lemma_node_list_view(tv);
            }
            while back_trees.len() > 0
                invariant
                    done@.len() + back_trees@.len() == tv.len(),
                    forall|i: int|
                        0 <= i < back_trees@.len() ==> #[trigger] back_trees@[i] == tv[tv.len() - 1
                            - i],
                    forall|i: int|
                        0 <= i < done@.len() ==> node_view(#[trigger] done@[i]) == inherit_root(
                            node_view(tv[i]),
                        ),
                decreases back_trees@.len(),
            {
                let t = back_trees.pop().unwrap();
                let u = inherit_root_tree(t);
                done.push(u);
            }
            proof {
                lemma_node_list_view_ext(done@, inherit_roots(node_list_view(tv)));
            }
            let ghost before = entries_view(out@);
            out.push((name, done));
            assert(entries_view(out@) =~= before.push((ps[k].0, inherit_roots(ps[k].1))));
        }
        let r = GroupsMap { entries: out };
        assert forall|i: int, j: int| 0 <= i < j < r.pairs().len() implies chars_lt(
            #[trigger] r.pairs()[i].0,
            #[trigger] r.pairs()[j].0,
        ) by {
            assert(r.pairs()[i].0 == ps[i].0 && r.pairs()[j].0 == ps[j].0);
        }
        r
    }
}

/// `t` once the tags of its root have been passed down to everything under it.
pub fn inherit_root_tree(t: FileTree<Tags>) -> (r: FileTree<Tags>)
    ensures
        node_view(r) == inherit_root(node_view(t)),
{
    match t {
        FileTree::Directory { path, extra, children } => {
            let children = with_parent_trees(children, &extra);
            FileTree::Directory { path, extra, children }
        },
        other => other,
    }
}

} // verus!
