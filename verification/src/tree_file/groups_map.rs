//! `FileGroupsMap`: the trees of each group of a tree file, by group name, in name order.
use vstd::prelude::*;

use crate::file_structure::File;
use crate::text::{chars_lt, chars_of, compare_chars, lemma_chars_lt_transitive, Cmp};
use crate::tree_file::flags::Flags;
use crate::tree_file::model::{
    file_list_view, file_view, lemma_file_list_view, lemma_file_list_view_ext, pass_down_root,
    pass_down_root_file, pass_down_roots, FNode,
};
use crate::tsml::groups_map::{key_lower_bound, keys_sorted, lemma_key_lower_bound};

verus! {

/// The groups `ps` once the trees `files` have been filed under `g`: an existing group gets
/// them appended in order, a new group is added in name order.
pub open spec fn append_group(ps: Seq<(Seq<char>, Seq<FNode>)>, g: Seq<char>, files: Seq<FNode>) -> Seq<
    (Seq<char>, Seq<FNode>),
> {
    let p = key_lower_bound(ps, g);
    if p < ps.len() && ps[p].0 == g {
        ps.update(p, (g, ps[p].1 + files))
    } else {
        ps.insert(p, (g, files))
    }
}

pub proof fn lemma_append_group_sorted(ps: Seq<(Seq<char>, Seq<FNode>)>, g: Seq<char>, files: Seq<
    FNode,
>)
    requires
        keys_sorted(ps),
    ensures
        keys_sorted(append_group(ps, g, files)),
{
    lemma_key_lower_bound(ps, g);
    let p = key_lower_bound(ps, g);
    let r = append_group(ps, g, files);
    if p < ps.len() && ps[p].0 == g {
        assert forall|i: int, j: int| 0 <= i < j < r.len() implies chars_lt(
            #[trigger] r[i].0,
            #[trigger] r[j].0,
        ) by {
            assert(r[i].0 == ps[i].0 && r[j].0 == ps[j].0);
        }
    } else {
        if p < ps.len() {
            crate::text::lemma_chars_lt_trichotomy(ps[p].0, g);
        }
        assert forall|i: int, j: int| 0 <= i < j < r.len() implies chars_lt(
            #[trigger] r[i].0,
            #[trigger] r[j].0,
        ) by {
            if j < p {
                assert(r[i] == ps[i] && r[j] == ps[j]);
            } else if j == p {
                assert(r[i] == ps[i]);
            } else if i == p {
                assert(r[j] == ps[j - 1]);
                if j - 1 > p {
                    assert(chars_lt(ps[p].0, ps[j - 1].0));
                    lemma_chars_lt_transitive(g, ps[p].0, ps[j - 1].0);
                }
            } else if i < p {
                assert(r[i] == ps[i] && r[j] == ps[j - 1]);
                if j - 1 > p {
                    assert(chars_lt(ps[p].0, ps[j - 1].0));
                    lemma_chars_lt_transitive(g, ps[p].0, ps[j - 1].0);
                }
                lemma_chars_lt_transitive(ps[i].0, g, ps[j - 1].0);
            } else {
                assert(r[i] == ps[i - 1] && r[j] == ps[j - 1]);
            }
        }
    }
}

/// The model of the entries of a `FileGroupsMap`.
pub open spec fn file_entries_view(es: Seq<(String, Vec<File<Flags>>)>) -> Seq<
    (Seq<char>, Seq<FNode>),
> {
    Seq::new(es.len(), |i: int| (es[i].0@, file_list_view(es[i].1@)))
}

/// The trees of each group of a tree file, by group name, in name order.
#[derive(Debug)]
pub struct FileGroupsMap {
    entries: Vec<(String, Vec<File<Flags>>)>,
}

impl FileGroupsMap {
    /// The groups in name order, each with its trees.
    pub closed spec fn pairs(self) -> Seq<(Seq<char>, Seq<FNode>)> {
        file_entries_view(self.entries@)
    }

    /// Whether the group names are in strictly ascending order.
    pub open spec fn wf(self) -> bool {
        keys_sorted(self.pairs())
    }

    /// No groups.
    pub fn new() -> (r: FileGroupsMap)
        ensures
            r.wf(),
            r.pairs().len() == 0,
    {
        FileGroupsMap { entries: Vec::new() }
    }

    /// The number of groups.
    pub fn len(&self) -> (r: usize)
        ensures
            r == self.pairs().len(),
    {
        self.entries.len()
    }

    /// Whether there are no groups.
    pub fn is_empty(&self) -> (r: bool)
        ensures
            r == (self.pairs().len() == 0),
    {
        self.entries.len() == 0
    }

    /// The groups in name order, each with its trees.
    pub fn as_slice(&self) -> (r: &[(String, Vec<File<Flags>>)])
        ensures
            file_entries_view(r@) == self.pairs(),
    {
        self.entries.as_slice()
    }

    /// Where the group `key` is or would be.
    fn position(&self, key: &[char]) -> (r: (usize, bool))
        requires
            self.wf(),
        ensures
            r.0 == key_lower_bound(self.pairs(), key@),
            r.1 == (r.0 < self.pairs().len() && self.pairs()[r.0 as int].0 == key@),
    {
        proof {
            lemma_key_lower_bound(self.pairs(), key@);
        }
        let mut i: usize = 0;
        while i < self.entries.len() && compare_chars(
            chars_of(self.entries[i].0.as_str()).as_slice(),
            key,
        ) == Cmp::Less
            invariant
                i <= self.entries@.len(),
                self.pairs().len() == self.entries@.len(),
                keys_sorted(self.pairs()),
                forall|j: int| 0 <= j < i ==> chars_lt(#[trigger] self.pairs()[j].0, key@),
            decreases self.entries@.len() - i,
        {
            assert(self.pairs()[i as int].0 == self.entries@[i as int].0@);
            i += 1;
        }
        proof {
            let lb = key_lower_bound(self.pairs(), key@);
            if i < self.entries@.len() {
                assert(self.pairs()[i as int].0 == self.entries@[i as int].0@);
            }
            if i < lb {
                assert(chars_lt(self.pairs()[i as int].0, key@));
            }
            if i > lb {
                assert(!chars_lt(self.pairs()[lb].0, key@));
            }
        }
        if i < self.entries.len() {
            let found = compare_chars(chars_of(self.entries[i].0.as_str()).as_slice(), key)
                == Cmp::Equal;
            assert(self.pairs()[i as int].0 == self.entries@[i as int].0@);
            (i, found)
        } else {
            (i, false)
        }
    }

    /// The trees of the group `key`, if there is such a group.
    pub fn get(&self, key: &str) -> (r: Option<&Vec<File<Flags>>>)
        requires
            self.wf(),
        ensures
            match r {
                Some(v) => {
                    let p = key_lower_bound(self.pairs(), key@);
                    &&& p < self.pairs().len()
                    &&& self.pairs()[p].0 == key@
                    &&& file_list_view(v@) == self.pairs()[p].1
                },
                None => forall|i: int|
                    0 <= i < self.pairs().len() ==> #[trigger] self.pairs()[i].0 != key@,
            },
    {
        let k = chars_of(key);
        let (i, found) = self.position(k.as_slice());
        proof {
            lemma_key_lower_bound(self.pairs(), key@);
            crate::text::lemma_chars_lt_irreflexive(key@);
        }
        if found {
            Some(&self.entries[i].1)
        } else {
            proof {
                assert forall|j: int| 0 <= j < self.pairs().len() implies #[trigger] self.pairs()[j].0
                    != key@ by {
                    if j > i && self.pairs()[j].0 == key@ {
                        assert(chars_lt(self.pairs()[i as int].0, self.pairs()[j].0));
                        crate::text::lemma_chars_lt_trichotomy(self.pairs()[i as int].0, key@);
                    }
                }
            }
            None
        }
    }

    /// Files the trees `files` under `group`: an existing group gets them appended in
    /// order.
    pub fn append_files(&mut self, group: String, files: Vec<File<Flags>>)
        requires
            old(self).wf(),
        ensures
            final(self).wf(),
            final(self).pairs() == append_group(old(self).pairs(), group@, file_list_view(files@)),
    {
        let ghost ps = self.pairs();
        let ghost fv = file_list_view(files@);
        let ghost gv = group@;
        let k = chars_of(group.as_str());
        let (i, found) = self.position(k.as_slice());
        proof {
            lemma_append_group_sorted(ps, group@, fv);
            lemma_key_lower_bound(ps, group@);
            lemma_file_list_view(files@);
        }
        let ghost old_entries = self.entries@;
        assert(ps.len() == old_entries.len());
        if found {
            let (name, mut trees) = self.entries.remove(i);
            let ghost tv = trees@;
            proof {
                assert(file_list_view(tv) == ps[i as int].1);
                lemma_file_list_view(tv);
            }
            let mut more = files;
            trees.append(&mut more);
            proof {
                lemma_file_list_view_ext(trees@, ps[i as int].1 + fv);
            }
            self.entries.insert(i, (name, trees));
            assert(self.pairs() =~= append_group(ps, gv, fv));
        } else {
            self.entries.insert(i, (group, files));
            assert(self.entries@ == old_entries.insert(i as int, (group, files)));
            assert(self.pairs() =~= ps.insert(i as int, (gv, fv)));
        }
    }

    /// Passes the flags of every top-level tree down to the trees under it
    /// (`pass_down_root`).
    pub fn pass_down_all(self) -> (r: FileGroupsMap)
        requires
            self.wf(),
        ensures
            r.wf(),
            r.pairs().len() == self.pairs().len(),
            forall|i: int|
                0 <= i < r.pairs().len() ==> #[trigger] r.pairs()[i] == (
                    self.pairs()[i].0,
                    pass_down_roots(self.pairs()[i].1),
                ),
    {
        let ghost ps = self.pairs();
        let ghost orig = self.entries@;
        let mut rest = self.entries;
        let mut backwards: Vec<(String, Vec<File<Flags>>)> = Vec::new();
        while rest.len() > 0
            invariant
                rest@.len() + backwards@.len() == orig.len(),
                forall|i: int| 0 <= i < rest@.len() ==> #[trigger] rest@[i] == orig[i],
                forall|i: int|
                    0 <= i < backwards@.len() ==> #[trigger] backwards@[i] == orig[orig.len() - 1
                        - i],
            decreases rest@.len(),
        {
            let e = rest.pop().unwrap();
            backwards.push(e);
        }
        let mut out: Vec<(String, Vec<File<Flags>>)> = Vec::new();
        while backwards.len() > 0
            invariant
                out@.len() + backwards@.len() == orig.len(),
                ps == file_entries_view(orig),
                forall|i: int|
                    0 <= i < backwards@.len() ==> #[trigger] backwards@[i] == orig[orig.len() - 1
                        - i],
                forall|i: int|
                    0 <= i < out@.len() ==> #[trigger] file_entries_view(out@)[i] == (
                        ps[i].0,
                        pass_down_roots(ps[i].1),
                    ),
            decreases backwards@.len(),
        {
            let ghost k = out@.len() as int;
            let (name, trees) = backwards.pop().unwrap();
            let ghost tv = trees@;
            assert(ps[k] == (name@, file_list_view(tv)));
            let mut rest_trees = trees;
            let mut back_trees: Vec<File<Flags>> = Vec::new();
            while rest_trees.len() > 0
                invariant
                    rest_trees@.len() + back_trees@.len() == tv.len(),
                    forall|i: int| 0 <= i < rest_trees@.len() ==> #[trigger] rest_trees@[i] == tv[i],
                    forall|i: int|
                        0 <= i < back_trees@.len() ==> #[trigger] back_trees@[i] == tv[tv.len() - 1
                            - i],
                decreases rest_trees@.len(),
            {
                let t = rest_trees.pop().unwrap();
                back_trees.push(t);
            }
            let mut done: Vec<File<Flags>> = Vec::new();
            proof {
                lemma_file_list_view(tv);
            }
            while back_trees.len() > 0
                invariant
                    done@.len() + back_trees@.len() == tv.len(),
                    forall|i: int|
                        0 <= i < back_trees@.len() ==> #[trigger] back_trees@[i] == tv[tv.len() - 1
                            - i],
                    forall|i: int|
                        0 <= i < done@.len() ==> file_view(#[trigger] done@[i]) == pass_down_root(
                            file_view(tv[i]),
                        ),
                decreases back_trees@.len(),
            {
                let t = back_trees.pop().unwrap();
                let u = pass_down_root_file(t);
                done.push(u);
            }
            proof {
                lemma_file_list_view_ext(done@, pass_down_roots(file_list_view(tv)));
            }
            let ghost before = file_entries_view(out@);
            out.push((name, done));
            assert(file_entries_view(out@) =~= before.push((ps[k].0, pass_down_roots(ps[k].1))));
        }
        let r = FileGroupsMap { entries: out };
        assert forall|i: int, j: int| 0 <= i < j < r.pairs().len() implies chars_lt(
            #[trigger] r.pairs()[i].0,
            #[trigger] r.pairs()[j].0,
        ) by {
            assert(r.pairs()[i].0 == ps[i].0 && r.pairs()[j].0 == ps[j].0);
        }
        r
    }
}

} // verus!
