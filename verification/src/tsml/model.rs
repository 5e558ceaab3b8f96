//! The mathematical model of tsml trees: nodes with paths and tag sets, and how tags pass
//! from a node to the nodes under it.
use vstd::prelude::*;

use crate::file_tree::FileTree;
use crate::tsml::tags::Tags;

verus! {

/// The tag sets of a node.
pub struct TagSets {
    pub direct: Set<Seq<char>>,
    pub group: Set<Seq<char>>,
    pub ancestor: Set<Seq<char>>,
}

/// The model of a `Tags`.
pub open spec fn tag_sets(t: Tags) -> TagSets {
    TagSets {
        direct: t.direct_tags@.to_set(),
        group: t.group_tags@.to_set(),
        ancestor: t.ancestor_tags@.to_set(),
    }
}

/// The model of an optional `Tags`.
pub open spec fn opt_tag_sets(t: Option<Tags>) -> Option<TagSets> {
    match t {
        Some(x) => Some(tag_sets(x)),
        None => None,
    }
}

/// The model of a tsml tree node.
pub enum Node {
    Regular { path: Seq<Seq<char>>, tags: Option<TagSets> },
    Directory { path: Seq<Seq<char>>, tags: Option<TagSets>, children: Seq<Node> },
    Symlink { path: Seq<Seq<char>>, tags: Option<TagSets>, target: Seq<Seq<char>> },
}

impl Node {
    /// The tags of this node.
    pub open spec fn tags_of(self) -> Option<TagSets> {
        match self {
            Node::Regular { tags, .. } => tags,
            Node::Directory { tags, .. } => tags,
            Node::Symlink { tags, .. } => tags,
        }
    }

    /// The path of this node.
    pub open spec fn path_of(self) -> Seq<Seq<char>> {
        match self {
            Node::Regular { path, .. } => path,
            Node::Directory { path, .. } => path,
            Node::Symlink { path, .. } => path,
        }
    }

    /// This node turned into a directory holding `children`.
    pub open spec fn as_dir(self, children: Seq<Node>) -> Node {
        Node::Directory { path: self.path_of(), tags: self.tags_of(), children }
    }
}

/// The model of a tree.
pub open spec fn node_view(t: FileTree<Tags>) -> Node
    decreases t,
{
    match t {
        FileTree::Regular { path, extra } => Node::Regular { path: path@, tags: opt_tag_sets(extra) },
        FileTree::Directory { path, extra, children } => Node::Directory {
            path: path@,
            tags: opt_tag_sets(extra),
            children: node_list_view(children@),
        },
        FileTree::Symlink { path, extra, target_path } => Node::Symlink {
            path: path@,
            tags: opt_tag_sets(extra),
            target: target_path@,
        },
    }
}

/// The model of a sequence of trees.
pub open spec fn node_list_view(ts: Seq<FileTree<Tags>>) -> Seq<Node>
    decreases ts,
{
    if ts.len() == 0 {
        Seq::empty()
    } else {
        node_list_view(ts.drop_last()).push(node_view(ts.last()))
    }
}

pub proof fn lemma_node_list_view(ts: Seq<FileTree<Tags>>)
    ensures
        node_list_view(ts).len() == ts.len(),
        forall|i: int| 0 <= i < ts.len() ==> #[trigger] node_list_view(ts)[i] == node_view(ts[i]),
    decreases ts.len(),
{
    if ts.len() > 0 {
        lemma_node_list_view(ts.drop_last());
        assert forall|i: int| 0 <= i < ts.len() implies #[trigger] node_list_view(ts)[i]
            == node_view(ts[i]) by {
            if i < ts.len() - 1 {
                assert(ts.drop_last()[i] == ts[i]);
            }
        }
    }
}

pub proof fn lemma_node_list_view_ext(a: Seq<FileTree<Tags>>, b: Seq<Node>)
    requires
        a.len() == b.len(),
        forall|i: int| 0 <= i < a.len() ==> node_view(#[trigger] a[i]) == b[i],
    ensures
        node_list_view(a) == b,
{
    lemma_node_list_view(a);
    assert(node_list_view(a) =~= b);
}

/// The tags of a node once it has inherited from a parent with tags `p`.
pub open spec fn inherit_sets(c: Option<TagSets>, p: Option<TagSets>) -> Option<TagSets> {
    match (c, p) {
        (Some(c), Some(p)) => Some(
            TagSets {
                direct: c.direct,
                group: c.group.union(p.group),
                ancestor: c.ancestor.union(p.direct).union(p.ancestor),
            },
        ),
        _ => c,
    }
}

/// `n` once it and everything under it have inherited, top-down, from a parent with tags
/// `p`.
pub open spec fn with_parent(p: Option<TagSets>, n: Node) -> Node
    decreases n,
{
    let t = inherit_sets(n.tags_of(), p);
    match n {
        Node::Regular { path, .. } => Node::Regular { path, tags: t },
        Node::Directory { path, children, .. } => Node::Directory {
            path,
            tags: t,
            children: with_parent_list(t, children),
        },
        Node::Symlink { path, target, .. } => Node::Symlink { path, tags: t, target },
    }
}

/// Each of `ns`, with the parent tags `p`, as `with_parent`.
pub open spec fn with_parent_list(p: Option<TagSets>, ns: Seq<Node>) -> Seq<Node>
    decreases ns,
{
    if ns.len() == 0 {
        Seq::empty()
    } else {
        with_parent_list(p, ns.drop_last()).push(with_parent(p, ns.last()))
    }
}

pub proof fn lemma_with_parent_list(p: Option<TagSets>, ns: Seq<Node>)
    ensures
        with_parent_list(p, ns).len() == ns.len(),
        forall|i: int|
            0 <= i < ns.len() ==> #[trigger] with_parent_list(p, ns)[i] == with_parent(p, ns[i]),
    decreases ns.len(),
{
    if ns.len() > 0 {
        lemma_with_parent_list(p, ns.drop_last());
        assert forall|i: int| 0 <= i < ns.len() implies #[trigger] with_parent_list(p, ns)[i]
            == with_parent(p, ns[i]) by {
            if i < ns.len() - 1 {
                assert(ns.drop_last()[i] == ns[i]);
            }
        }
    }
}

/// A top-level node after the tags have been passed down: the node keeps its tags, and
/// everything under it inherits from it.
pub open spec fn inherit_root(n: Node) -> Node {
    match n {
        Node::Directory { path, tags, children } => Node::Directory {
            path,
            tags,
            children: with_parent_list(tags, children),
        },
        _ => n,
    }
}

/// Each of `ns`, as `inherit_root`.
pub open spec fn inherit_roots(ns: Seq<Node>) -> Seq<Node> {
    ns.map_values(|n: Node| inherit_root(n))
}

/// The tags `p` once `c` has inherited from them (`Tags::inherit_from`), when both are
/// present; otherwise `c` unchanged.
pub fn inherit_opt(c: Option<Tags>, p: &Option<Tags>) -> (r: Option<Tags>)
    ensures
        opt_tag_sets(r) == inherit_sets(opt_tag_sets(c), opt_tag_sets(*p)),
{
    match c {
        Some(mut t) => match p {
            Some(pt) => {
                let ghost before = t;
                t.inherit_from(pt);
                assert(t.direct_tags@.to_set() =~= before.direct_tags@.to_set());
                assert(t.group_tags@.to_set() =~= before.group_tags@.to_set().union(
                    pt.group_tags@.to_set(),
                ));
                assert(t.ancestor_tags@.to_set() =~= before.ancestor_tags@.to_set().union(
                    pt.direct_tags@.to_set(),
                ).union(pt.ancestor_tags@.to_set()));
                Some(t)
            },
            None => Some(t),
        },
        None => None,
    }
}

/// `t` once it and everything under it have inherited from a parent with tags `p`.
pub fn with_parent_tree(t: FileTree<Tags>, p: &Option<Tags>) -> (r: FileTree<Tags>)
    ensures
        node_view(r) == with_parent(opt_tag_sets(*p), node_view(t)),
    decreases t,
{
    match t {
        FileTree::Regular { path, extra } => {
            let extra = inherit_opt(extra, p);
            FileTree::Regular { path, extra }
        },
        FileTree::Directory { path, extra, children } => {
            let extra = inherit_opt(extra, p);
            proof {
                assert(decreases_to!(t => children));
            }
            let children = with_parent_trees(children, &extra);
            FileTree::Directory { path, extra, children }
        },
        FileTree::Symlink { path, extra, target_path } => {
            let extra = inherit_opt(extra, p);
            FileTree::Symlink { path, extra, target_path }
        },
    }
}

/// Each of `ts`, as `with_parent_tree`.
pub fn with_parent_trees(ts: Vec<FileTree<Tags>>, p: &Option<Tags>) -> (r: Vec<FileTree<Tags>>)
    ensures
        node_list_view(r@) == with_parent_list(opt_tag_sets(*p), node_list_view(ts@)),
    decreases ts,
{
    let ghost orig = ts@;
    let mut rest = ts;
    let mut backwards: Vec<FileTree<Tags>> = Vec::new();
    while rest.len() > 0
        invariant
            rest@.len() + backwards@.len() == orig.len(),
            forall|i: int| 0 <= i < rest@.len() ==> #[trigger] rest@[i] == orig[i],
            forall|i: int|
                0 <= i < backwards@.len() ==> #[trigger] backwards@[i] == orig[orig.len() - 1
                    - i],
        decreases rest@.len(),
    {
        let t = rest.pop().unwrap();
        backwards.push(t);
    }
    proof {
        lemma_node_list_view(orig);
        lemma_with_parent_list(opt_tag_sets(*p), node_list_view(orig));
    }
    let mut out: Vec<FileTree<Tags>> = Vec::new();
    while backwards.len() > 0
        invariant
            out@.len() + backwards@.len() == orig.len(),
            forall|i: int|
                0 <= i < backwards@.len() ==> #[trigger] backwards@[i] == orig[orig.len() - 1
                    - i],
            forall|i: int|
                0 <= i < out@.len() ==> node_view(#[trigger] out@[i]) == with_parent(
                    opt_tag_sets(*p),
                    node_view(orig[i]),
                ),
            decreases_to!(ts => ts@),
            ts@ == orig,
        decreases backwards@.len(),
    {
        let ghost k = out@.len() as int;
        let t = backwards.pop().unwrap();
        assert(t == orig[k]);
        proof {
            assert(decreases_to!(ts@ => ts@[k]));
        }
        let u = with_parent_tree(t, p);
        out.push(u);
    }
    proof {
        lemma_node_list_view_ext(
            out@,
            with_parent_list(opt_tag_sets(*p), node_list_view(orig)),
        );
    }
    out
}

} // verus!
