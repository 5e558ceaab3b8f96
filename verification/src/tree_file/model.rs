//! The mathematical model of tree file trees: nodes with paths and flag lists, and how the
//! flags of a node pass to the nodes under it.
use vstd::prelude::*;

use crate::file_structure::{File, FileType};
use crate::tree_file::flags::{Flag, FlagType, Flags};

verus! {

/// The model of a flag list: each flag's name and type, in order.
pub open spec fn flags_view(f: Flags) -> Seq<(Seq<char>, FlagType)> {
    Seq::new(f.inner@.len(), |i: int| (f.inner@[i].name@, f.inner@[i].flag_type))
}

/// The model of an optional flag list.
pub open spec fn opt_flags_view(f: Option<Flags>) -> Option<Seq<(Seq<char>, FlagType)>> {
    match f {
        Some(x) => Some(flags_view(x)),
        None => None,
    }
}

/// The model of a tree file node.
pub enum FNode {
    Regular { path: Seq<Seq<char>>, flags: Option<Seq<(Seq<char>, FlagType)>> },
    Directory {
        path: Seq<Seq<char>>,
        flags: Option<Seq<(Seq<char>, FlagType)>>,
        children: Seq<FNode>,
    },
    Symlink {
        path: Seq<Seq<char>>,
        flags: Option<Seq<(Seq<char>, FlagType)>>,
        target: Seq<Seq<char>>,
    },
}

impl FNode {
    /// The flags of this node.
    pub open spec fn flags_of(self) -> Option<Seq<(Seq<char>, FlagType)>> {
        match self {
            FNode::Regular { flags, .. } => flags,
            FNode::Directory { flags, .. } => flags,
            FNode::Symlink { flags, .. } => flags,
        }
    }

    /// The path of this node.
    pub open spec fn path_of(self) -> Seq<Seq<char>> {
        match self {
            FNode::Regular { path, .. } => path,
            FNode::Directory { path, .. } => path,
            FNode::Symlink { path, .. } => path,
        }
    }

    /// This node turned into a directory holding `children`.
    pub open spec fn as_dir(self, children: Seq<FNode>) -> FNode {
        FNode::Directory { path: self.path_of(), flags: self.flags_of(), children }
    }
}

/// The model of a tree.
pub open spec fn file_view(f: File<Flags>) -> FNode
    decreases f,
{
    match f.file_type {
        FileType::Regular => FNode::Regular { path: f.path@, flags: opt_flags_view(f.extra) },
        FileType::Directory(children) => FNode::Directory {
            path: f.path@,
            flags: opt_flags_view(f.extra),
            children: file_list_view(children@),
        },
        FileType::Symlink(target) => FNode::Symlink {
            path: f.path@,
            flags: opt_flags_view(f.extra),
            target: target@,
        },
    }
}

/// The model of a sequence of trees.
pub open spec fn file_list_view(fs: Seq<File<Flags>>) -> Seq<FNode>
    decreases fs,
{
    if fs.len() == 0 {
        Seq::empty()
    } else {
        file_list_view(fs.drop_last()).push(file_view(fs.last()))
    }
}

pub proof fn lemma_file_list_view(fs: Seq<File<Flags>>)
    ensures
        file_list_view(fs).len() == fs.len(),
        forall|i: int| 0 <= i < fs.len() ==> #[trigger] file_list_view(fs)[i] == file_view(fs[i]),
    decreases fs.len(),
{
    if fs.len() > 0 {
        lemma_file_list_view(fs.drop_last());
        assert forall|i: int| 0 <= i < fs.len() implies #[trigger] file_list_view(fs)[i]
            == file_view(fs[i]) by {
            if i < fs.len() - 1 {
                assert(fs.drop_last()[i] == fs[i]);
            }
        }
    }
}

pub proof fn lemma_file_list_view_ext(a: Seq<File<Flags>>, b: Seq<FNode>)
    requires
        a.len() == b.len(),
        forall|i: int| 0 <= i < a.len() ==> file_view(#[trigger] a[i]) == b[i],
    ensures
        file_list_view(a) == b,
{
    lemma_file_list_view(a);
    assert(file_list_view(a) =~= b);
}

/// The flags `p` of a parent as its children get them: a flag written on the parent
/// becomes one inherited from the parent; the others keep their type.
pub open spec fn from_parent(p: Seq<(Seq<char>, FlagType)>) -> Seq<(Seq<char>, FlagType)> {
    p.map_values(
        |f: (Seq<char>, FlagType)|
            if f.1 == FlagType::Direct {
                (f.0, FlagType::ParentInherited)
            } else {
                f
            },
    )
}

/// The flags of a node once it has inherited from a parent with flags `p`: the parent's
/// flags are added after its own; a node without a flag list gets one.
pub open spec fn pass_flags(
    c: Option<Seq<(Seq<char>, FlagType)>>,
    p: Option<Seq<(Seq<char>, FlagType)>>,
) -> Option<Seq<(Seq<char>, FlagType)>> {
    match p {
        Some(pf) => match c {
            Some(cf) => Some(cf + from_parent(pf)),
            None => Some(from_parent(pf)),
        },
        None => c,
    }
}

/// `n` once it and everything under it have inherited, top-down, from a parent with flags
/// `p`.
pub open spec fn pass_down(p: Option<Seq<(Seq<char>, FlagType)>>, n: FNode) -> FNode
    decreases n,
{
    let f = pass_flags(n.flags_of(), p);
    match n {
        FNode::Regular { path, .. } => FNode::Regular { path, flags: f },
        FNode::Directory { path, children, .. } => FNode::Directory {
            path,
            flags: f,
            children: pass_down_list(f, children),
        },
        FNode::Symlink { path, target, .. } => FNode::Symlink { path, flags: f, target },
    }
}

/// Each of `ns`, with the parent flags `p`, as `pass_down`.
pub open spec fn pass_down_list(p: Option<Seq<(Seq<char>, FlagType)>>, ns: Seq<FNode>) -> Seq<
    FNode,
>
    decreases ns,
{
    if ns.len() == 0 {
        Seq::empty()
    } else {
        pass_down_list(p, ns.drop_last()).push(pass_down(p, ns.last()))
    }
}

pub proof fn lemma_pass_down_list(p: Option<Seq<(Seq<char>, FlagType)>>, ns: Seq<FNode>)
    ensures
        pass_down_list(p, ns).len() == ns.len(),
        forall|i: int| 0 <= i < ns.len() ==> #[trigger] pass_down_list(p, ns)[i] == pass_down(p, ns[i]),
    decreases ns.len(),
{
    if ns.len() > 0 {
        lemma_pass_down_list(p, ns.drop_last());
        assert forall|i: int| 0 <= i < ns.len() implies #[trigger] pass_down_list(p, ns)[i]
            == pass_down(p, ns[i]) by {
            if i < ns.len() - 1 {
                assert(ns.drop_last()[i] == ns[i]);
            }
        }
    }
}

/// A top-level node after the flags have been passed down: it keeps its flags, and
/// everything under it inherits from it.
pub open spec fn pass_down_root(n: FNode) -> FNode {
    match n {
        FNode::Directory { path, flags, children } => FNode::Directory {
            path,
            flags,
            children: pass_down_list(flags, children),
        },
        _ => n,
    }
}

/// Each of `ns`, as `pass_down_root`.
pub open spec fn pass_down_roots(ns: Seq<FNode>) -> Seq<FNode> {
    ns.map_values(|n: FNode| pass_down_root(n))
}

/// A copy of the flag `f` as a child of its owner gets it.
fn flag_from_parent(f: &Flag) -> (r: Flag)
    ensures
        r.name@ == f.name@,
        r.flag_type == (if f.flag_type == FlagType::Direct {
            FlagType::ParentInherited
        } else {
            f.flag_type
        }),
{
    let flag_type = if f.flag_type == FlagType::Direct {
        FlagType::ParentInherited
    } else {
        f.flag_type
    };
    Flag { name: f.name.clone(), flag_type }
}

/// The flags `c` once they have inherited from the parent flags `p`.
pub fn pass_flags_exec(c: Option<Flags>, p: &Option<Flags>) -> (r: Option<Flags>)
    ensures
        opt_flags_view(r) == pass_flags(opt_flags_view(c), opt_flags_view(*p)),
{
    match p {
        None => c,
        Some(pf) => {
            let ghost cv = opt_flags_view(c);
            let mut out = match c {
                Some(cf) => cf.inner,
                None => Vec::new(),
            };
            let ghost start = out@;
            let ghost sv = Seq::new(start.len(), |k: int| (start[k].name@, start[k].flag_type));
            assert(cv matches Some(cf) ==> cf =~= sv);
            assert(cv is None ==> sv.len() == 0);
            let mut i: usize = 0;
            while i < pf.inner.len()
                invariant
                    i <= pf.inner@.len(),
                    out@.len() == start.len() + i,
                    forall|k: int| 0 <= k < start.len() ==> #[trigger] out@[k] == start[k],
                    forall|k: int|
                        0 <= k < i ==> (#[trigger] out@[start.len() + k]).name@
                            == pf.inner@[k].name@ && out@[start.len() + k].flag_type == (
                        if pf.inner@[k].flag_type == FlagType::Direct {
                            FlagType::ParentInherited
                        } else {
                            pf.inner@[k].flag_type
                        }),
                decreases pf.inner@.len() - i,
            {
                let f = flag_from_parent(&pf.inner[i]);
                out.push(f);
                i += 1;
            }
            let r = Flags { inner: out };
            proof {
                let want = match cv {
                    Some(cf) => cf + from_parent(flags_view(*pf)),
                    None => from_parent(flags_view(*pf)),
                };
                let pv = from_parent(flags_view(*pf));
                assert(want =~= sv + pv);
                assert forall|k: int| 0 <= k < flags_view(r).len() implies flags_view(r)[k] == (sv
                    + pv)[k] by {
                    if k < sv.len() {
                        assert(out@[k] == start[k]);
                    } else {
                        let j = k - sv.len();
                        assert(out@[start.len() + j] == out@[k]);
                    }
                }
                assert(flags_view(r) =~= want);
            }
            Some(r)
        },
    }
}

/// `t` once it and everything under it have inherited from a parent with flags `p`.
pub fn pass_down_file(t: File<Flags>, p: &Option<Flags>) -> (r: File<Flags>)
    ensures
        file_view(r) == pass_down(opt_flags_view(*p), file_view(t)),
    decreases t,
{
    let File { path, file_type, extra } = t;
    let extra = pass_flags_exec(extra, p);
    match file_type {
        FileType::Directory(children) => {
            proof {
                assert(decreases_to!(t => t.file_type));
                assert(decreases_to!(t.file_type => children));
            }
            let children = pass_down_files(children, &extra);
            File { path, file_type: FileType::Directory(children), extra }
        },
        FileType::Regular => File { path, file_type: FileType::Regular, extra },
        FileType::Symlink(target) => File { path, file_type: FileType::Symlink(target), extra },
    }
}

/// Each of `ts`, as `pass_down_file`.
pub fn pass_down_files(ts: Vec<File<Flags>>, p: &Option<Flags>) -> (r: Vec<File<Flags>>)
    ensures
        file_list_view(r@) == pass_down_list(opt_flags_view(*p), file_list_view(ts@)),
    decreases ts,
{
    let ghost orig = ts@;
    let mut rest = ts;
    let mut backwards: Vec<File<Flags>> = Vec::new();
    while rest.len() > 0
        invariant
            rest@.len() + backwards@.len() == orig.len(),
            forall|i: int| 0 <= i < rest@.len() ==> #[trigger] rest@[i] == orig[i],
            forall|i: int|
                0 <= i < backwards@.len() ==> #[trigger] backwards@[i] == orig[orig.len() - 1
                    - i],
        decreases rest@.len(),
    {
        let t = rest.pop().unwrap();
        backwards.push(t);
    }
    proof {
        lemma_file_list_view(orig);
        lemma_pass_down_list(opt_flags_view(*p), file_list_view(orig));
    }
    let mut out: Vec<File<Flags>> = Vec::new();
    while backwards.len() > 0
        invariant
            out@.len() + backwards@.len() == orig.len(),
            forall|i: int|
                0 <= i < backwards@.len() ==> #[trigger] backwards@[i] == orig[orig.len() - 1
                    - i],
            forall|i: int|
                0 <= i < out@.len() ==> file_view(#[trigger] out@[i]) == pass_down(
                    opt_flags_view(*p),
                    file_view(orig[i]),
                ),
            decreases_to!(ts => ts@),
            ts@ == orig,
        decreases backwards@.len(),
    {
        let ghost k = out@.len() as int;
        let t = backwards.pop().unwrap();
        assert(t == orig[k]);
        proof {
            assert(decreases_to!(ts@ => ts@[k]));
        }
        let u = pass_down_file(t, p);
        out.push(u);
    }
    proof {
        lemma_file_list_view_ext(out@, pass_down_list(opt_flags_view(*p), file_list_view(orig)));
    }
    out
}

/// A top-level tree after its flags have been passed down (`pass_down_root`).
pub fn pass_down_root_file(t: File<Flags>) -> (r: File<Flags>)
    ensures
        file_view(r) == pass_down_root(file_view(t)),
{
    let File { path, file_type, extra } = t;
    match file_type {
        FileType::Directory(children) => {
            let children = pass_down_files(children, &extra);
            File { path, file_type: FileType::Directory(children), extra }
        },
        FileType::Regular => File { path, file_type: FileType::Regular, extra },
        FileType::Symlink(target) => File { path, file_type: FileType::Symlink(target), extra },
    }
}

} // verus!
