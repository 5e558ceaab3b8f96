//! Loading the structure of an `FsTree` from what a filesystem holds at each of its paths.
//!
//! Reading a structural copy visits the paths of a tree in order, asks the filesystem what
//! is at each one (a `Probe`), and places what was found in a new tree: a regular file, an
//! empty directory or a symlink; missing paths and other file types are skipped.
use vstd::prelude::*;

use crate::fs_tree::{
    can_insert, find_child, insert_at, lemma_child_wf, lemma_put_child,
    lemma_put_child_wf, lookup, node_count, node_wf, FsNode, FsTree,
};
use crate::iter::{collect_preorder, preorder, preorder_pairs, visits_view, Visit};
use crate::iter_laws::{law_visit_paths_lead_to_nodes, no_dot_names};
use crate::path::FsPath;
use crate::text::dot;

verus! {

/// What the filesystem holds at a path.
#[derive(Debug)]
pub enum Probe {
    /// A regular file.
    Regular,
    /// A directory.
    Directory,
    /// A symlink and its target.
    Symlink(FsPath),
    /// Nothing: the path was not found.
    Missing,
    /// A file of another type (device, pipe, socket).
    Other,
}

/// The node placed for a probe, if any.
pub open spec fn probe_node(p: Probe) -> Option<FsNode> {
    match p {
        Probe::Regular => Some(FsNode::Regular),
        Probe::Directory => Some(FsNode::Directory(Seq::empty())),
        Probe::Symlink(t) => Some(FsNode::Symlink(t@)),
        _ => None,
    }
}

/// The tree built from the visits `vs` and their probes: starting from an empty directory,
/// each found node placed at its path in turn; `None` when a node's parent is not a
/// directory of the tree being built (where inserting would abort).
pub open spec fn structure_fold(vs: Seq<Visit>, probes: Seq<Probe>) -> Option<FsNode>
    decreases vs.len(),
{
    if vs.len() == 0 {
        Some(FsNode::Directory(Seq::empty()))
    } else {
        match structure_fold(vs.drop_last(), probes) {
            None => None,
            Some(acc) => match probe_node(probes[vs.len() - 1]) {
                None => Some(acc),
                Some(v) => if can_insert(acc, vs.last().2) {
                    Some(insert_at(acc, vs.last().2, v))
                } else {
                    None
                },
            },
        }
    }
}

/// The structure of `t` as found by `probes`, one per node of `t` in the order of its
/// traversal.
pub open spec fn structure_of(t: FsNode, probes: Seq<Probe>) -> Option<FsNode> {
    structure_fold(preorder(t, 0, Seq::empty()), probes)
}

/// The path `p` without its `.` components.
pub open spec fn undot(p: Seq<Seq<char>>) -> Seq<Seq<char>>
    decreases p.len(),
{
    if p.len() == 0 {
        Seq::empty()
    } else if p[0] == dot() {
        undot(p.drop_first())
    } else {
        seq![p[0]] + undot(p.drop_first())
    }
}

/// Whether no component of `p` is `.`.
pub open spec fn dot_free(p: Seq<Seq<char>>) -> bool {
    forall|i: int| 0 <= i < p.len() ==> #[trigger] p[i] != dot()
}

pub proof fn lemma_undot(n: FsNode, p: Seq<Seq<char>>)
    ensures
        lookup(n, p) == lookup(n, undot(p)),
        dot_free(undot(p)),
    decreases p.len(),
{
    if p.len() > 0 {
        lemma_undot(n, p.drop_first());
        let u = undot(p.drop_first());
        if p[0] != dot() {
            let w = seq![p[0]] + u;
            assert(w[0] == p[0]);
            assert(w.drop_first() =~= u);
            if let FsNode::Directory(ps) = n {
                if let Some(c) = find_child(ps, p[0]) {
                    lemma_undot(c, p.drop_first());
                }
            }
            assert forall|i: int| 0 <= i < w.len() implies #[trigger] w[i] != dot() by {
                if i > 0 {
                    assert(w[i] == u[i - 1]);
                }
            }
        }
    }
}

/// A node with no children: a regular file, a symlink, or an empty directory.
pub open spec fn bare(v: FsNode) -> bool {
    match v {
        FsNode::Directory(ps) => ps.len() == 0,
        _ => true,
    }
}

pub proof fn lemma_bare_lookup(v: FsNode, p: Seq<Seq<char>>)
    requires
        bare(v),
        dot_free(p),
        p.len() > 0,
    ensures
        lookup(v, p) is None,
{
    assert(p[0] != dot());
    if let FsNode::Directory(ps) = v {
        crate::fs_tree::lemma_find_child_absent(ps, p[0]);
    }
}

pub proof fn lemma_insert_at_wf(acc: FsNode, q: Seq<Seq<char>>, v: FsNode)
    requires
        node_wf(acc),
        node_wf(v),
        dot_free(q),
    ensures
        node_wf(insert_at(acc, q, v)),
    decreases q.len(),
{
    if q.len() == 1 {
        if let FsNode::Directory(ps) = acc {
            lemma_put_child_wf(ps, q[0], v);
        }
    } else if q.len() > 1 {
        assert(q[0] != dot());
        if let FsNode::Directory(ps) = acc {
            if let Some(c) = find_child(ps, q[0]) {
                lemma_child_wf(ps, q[0]);
                let rest = q.drop_first();
                assert forall|i: int| 0 <= i < rest.len() implies #[trigger] rest[i] != dot() by {
                    assert(rest[i] == q[i + 1]);
                }
                lemma_insert_at_wf(c, rest, v);
                lemma_put_child_wf(ps, q[0], insert_at(c, rest, v));
            }
        }
    }
}

/// Placing a node with no children at `q` adds no path but `q`: every dot-free path that
/// reaches a node afterwards reached one before, or is `q`.
pub proof fn lemma_insert_bare_paths(acc: FsNode, q: Seq<Seq<char>>, v: FsNode, p: Seq<Seq<char>>)
    requires
        node_wf(acc),
        bare(v),
        dot_free(q),
        dot_free(p),
        can_insert(acc, q),
        lookup(insert_at(acc, q, v), p) is Some,
    ensures
        lookup(acc, p) is Some || p == q,
    decreases q.len(),
{
    if q.len() == 0 {
        if p.len() > 0 {
            lemma_bare_lookup(v, p);
        } else {
            assert(p =~= q);
        }
    } else if p.len() > 0 {
        assert(q[0] != dot());
        assert(p[0] != dot());
        let pr = p.drop_first();
        assert(dot_free(pr)) by {
            assert forall|i: int| 0 <= i < pr.len() implies #[trigger] pr[i] != dot() by {
                assert(pr[i] == p[i + 1]);
            }
        }
        if q.len() == 1 {
            assert(q.drop_last().len() == 0);
            assert(lookup(acc, q.drop_last()) == Some(acc));
            let ps = acc->Directory_0;
            lemma_put_child(ps, q[0], v);
            if p[0] == q[0] {
                if pr.len() > 0 {
                    lemma_bare_lookup(v, pr);
                } else {
                    assert(p =~= q);
                }
            }
        } else {
            let qr = q.drop_first();
            assert(q.drop_last()[0] == q[0]);
            assert(q.drop_last().drop_first() =~= qr.drop_last());
            let ps = acc->Directory_0;
            let c = find_child(ps, q[0])->0;
            lemma_child_wf(ps, q[0]);
            assert(dot_free(qr)) by {
                assert forall|i: int| 0 <= i < qr.len() implies #[trigger] qr[i] != dot() by {
                    assert(qr[i] == q[i + 1]);
                }
            }
            lemma_put_child(ps, q[0], insert_at(c, qr, v));
            if p[0] == q[0] {
                lemma_insert_bare_paths(c, qr, v, pr);
                if pr == qr {
                    assert(p =~= q) by {
                        assert(p =~= seq![p[0]] + pr);
                        assert(q =~= seq![q[0]] + qr);
                    }
                }
            }
        }
    }
}

pub proof fn lemma_visit_paths_dot_free(n: FsNode, d: nat, p: Seq<Seq<char>>)
    requires
        no_dot_names(n),
        dot_free(p),
    ensures
        forall|i: int| 0 <= i < preorder(n, d, p).len() ==> dot_free(#[trigger] preorder(n, d, p)[i].2),
    decreases n,
{
    let s = preorder(n, d, p);
    if let FsNode::Directory(ps) = n {
        lemma_visit_pairs_dot_free(ps, d + 1, p);
        assert forall|i: int| 0 <= i < s.len() implies dot_free(#[trigger] s[i].2) by {
            if i > 0 {
                assert(s[i] == preorder_pairs(ps, d + 1, p)[i - 1]);
            }
        }
    } else {
        assert forall|i: int| 0 <= i < s.len() implies dot_free(#[trigger] s[i].2) by {
            assert(i == 0);
        }
    }
}

pub proof fn lemma_visit_pairs_dot_free(ps: Seq<(Seq<char>, FsNode)>, d: nat, p: Seq<Seq<char>>)
    requires
        no_dot_names(FsNode::Directory(ps)),
        dot_free(p),
    ensures
        forall|i: int|
            0 <= i < preorder_pairs(ps, d, p).len() ==> dot_free(
                #[trigger] preorder_pairs(ps, d, p)[i].2,
            ),
    decreases ps,
{
    if ps.len() > 0 {
        let init = ps.drop_last();
        let last = ps.last();
        let whole = FsNode::Directory(ps);
        assert(no_dot_names(whole));
        assert(whole matches FsNode::Directory(qs) && qs == ps);
        assert(ps[0].0 != dot());
        assert(no_dot_names(FsNode::Directory(init))) by {
            assert forall|i: int| 0 <= i < init.len() implies (#[trigger] init[i]).0 != dot()
                && no_dot_names(init[i].1) by {
                assert(init[i] == ps[i]);
                assert(ps[i].0 != dot());
            }
        }
        assert(ps[ps.len() - 1] == last);
        assert(last.0 != dot());
        lemma_visit_pairs_dot_free(init, d, p);
        let pk = p.push(last.0);
        assert(dot_free(pk)) by {
            assert forall|i: int| 0 <= i < pk.len() implies #[trigger] pk[i] != dot() by {
                if i < p.len() {
                    assert(pk[i] == p[i]);
                }
            }
        }
        lemma_visit_paths_dot_free(last.1, d, pk);
        let a = preorder_pairs(init, d, p);
        let b = preorder(last.1, d, pk);
        assert forall|i: int| 0 <= i < (a + b).len() implies dot_free(#[trigger] (a + b)[i].2) by {
            if i < a.len() {
                assert((a + b)[i] == a[i]);
            } else {
                assert((a + b)[i] == b[i - a.len()]);
            }
        }
    }
}

/// What stays true while the structure is built from a prefix of the visits: the tree
/// built is well formed, and every dot-free path that reaches a node in it reaches one in
/// `t`.
pub proof fn lemma_fold_within(t: FsNode, vs: Seq<Visit>, probes: Seq<Probe>)
    requires
        node_wf(t),
        no_dot_names(t),
        vs.len() <= preorder(t, 0, Seq::empty()).len(),
        vs == preorder(t, 0, Seq::empty()).take(vs.len() as int),
    ensures
        structure_fold(vs, probes) matches Some(r) ==> {
            &&& node_wf(r)
            &&& forall|p: Seq<Seq<char>>|
                dot_free(p) && #[trigger] lookup(r, p) is Some ==> lookup(t, p) is Some
        },
    decreases vs.len(),
{
    let all = preorder(t, 0, Seq::empty());
    if vs.len() == 0 {
        let r = FsNode::Directory(Seq::<(Seq<char>, FsNode)>::empty());
        assert forall|p: Seq<Seq<char>>| dot_free(p) && #[trigger] lookup(r, p) is Some implies lookup(
            t,
            p,
        ) is Some by {
            if p.len() > 0 {
                lemma_bare_lookup(r, p);
            }
        }
    } else {
        let init = vs.drop_last();
        assert(init =~= all.take(init.len() as int));
        lemma_fold_within(t, init, probes);
        if let Some(acc) = structure_fold(init, probes) {
            if let Some(v) = probe_node(probes[vs.len() - 1]) {
                let q = vs.last().2;
                if can_insert(acc, q) {
                    let k = vs.len() - 1;
                    assert(vs.last() == all[k]);
                    law_visit_paths_lead_to_nodes(t);
                    lemma_visit_paths_dot_free(t, 0, Seq::empty());
                    assert(lookup(t, all[k].2) == Some(all[k].0));
                    assert(dot_free(all[k].2));
                    lemma_insert_at_wf(acc, q, v);
                    let r = insert_at(acc, q, v);
                    assert forall|p: Seq<Seq<char>>|
                        dot_free(p) && #[trigger] lookup(r, p) is Some implies lookup(t, p) is Some by {
                        lemma_insert_bare_paths(acc, q, v, p);
                    }
                }
            }
        }
    }
}

/// Every path in a structural copy is present in the tree it was read from: when
/// `structure_of(t, probes)` gives a tree, a path that reaches a node in it reaches one in
/// `t` (for trees where no child is named `.`).
pub proof fn law_structure_within(t: FsNode, probes: Seq<Probe>)
    requires
        node_wf(t),
        no_dot_names(t),
    ensures
        structure_of(t, probes) matches Some(r) ==> forall|p: Seq<Seq<char>>|
            #[trigger] lookup(r, p) is Some ==> lookup(t, p) is Some,
{
    let all = preorder(t, 0, Seq::empty());
    assert(all.take(all.len() as int) =~= all);
    lemma_fold_within(t, all, probes);
    if let Some(r) = structure_of(t, probes) {
        assert forall|p: Seq<Seq<char>>| #[trigger] lookup(r, p) is Some implies lookup(t, p) is Some by {
            lemma_undot(r, p);
            lemma_undot(t, p);
            assert(lookup(r, undot(p)) is Some);
        }
    }
}

pub proof fn lemma_fold_none_stays(vs: Seq<Visit>, probes: Seq<Probe>, i: int)
    requires
        0 <= i <= vs.len(),
        structure_fold(vs.take(i), probes) is None,
    ensures
        structure_fold(vs, probes) is None,
    decreases vs.len() - i,
{
    if i < vs.len() {
        assert(vs.take(i + 1).drop_last() =~= vs.take(i));
        lemma_fold_none_stays(vs, probes, i + 1);
    } else {
        assert(vs.take(i) =~= vs);
    }
}

/// Whether a node can be placed at `comps` in `t` (`can_insert`).
fn can_insert_at(t: &FsTree, comps: &Vec<String>) -> (r: bool)
    requires
        t.wf(),
    ensures
        r == can_insert(t@, comps.deep_view()),
{
    let n = comps.len();
    if n == 0 {
        return true;
    }
    let mut parent: Vec<String> = Vec::new();
    let mut i: usize = 0;
    while i < n - 1
        invariant
            i <= n - 1,
            n == comps@.len(),
            parent.deep_view() == comps.deep_view().take(i as int),
        decreases n - 1 - i,
    {
        let piece = comps[i].clone();
        let ghost before = parent.deep_view();
        let ghost pv = piece@;
        parent.push(piece);
        assert(parent.deep_view() =~= before.push(pv));
        assert(comps.deep_view().take(i + 1) =~= comps.deep_view().take(i as int).push(pv));
        i += 1;
    }
    assert(parent.deep_view() =~= comps.deep_view().drop_last());
    assert(parent.deep_view().skip(0) =~= parent.deep_view());
    match t.get_pieces(&parent, 0) {
        Some(node) => node.is_dir(),
        None => false,
    }
}

/// Placing a node below the root of a directory keeps it a directory.
pub proof fn lemma_insert_keeps_dir(acc: FsNode, q: Seq<Seq<char>>, v: FsNode)
    requires
        acc is Directory,
        q.len() > 0,
    ensures
        insert_at(acc, q, v) is Directory,
    decreases q.len(),
{
    if q.len() > 1 && q[0] == dot() {
        lemma_insert_keeps_dir(acc, q.drop_first(), v);
    }
}

/// Placing a node at `q` keeps a directory at every proper prefix of `q` that held one.
pub proof fn lemma_insert_keeps_prefix_dir(
    acc: FsNode,
    q: Seq<Seq<char>>,
    v: FsNode,
    x: Seq<Seq<char>>,
)
    requires
        node_wf(acc),
        dot_free(q),
        can_insert(acc, q),
        x.len() < q.len(),
        q.take(x.len() as int) == x,
        lookup(acc, x) matches Some(FsNode::Directory(_)),
    ensures
        lookup(insert_at(acc, q, v), x) matches Some(FsNode::Directory(_)),
    decreases x.len(),
{
    if x.len() == 0 {
        lemma_insert_keeps_dir(acc, q, v);
    } else {
        assert(q[0] != dot());
        assert(x[0] == q.take(x.len() as int)[0]);
        let ps = acc->Directory_0;
        let c = find_child(ps, q[0])->0;
        let q2 = q.drop_first();
        let x2 = x.drop_first();
        lemma_child_wf(ps, q[0]);
        assert(q.drop_last()[0] == q[0]);
        assert(q.drop_last().drop_first() =~= q2.drop_last());
        assert(dot_free(q2)) by {
            assert forall|i: int| 0 <= i < q2.len() implies #[trigger] q2[i] != dot() by {
                assert(q2[i] == q[i + 1]);
            }
        }
        assert(q2.take(x2.len() as int) =~= x2) by {
            assert forall|i: int| 0 <= i < x2.len() implies q2.take(x2.len() as int)[i] == x2[i] by {
                assert(q.take(x.len() as int)[i + 1] == q[i + 1]);
            }
        }
        lemma_put_child(ps, q[0], insert_at(c, q2, v));
        lemma_insert_keeps_prefix_dir(c, q2, v, x2);
    }
}

/// Whether the copy `r` agrees with the probe at path `x`: nothing there when the probe
/// found nothing, a directory for a directory, and the very node found otherwise.
pub open spec fn copy_agrees(r: FsNode, x: Seq<Seq<char>>, probe: Probe) -> bool {
    match probe_node(probe) {
        None => lookup(r, x) is None,
        Some(v) => lookup(r, x) matches Some(z) && (v is Directory ==> z is Directory) && (!(
        v is Directory) ==> z == v),
    }
}

/// Whether the probes describe a filesystem that can hold `t`'s paths: one probe per node
/// in the order of the traversal, a directory at the root, and a directory at every path
/// of `t` that lies above a path where something was found.
pub open spec fn probes_consistent(t: FsNode, probes: Seq<Probe>) -> bool {
    let vs = preorder(t, 0, Seq::empty());
    &&& probes.len() == vs.len()
    &&& probes[0] is Directory
    &&& forall|i: int, j: int|
        #![trigger vs[i], vs[j]]
        0 <= i < vs.len() && 0 <= j < vs.len() && vs[i].2.len() < vs[j].2.len() && vs[j].2.take(
            vs[i].2.len() as int,
        ) == vs[i].2 && probe_node(probes[j]) is Some ==> probes[i] is Directory
}

/// What holds of a copy `acc` built from the first `m` visits `vs`: it is well formed, it
/// agrees with the probe at each of these visits, and each dot-free path that reaches a
/// node in it is the path of one of them where something was found.
pub open spec fn fold_inv(acc: FsNode, vs: Seq<Visit>, probes: Seq<Probe>, m: int) -> bool {
    &&& node_wf(acc)
    &&& forall|i: int| 0 <= i < m ==> #[trigger] copy_agrees(acc, vs[i].2, probes[i])
    &&& forall|p: Seq<Seq<char>>|
        dot_free(p) && #[trigger] lookup(acc, p) is Some ==> exists|i: int|
            0 <= i < m && (#[trigger] vs[i]).2 == p && probe_node(probes[i]) is Some
}

/// The facts about the traversal of `t` that building the copy relies on.
proof fn lemma_visit_facts(t: FsNode)
    requires
        node_wf(t),
        no_dot_names(t),
    ensures
        preorder(t, 0, Seq::empty())[0].2 == Seq::<Seq<char>>::empty(),
        forall|i: int|
            0 <= i < preorder(t, 0, Seq::empty()).len() ==> dot_free(
                #[trigger] preorder(t, 0, Seq::empty())[i].2,
            ),
        forall|i: int, j: int|
            #![trigger preorder(t, 0, Seq::empty())[i], preorder(t, 0, Seq::empty())[j]]
            0 <= i < j < preorder(t, 0, Seq::empty()).len() ==> crate::iter_laws::path_lt(
                preorder(t, 0, Seq::empty())[i].2,
                preorder(t, 0, Seq::empty())[j].2,
            ),
{
    crate::iter_laws::lemma_preorder_increasing(t, 0, Seq::empty());
    lemma_visit_paths_dot_free(t, 0, Seq::empty());
}

/// An earlier visit's path keeps what the copy holds there when a node is placed at a
/// later visit's path.
proof fn lemma_step_keeps_agreement(
    acc: FsNode,
    q: Seq<Seq<char>>,
    v: FsNode,
    x: Seq<Seq<char>>,
    probe: Probe,
)
    requires
        node_wf(acc),
        dot_free(q),
        dot_free(x),
        q.len() > 0,
        can_insert(acc, q),
        crate::iter_laws::path_lt(x, q),
        copy_agrees(acc, x, probe),
        x.len() < q.len() && q.take(x.len() as int) == x ==> probe is Directory,
    ensures
        copy_agrees(insert_at(acc, q, v), x, probe),
{
    if x.is_prefix_of(q) {
        if x =~= q {
            crate::iter_laws::lemma_path_lt_irreflexive(q);
        }
        assert(x.len() < q.len());
        assert(q.take(x.len() as int) =~= x);
        lemma_insert_keeps_prefix_dir(acc, q, v, x);
    } else if q.is_prefix_of(x) {
        if x =~= q {
            crate::iter_laws::lemma_path_lt_irreflexive(q);
        }
        assert(x.take(q.len() as int) =~= q);
        crate::iter_laws::lemma_path_lt_extension(q, x);
        crate::iter_laws::lemma_path_lt_asymmetric(q, x);
    } else {
        crate::fs_tree_laws::law_insert_keeps_other_paths(acc, q, x, v);
    }
}

/// One step of building the copy keeps `fold_inv`.
proof fn lemma_fold_step(t: FsNode, probes: Seq<Probe>, m: int, acc: FsNode)
    requires
        node_wf(t),
        no_dot_names(t),
        probes_consistent(t, probes),
        2 <= m <= preorder(t, 0, Seq::empty()).len(),
        fold_inv(acc, preorder(t, 0, Seq::empty()), probes, m - 1),
    ensures
        ({
            let vs = preorder(t, 0, Seq::empty());
            match probe_node(probes[m - 1]) {
                None => fold_inv(acc, vs, probes, m),
                Some(v) => can_insert(acc, vs[m - 1].2) && fold_inv(
                    insert_at(acc, vs[m - 1].2, v),
                    vs,
                    probes,
                    m,
                ),
            }
        }),
{
    let vs = preorder(t, 0, Seq::empty());
    let k = m - 1;
    let q = vs[k].2;
    lemma_visit_facts(t);
    assert(crate::iter_laws::path_lt(vs[0].2, vs[k].2));
    assert(q.len() > 0);
    assert(dot_free(q));
    match probe_node(probes[k]) {
        None => {
            if lookup(acc, q) is Some {
                let i = choose|i: int|
                    0 <= i < m - 1 && (#[trigger] vs[i]).2 == q && probe_node(probes[i]) is Some;
                assert(crate::iter_laws::path_lt(vs[i].2, vs[k].2));
                crate::iter_laws::lemma_path_lt_irreflexive(q);
            }
            assert(copy_agrees(acc, vs[k].2, probes[k]));
            assert forall|i: int| 0 <= i < m implies #[trigger] copy_agrees(acc, vs[i].2, probes[i]) by {
                if i < k {
                    assert(copy_agrees(acc, vs[i].2, probes[i]));
                }
            }
        },
        Some(v) => {
            crate::iter_laws::lemma_preorder_parents(t, 0, Seq::empty());
            let i0 = choose|i: int|
                0 <= i < k && (#[trigger] vs[i]).2 == (#[trigger] vs[k]).2.drop_last();
            assert(q.take(q.drop_last().len() as int) =~= q.drop_last());
            assert(probes[i0] is Directory);
            assert(copy_agrees(acc, vs[i0].2, probes[i0]));
            assert(can_insert(acc, q));
            let new = insert_at(acc, q, v);
            assert(node_wf(v) && bare(v));
            lemma_insert_at_wf(acc, q, v);
            crate::fs_tree_laws::lemma_lookup_insert_at(acc, q, v);
            assert forall|i: int| 0 <= i < m implies #[trigger] copy_agrees(new, vs[i].2, probes[i]) by {
                if i < k {
                    assert(copy_agrees(acc, vs[i].2, probes[i]));
                    assert(dot_free(vs[i].2));
                    assert(crate::iter_laws::path_lt(vs[i].2, vs[k].2));
                    lemma_step_keeps_agreement(acc, q, v, vs[i].2, probes[i]);
                }
            }
            assert forall|p: Seq<Seq<char>>| dot_free(p) && #[trigger] lookup(new, p) is Some implies exists|i: int|
                0 <= i < m && (#[trigger] vs[i]).2 == p && probe_node(probes[i]) is Some by {
                lemma_insert_bare_paths(acc, q, v, p);
                if p == q {
                    assert(vs[k].2 == p);
                } else {
                    let i = choose|i: int|
                        0 <= i < m - 1 && (#[trigger] vs[i]).2 == p && probe_node(probes[i]) is Some;
                    assert(vs[i].2 == p);
                }
            }
        },
    }
}

/// `fold_inv` holds of the copy built from the first `m` visits.
proof fn lemma_fold_agrees(t: FsNode, probes: Seq<Probe>, m: int)
    requires
        node_wf(t),
        no_dot_names(t),
        probes_consistent(t, probes),
        1 <= m <= preorder(t, 0, Seq::empty()).len(),
    ensures
        structure_fold(preorder(t, 0, Seq::empty()).take(m), probes) matches Some(acc)
            && fold_inv(acc, preorder(t, 0, Seq::empty()), probes, m),
    decreases m,
{
    let vs = preorder(t, 0, Seq::empty());
    let cur = vs.take(m);
    assert(cur.drop_last() =~= vs.take(m - 1));
    assert(cur.last() == vs[m - 1]);
    if m == 1 {
        assert(vs.take(0) =~= Seq::<Visit>::empty());
        let v = FsNode::Directory(Seq::<(Seq<char>, FsNode)>::empty());
        assert(vs[0].2 == Seq::<Seq<char>>::empty());
        assert(structure_fold(cur, probes) == Some(v));
        assert(copy_agrees(v, vs[0].2, probes[0]));
        assert forall|p: Seq<Seq<char>>| dot_free(p) && #[trigger] lookup(v, p) is Some implies exists|i: int|
            0 <= i < m && (#[trigger] vs[i]).2 == p && probe_node(probes[i]) is Some by {
            if p.len() > 0 {
                lemma_bare_lookup(v, p);
            }
            assert(vs[0].2 =~= p);
        }
    } else {
        lemma_fold_agrees(t, probes, m - 1);
        let acc = structure_fold(vs.take(m - 1), probes)->0;
        lemma_fold_step(t, probes, m, acc);
    }
}

/// The structural copy read into a filesystem that holds `t`'s structure is exactly the
/// intersection of the two: it is a directory, a path of `t` reaches a node in the copy
/// exactly when something was found there, a directory where a directory was found and
/// the very regular file or symlink found otherwise, and the copy reaches nothing at any
/// other path (for trees where no child is named `.`).
pub proof fn law_structure_intersection(t: FsNode, probes: Seq<Probe>)
    requires
        node_wf(t),
        no_dot_names(t),
        probes_consistent(t, probes),
    ensures
        structure_of(t, probes) matches Some(r) && {
            let vs = preorder(t, 0, Seq::empty());
            &&& r is Directory
            &&& forall|i: int| 0 <= i < vs.len() ==> #[trigger] copy_agrees(r, vs[i].2, probes[i])
            &&& forall|p: Seq<Seq<char>>|
                #[trigger] lookup(r, p) is Some ==> exists|i: int|
                    0 <= i < vs.len() && (#[trigger] vs[i]).2 == undot(p) && probe_node(probes[i]) is Some
        },
{
    let vs = preorder(t, 0, Seq::empty());
    crate::iter_laws::law_visit_count(t, 0, Seq::empty());
    assert(vs.len() >= 1);
    lemma_fold_agrees(t, probes, vs.len() as int);
    assert(vs.take(vs.len() as int) =~= vs);
    let r = structure_of(t, probes)->0;
    assert(copy_agrees(r, vs[0].2, probes[0]));
    assert(vs[0].2 == Seq::<Seq<char>>::empty());
    assert forall|p: Seq<Seq<char>>| #[trigger] lookup(r, p) is Some implies exists|i: int|
        0 <= i < vs.len() && (#[trigger] vs[i]).2 == undot(p) && probe_node(probes[i]) is Some by {
        lemma_undot(r, p);
        assert(lookup(r, undot(p)) is Some);
    }
}

/// The structural copy is a directory when a directory was found at the root: the later
/// nodes are placed below it.
pub proof fn law_structure_is_directory(t: FsNode, probes: Seq<Probe>)
    requires
        node_wf(t),
        probes.len() == preorder(t, 0, Seq::empty()).len(),
        probes[0] is Directory,
    ensures
        structure_of(t, probes) matches Some(r) ==> r is Directory,
{
    let vs = preorder(t, 0, Seq::empty());
    crate::iter_laws::law_visit_count(t, 0, Seq::empty());
    lemma_fold_directory(t, probes, vs.len() as int);
    assert(vs.take(vs.len() as int) =~= vs);
}

proof fn lemma_fold_directory(t: FsNode, probes: Seq<Probe>, m: int)
    requires
        node_wf(t),
        probes.len() == preorder(t, 0, Seq::empty()).len(),
        probes[0] is Directory,
        1 <= m <= preorder(t, 0, Seq::empty()).len(),
    ensures
        structure_fold(preorder(t, 0, Seq::empty()).take(m), probes) matches Some(acc) ==> acc is Directory,
    decreases m,
{
    let vs = preorder(t, 0, Seq::empty());
    let cur = vs.take(m);
    assert(cur.drop_last() =~= vs.take(m - 1));
    assert(cur.last() == vs[m - 1]);
    if m == 1 {
        assert(vs.take(0) =~= Seq::<Visit>::empty());
        assert(vs[0].2 == Seq::<Seq<char>>::empty());
    } else {
        lemma_fold_directory(t, probes, m - 1);
        crate::iter_laws::lemma_preorder_increasing(t, 0, Seq::empty());
        assert(vs[0].2 == Seq::<Seq<char>>::empty());
        assert(crate::iter_laws::path_lt(vs[0].2, vs[m - 1].2));
        if let Some(acc) = structure_fold(vs.take(m - 1), probes) {
            if let Some(v) = probe_node(probes[m - 1]) {
                if can_insert(acc, vs[m - 1].2) {
                    lemma_insert_keeps_dir(acc, vs[m - 1].2, v);
                }
            }
        }
    }
}

/// A listing of what the filesystem holds below a path, as its model: each entry's path,
/// relative to the path read, and what was found there.
pub open spec fn listing_view(l: Seq<(FsPath, Probe)>) -> Seq<(Seq<Seq<char>>, Probe)> {
    Seq::new(l.len(), |i: int| (l[i].0@, l[i].1))
}

/// The tree built from a listing: starting from an empty directory, the node found at each
/// entry placed at its path in turn (the first entry, at the empty path, gives the root).
/// `Err(i)` for the first entry `i` where nothing usable was found (a missing path or a file
/// of another type), or whose parent is not a directory of the tree being built.
pub open spec fn listing_result(es: Seq<(Seq<Seq<char>>, Probe)>) -> Result<FsNode, nat>
    decreases es.len(),
{
    if es.len() == 0 {
        Ok(FsNode::Directory(Seq::empty()))
    } else {
        match listing_result(es.drop_last()) {
            Err(i) => Err(i),
            Ok(acc) => match probe_node(es.last().1) {
                None => Err((es.len() - 1) as nat),
                Some(v) => if can_insert(acc, es.last().0) {
                    Ok(insert_at(acc, es.last().0, v))
                } else {
                    Err((es.len() - 1) as nat)
                },
            },
        }
    }
}

/// Whether a listing has the shape of a walk down a directory tree: the first entry is the
/// path read itself (the empty path), every other entry comes after an entry of its parent
/// where a directory was found, no path is listed twice, and no path has a `.` component.
pub open spec fn listing_shape(es: Seq<(Seq<Seq<char>>, Probe)>) -> bool {
    &&& es.len() >= 1
    &&& es[0].0 == Seq::<Seq<char>>::empty()
    &&& forall|k: int| 0 <= k < es.len() ==> dot_free(#[trigger] es[k].0)
    &&& forall|k: int|
        0 < k < es.len() ==> exists|i: int|
            0 <= i < k && (#[trigger] es[i]).0 == (#[trigger] es[k]).0.drop_last()
                && es[i].1 is Directory
    &&& forall|i: int, j: int| 0 <= i < j < es.len() ==> (#[trigger] es[i]).0 != (#[trigger] es[j]).0
}

/// Whether something usable was found at each of the first `m` entries.
pub open spec fn found_upto(es: Seq<(Seq<Seq<char>>, Probe)>, m: int) -> bool {
    forall|i: int| 0 <= i < m ==> probe_node(#[trigger] es[i].1) is Some
}

/// What holds of a tree `acc` built from the first `m` entries: it is well formed, it
/// agrees with the probe at each of these entries, and each dot-free path that reaches a
/// node in it is the path of one of them.
pub open spec fn listing_inv(acc: FsNode, es: Seq<(Seq<Seq<char>>, Probe)>, m: int) -> bool {
    &&& node_wf(acc)
    &&& forall|i: int| 0 <= i < m ==> #[trigger] copy_agrees(acc, es[i].0, es[i].1)
    &&& forall|p: Seq<Seq<char>>|
        dot_free(p) && #[trigger] lookup(acc, p) is Some ==> exists|i: int|
            0 <= i < m && (#[trigger] es[i]).0 == p
}

/// A proper prefix of a dot-free path that reaches a node reaches a directory.
pub proof fn lemma_ancestor_dir(t: FsNode, x: Seq<Seq<char>>, p: Seq<Seq<char>>)
    requires
        dot_free(p),
        x.len() < p.len(),
        p.take(x.len() as int) == x,
        lookup(t, p) is Some,
    ensures
        lookup(t, x) matches Some(FsNode::Directory(_)),
{
    let rest = p.skip(x.len() as int);
    assert(p =~= x + rest);
    crate::fs_tree_laws::law_get_composes(t, x, rest);
    assert(rest[0] == p[x.len() as int]);
    assert(rest[0] != dot());
    match lookup(t, x) {
        Some(n) => {
            if !(n is Directory) {
                assert(lookup(n, rest) is None);
            }
        },
        None => {},
    }
}

/// An earlier entry keeps what the tree holds at its path when the node of entry `m` is
/// placed.
proof fn lemma_listing_keeps_agreement(
    es: Seq<(Seq<Seq<char>>, Probe)>,
    m: int,
    acc: FsNode,
    v: FsNode,
    i: int,
)
    requires
        listing_shape(es),
        0 <= i < m < es.len(),
        es[i].0 != es[m].0,
        es[m].0.len() > 0,
        probe_node(es[i].1) is Some,
        node_wf(acc),
        can_insert(acc, es[m].0),
        lookup(acc, es[m].0.drop_last()) is Some,
        copy_agrees(acc, es[i].0, es[i].1),
        forall|p: Seq<Seq<char>>|
            dot_free(p) && #[trigger] lookup(acc, p) is Some ==> exists|j: int|
                0 <= j < m && (#[trigger] es[j]).0 == p,
    ensures
        copy_agrees(insert_at(acc, es[m].0, v), es[i].0, es[i].1),
{
    let x = es[i].0;
    let q = es[m].0;
    assert(dot_free(x));
    assert(dot_free(q));
    if x.is_prefix_of(q) {
        if x.len() == q.len() {
            assert(x =~= q);
        }
        assert(q.take(x.len() as int) =~= x);
        if x.len() < q.len() - 1 {
            assert(q.drop_last().take(x.len() as int) =~= x);
            assert(dot_free(q.drop_last())) by {
                assert forall|j: int| 0 <= j < q.drop_last().len() implies #[trigger] q.drop_last()[j]
                    != dot() by {
                    assert(q.drop_last()[j] == q[j]);
                }
            }
            lemma_ancestor_dir(acc, x, q.drop_last());
        } else {
            assert(x =~= q.drop_last());
        }
        assert(es[i].1 is Directory);
        lemma_insert_keeps_prefix_dir(acc, q, v, x);
    } else if q.is_prefix_of(x) {
        if x.len() == q.len() {
            assert(x =~= q);
        }
        assert(x.take(q.len() as int) =~= q);
        lemma_ancestor_dir(acc, q, x);
        let j = choose|j: int| 0 <= j < m && (#[trigger] es[j]).0 == q;
        assert(es[j].0 != es[m].0);
    } else {
        crate::fs_tree_laws::law_insert_keeps_other_paths(acc, q, x, v);
    }
}

/// One step of building the tree from a listing keeps `listing_inv`.
proof fn lemma_listing_step(es: Seq<(Seq<Seq<char>>, Probe)>, m: int, acc: FsNode)
    requires
        listing_shape(es),
        1 <= m < es.len(),
        found_upto(es, m + 1),
        listing_inv(acc, es, m),
    ensures
        ({
            let v = probe_node(es[m].1)->0;
            &&& can_insert(acc, es[m].0)
            &&& listing_inv(insert_at(acc, es[m].0, v), es, m + 1)
        }),
{
    let q = es[m].0;
    let v = probe_node(es[m].1)->0;
    assert(probe_node(es[m].1) is Some);
    assert(dot_free(q));
    assert(es[0].0 != es[m].0);
    if q.len() == 0 {
        assert(q =~= es[0].0);
    }
    assert(q.len() > 0);
    let i0 = choose|i: int| 0 <= i < m && (#[trigger] es[i]).0 == (#[trigger] es[m]).0.drop_last()
        && es[i].1 is Directory;
    assert(copy_agrees(acc, es[i0].0, es[i0].1));
    assert(can_insert(acc, q));
    let new = insert_at(acc, q, v);
    assert(node_wf(v) && bare(v));
    lemma_insert_at_wf(acc, q, v);
    crate::fs_tree_laws::lemma_lookup_insert_at(acc, q, v);
    assert(lookup(acc, q.drop_last()) is Some);
    assert forall|i: int| 0 <= i < m + 1 implies #[trigger] copy_agrees(new, es[i].0, es[i].1) by {
        if i < m {
            assert(es[i].0 != es[m].0);
            assert(probe_node(es[i].1) is Some);
            lemma_listing_keeps_agreement(es, m, acc, v, i);
        }
    }
    assert forall|p: Seq<Seq<char>>| dot_free(p) && #[trigger] lookup(new, p) is Some implies exists|i: int|
        0 <= i < m + 1 && (#[trigger] es[i]).0 == p by {
        lemma_insert_bare_paths(acc, q, v, p);
        if p == q {
            assert(es[m].0 == p);
        } else {
            let i = choose|i: int| 0 <= i < m && (#[trigger] es[i]).0 == p;
            assert(es[i].0 == p);
        }
    }
}

/// `listing_inv` holds of the tree built from the first `m` entries, when something usable
/// was found at each of them.
proof fn lemma_listing_inv(es: Seq<(Seq<Seq<char>>, Probe)>, m: int)
    requires
        listing_shape(es),
        1 <= m <= es.len(),
        found_upto(es, m),
    ensures
        listing_result(es.take(m)) matches Ok(acc) && listing_inv(acc, es, m),
    decreases m,
{
    let cur = es.take(m);
    assert(cur.drop_last() =~= es.take(m - 1));
    assert(cur.last() == es[m - 1]);
    if m == 1 {
        assert(es.take(0) =~= Seq::<(Seq<Seq<char>>, Probe)>::empty());
        assert(probe_node(es[0].1) is Some);
        let v = probe_node(es[0].1)->0;
        assert(listing_result(cur) == Ok::<FsNode, nat>(v));
        assert(copy_agrees(v, es[0].0, es[0].1));
        assert forall|p: Seq<Seq<char>>| dot_free(p) && #[trigger] lookup(v, p) is Some implies exists|i: int|
            0 <= i < m && (#[trigger] es[i]).0 == p by {
            if p.len() > 0 {
                lemma_bare_lookup(v, p);
            }
            assert(es[0].0 =~= p);
        }
    } else {
        lemma_listing_inv(es, m - 1);
        let acc = listing_result(es.take(m - 1))->Ok_0;
        lemma_listing_step(es, m - 1, acc);
    }
}

/// An error met in a prefix of a listing is the error of the whole listing.
proof fn lemma_listing_err_stays(es: Seq<(Seq<Seq<char>>, Probe)>, j: int, e: nat)
    requires
        0 <= j <= es.len(),
        listing_result(es.take(j)) == Err::<FsNode, nat>(e),
    ensures
        listing_result(es) == Err::<FsNode, nat>(e),
    decreases es.len() - j,
{
    if j < es.len() {
        assert(es.take(j + 1).drop_last() =~= es.take(j));
        lemma_listing_err_stays(es, j + 1, e);
    } else {
        assert(es.take(j) =~= es);
    }
}

/// A tree read by walking down a directory holds exactly what the walk found: when
/// something usable was found at every entry of a listing shaped like such a walk, the tree
/// built from it agrees with each entry at its path (a directory where a directory was
/// found, the very regular file or symlink otherwise), and it reaches nothing at any path
/// that was not listed.
pub proof fn law_listing_tree(es: Seq<(Seq<Seq<char>>, Probe)>)
    requires
        listing_shape(es),
        found_upto(es, es.len() as int),
    ensures
        listing_result(es) matches Ok(t) && {
            &&& node_wf(t)
            &&& forall|k: int| 0 <= k < es.len() ==> #[trigger] copy_agrees(t, es[k].0, es[k].1)
            &&& forall|p: Seq<Seq<char>>|
                #[trigger] lookup(t, p) is Some ==> exists|k: int|
                    0 <= k < es.len() && (#[trigger] es[k]).0 == undot(p)
        },
{
    lemma_listing_inv(es, es.len() as int);
    assert(es.take(es.len() as int) =~= es);
    let t = listing_result(es)->Ok_0;
    assert forall|p: Seq<Seq<char>>| #[trigger] lookup(t, p) is Some implies exists|k: int|
        0 <= k < es.len() && (#[trigger] es[k]).0 == undot(p) by {
        lemma_undot(t, p);
        assert(lookup(t, undot(p)) is Some);
    }
}

/// Reading a tree fails at the first entry of the walk where nothing usable was found (a
/// missing path, or a file of a type that a tree cannot hold), and only there.
pub proof fn law_listing_first_error(es: Seq<(Seq<Seq<char>>, Probe)>, i: int)
    requires
        listing_shape(es),
        0 <= i < es.len(),
        found_upto(es, i),
        probe_node(es[i].1) is None,
    ensures
        listing_result(es) == Err::<FsNode, nat>(i as nat),
{
    let cur = es.take(i + 1);
    assert(cur.drop_last() =~= es.take(i));
    assert(cur.last() == es[i]);
    if i == 0 {
        assert(es.take(0) =~= Seq::<(Seq<Seq<char>>, Probe)>::empty());
    } else {
        lemma_listing_inv(es, i);
    }
    lemma_listing_err_stays(es, i + 1, i as nat);
}


impl FsTree {
    /// The structural copy of this tree made from `probes`, what the filesystem holds at
    /// each path of this tree in the order of `paths()`: each node found is placed at its
    /// path (a regular file, an empty directory, or a symlink to its target), missing paths
    /// and other file types are skipped. `None` when a found node's parent is not a
    /// directory of the copy (where inserting it would abort).
    pub fn structure_from_probes(&self, probes: &[Probe]) -> (r: Option<FsTree>)
        requires
            self.wf(),
            node_count(self@) <= usize::MAX,
            probes@.len() == node_count(self@),
        ensures
            match structure_of(self@, probes@) {
                Some(t) => r matches Some(x) && x@ == t && x.wf(),
                None => r is None,
            },
    {
        let ghost vs = preorder(self@, 0, Seq::empty());
        let mut visits: Vec<(&FsTree, usize, FsPath)> = Vec::new();
        collect_preorder(self, 0, FsPath::new(), &mut visits);
        assert(visits_view(visits@) =~= vs);
        proof {
            crate::iter_laws::law_visit_count(self@, 0, Seq::empty());
        }
        let mut acc = FsTree::new_dir();
        let mut i: usize = 0;
        assert(vs.take(0) =~= Seq::<Visit>::empty());
        while i < visits.len()
            invariant
                i <= visits@.len() == probes@.len(),
                visits_view(visits@) == vs,
                vs == preorder(self@, 0, Seq::empty()),
                acc.wf(),
                structure_fold(vs.take(i as int), probes@) == Some(acc@),
            decreases visits@.len() - i,
        {
            let ghost before = acc@;
            assert(vs.take(i + 1).drop_last() =~= vs.take(i as int));
            assert(vs.take(i + 1).last() == vs[i as int]);
            assert(vs[i as int].2 == visits@[i as int].2@);
            let node = match &probes[i] {
                Probe::Regular => Some(FsTree::Regular),
                Probe::Directory => Some(FsTree::new_dir()),
                Probe::Symlink(target) => Some(FsTree::Symlink(target.copy())),
                Probe::Missing => None,
                Probe::Other => None,
            };
            match node {
                None => {},
                Some(v) => {
                    assert(probe_node(probes@[i as int]) == Some(v@));
                    let comps = visits[i].2.pieces();
                    if !can_insert_at(&acc, comps) {
                        proof {
                            lemma_fold_none_stays(vs, probes@, i + 1);
                            assert(vs.take(vs.len() as int) =~= vs);
                        }
                        return None;
                    }
                    assert(comps.deep_view().skip(0) =~= comps.deep_view());
                    acc.insert_pieces(comps, 0, v);
                },
            }
            i += 1;
        }
        assert(vs.take(i as int) =~= vs);
        Some(acc)
    }
}

/// Builds the tree that a walk down a directory found: `listing` holds each path visited,
/// relative to the path read (the empty path first), with what the filesystem holds there,
/// each directory before the entries inside it. Each node found is placed at its path: a
/// regular file, a directory (holding the entries listed inside it), or a symlink to its
/// target. `Err(i)` for the first entry `i` where nothing usable was found, or whose parent
/// is not a directory of the tree being built.
pub fn tree_from_listing(listing: &[(FsPath, Probe)]) -> (r: Result<FsTree, usize>)
    ensures
        match listing_result(listing_view(listing@)) {
            Ok(t) => r matches Ok(x) && x@ == t && x.wf(),
            Err(i) => r == Err::<FsTree, usize>(i as usize),
        },
{
    let ghost es = listing_view(listing@);
    let mut acc = FsTree::new_dir();
    let mut i: usize = 0;
    assert(es.take(0) =~= Seq::<(Seq<Seq<char>>, Probe)>::empty());
    while i < listing.len()
        invariant
            i <= listing@.len(),
            es == listing_view(listing@),
            acc.wf(),
            listing_result(es.take(i as int)) == Ok::<FsNode, nat>(acc@),
        decreases listing@.len() - i,
    {
        assert(es.take(i + 1).drop_last() =~= es.take(i as int));
        assert(es.take(i + 1).last() == es[i as int]);
        assert(es[i as int] == (listing@[i as int].0@, listing@[i as int].1));
        let node = match &listing[i].1 {
            Probe::Regular => Some(FsTree::Regular),
            Probe::Directory => Some(FsTree::new_dir()),
            Probe::Symlink(target) => Some(FsTree::Symlink(target.copy())),
            Probe::Missing => None,
            Probe::Other => None,
        };
        match node {
            None => {
                proof {
                    lemma_listing_err_stays(es, i + 1, i as nat);
                }
                return Err(i);
            },
            Some(v) => {
                assert(probe_node(es[i as int].1) == Some(v@));
                let comps = listing[i].0.pieces();
                if !can_insert_at(&acc, comps) {
                    proof {
                        lemma_listing_err_stays(es, i + 1, i as nat);
                    }
                    return Err(i);
                }
                assert(comps.deep_view().skip(0) =~= comps.deep_view());
                acc.insert_pieces(comps, 0, v);
            },
        }
        i += 1;
    }
    assert(es.take(i as int) =~= es);
    Ok(acc)
}

} // verus!
