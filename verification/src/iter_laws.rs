//! Laws of the `FsTree` iterators.
use vstd::prelude::*;

use crate::fs_tree::{
    count_leaves, is_leaf_node, leaf_count,
    count_nodes, find_child, lemma_find_child_at, lemma_wf_drop_last, lookup, node_count, node_wf,
    FsNode,
};
use crate::iter::{dropped_before, passes, preorder, preorder_pairs, Filters, Visit};
use crate::text::{chars_lt, dot, lemma_chars_lt_irreflexive, lemma_chars_lt_transitive, lemma_chars_lt_trichotomy};

verus! {

/// No child anywhere in `n` is named `.` (a name that `lookup` would skip).
pub open spec fn no_dot_names(n: FsNode) -> bool
    decreases n,
{
    match n {
        FsNode::Directory(ps) => forall|i: int|
            0 <= i < ps.len() ==> (#[trigger] ps[i]).0 != dot() && no_dot_names(ps[i].1),
        _ => true,
    }
}

/// The traversal visits every node once: as many visits as nodes.
pub proof fn law_visit_count(n: FsNode, d: nat, p: Seq<Seq<char>>)
    ensures
        preorder(n, d, p).len() == node_count(n),
    decreases n,
{
    if let FsNode::Directory(ps) = n {
        lemma_visit_count_pairs(ps, d + 1, p);
    }
}

pub proof fn lemma_visit_count_pairs(ps: Seq<(Seq<char>, FsNode)>, d: nat, p: Seq<Seq<char>>)
    ensures
        preorder_pairs(ps, d, p).len() == count_nodes(ps),
    decreases ps,
{
    if ps.len() > 0 {
        lemma_visit_count_pairs(ps.drop_last(), d, p);
        law_visit_count(ps.last().1, d, p.push(ps.last().0));
    }
}

/// A visit of the traversal of `n` started at depth `d` and path `p`: its path extends `p`,
/// following the extension from `n` reaches its node, and its depth grows with its path.
pub open spec fn reached_from(n: FsNode, d: nat, p: Seq<Seq<char>>, e: Visit) -> bool {
    &&& e.2.len() >= p.len()
    &&& e.2.take(p.len() as int) == p
    &&& lookup(n, e.2.skip(p.len() as int)) == Some(e.0)
    &&& e.1 == d + e.2.len() - p.len()
}

/// A visit under the children `ps`, each child at depth `d` and below path `p`.
pub open spec fn reached_under(ps: Seq<(Seq<char>, FsNode)>, d: nat, p: Seq<Seq<char>>, e: Visit) -> bool {
    &&& e.2.len() > p.len()
    &&& e.2.take(p.len() as int) == p
    &&& find_child(ps, e.2[p.len() as int]) matches Some(c)
    &&& lookup(c, e.2.skip(p.len() as int + 1)) == Some(e.0)
    &&& e.1 == d + e.2.len() - p.len() - 1
}

pub proof fn lemma_visits_reached(n: FsNode, d: nat, p: Seq<Seq<char>>)
    requires
        node_wf(n),
        no_dot_names(n),
    ensures
        forall|i: int|
            0 <= i < preorder(n, d, p).len() ==> reached_from(
                n,
                d,
                p,
                #[trigger] preorder(n, d, p)[i],
            ),
    decreases n,
{
    let s = preorder(n, d, p);
    assert(p.take(p.len() as int) == p);
    assert(p.skip(p.len() as int).len() == 0);
    match n {
        FsNode::Directory(ps) => {
            lemma_visits_under(ps, d + 1, p);
            let rest = preorder_pairs(ps, d + 1, p);
            assert forall|i: int| 0 <= i < s.len() implies reached_from(n, d, p, #[trigger] s[i]) by {
                if i > 0 {
                    let e = rest[i - 1];
                    assert(s[i] == e);
                    assert(reached_under(ps, d + 1, p, e));
                    let k = e.2[p.len() as int];
                    let q = e.2.skip(p.len() as int);
                    assert(q[0] == k);
                    assert(q.drop_first() =~= e.2.skip(p.len() as int + 1));
                    let i2 = crate::fs_tree::lemma_find_child_present(ps, k);
                    assert(ps[i2].0 != dot());
                }
            }
        },
        _ => {
            assert forall|i: int| 0 <= i < s.len() implies reached_from(n, d, p, #[trigger] s[i]) by {
                assert(i == 0);
            }
        },
    }
}

pub proof fn lemma_visits_under(ps: Seq<(Seq<char>, FsNode)>, d: nat, p: Seq<Seq<char>>)
    requires
        node_wf(FsNode::Directory(ps)),
        no_dot_names(FsNode::Directory(ps)),
    ensures
        forall|i: int|
            0 <= i < preorder_pairs(ps, d, p).len() ==> reached_under(
                ps,
                d,
                p,
                #[trigger] preorder_pairs(ps, d, p)[i],
            ),
    decreases ps,
{
    if ps.len() > 0 {
        let init = ps.drop_last();
        let last = ps.last();
        lemma_wf_drop_last(ps);
        assert(no_dot_names(FsNode::Directory(init))) by {
            assert forall|i: int| 0 <= i < init.len() implies (#[trigger] init[i]).0 != dot()
                && no_dot_names(init[i].1) by {
                assert(init[i] == ps[i]);
            }
        }
        assert(ps[ps.len() - 1] == last);
        assert(no_dot_names(last.1));
        lemma_visits_under(init, d, p);
        let pk = p.push(last.0);
        lemma_visits_reached(last.1, d, pk);
        lemma_find_child_at(ps, ps.len() - 1);
        let a = preorder_pairs(init, d, p);
        let b = preorder(last.1, d, pk);
        assert forall|i: int| 0 <= i < (a + b).len() implies reached_under(
            ps,
            d,
            p,
            #[trigger] (a + b)[i],
        ) by {
            if i < a.len() {
                let e = a[i];
                assert((a + b)[i] == e);
                assert(reached_under(init, d, p, e));
                let k = e.2[p.len() as int];
                let j = crate::fs_tree::lemma_find_child_present(init, k);
                assert(init[j] == ps[j]);
                lemma_find_child_at(ps, j);
            } else {
                let e = b[i - a.len()];
                assert((a + b)[i] == e);
                assert(reached_from(last.1, d, pk, e));
                assert(e.2.take(pk.len() as int) == pk);
                assert(e.2.take(p.len() as int) =~= pk.take(p.len() as int));
                assert(pk.take(p.len() as int) =~= p);
                assert(e.2[p.len() as int] == pk[p.len() as int]);
                assert(e.2.skip(pk.len() as int) == e.2.skip(p.len() as int + 1));
            }
        }
    }
}

/// Every visit of `t`'s traversal pairs a node with a path that leads to it, and its depth
/// is the length of that path (for trees where no child is named `.`).
pub proof fn law_visit_paths_lead_to_nodes(t: FsNode)
    requires
        node_wf(t),
        no_dot_names(t),
    ensures
        forall|i: int|
            0 <= i < preorder(t, 0, Seq::empty()).len() ==> {
                let e = #[trigger] preorder(t, 0, Seq::empty())[i];
                lookup(t, e.2) == Some(e.0) && e.1 == e.2.len()
            },
{
    lemma_visits_reached(t, 0, Seq::empty());
    assert forall|i: int| 0 <= i < preorder(t, 0, Seq::empty()).len() implies {
        let e = #[trigger] preorder(t, 0, Seq::empty())[i];
        lookup(t, e.2) == Some(e.0) && e.1 == e.2.len()
    } by {
        let e = preorder(t, 0, Seq::empty())[i];
        assert(reached_from(t, 0, Seq::empty(), e));
        assert(e.2.skip(0) == e.2);
    }
}

/// Paths ordered component by component, as `Path` orders them: at the first place where
/// they differ the smaller component comes first, and a path comes before its extensions.
pub open spec fn path_lt(p: Seq<Seq<char>>, q: Seq<Seq<char>>) -> bool
    decreases p.len(),
{
    if q.len() == 0 {
        false
    } else if p.len() == 0 {
        true
    } else if p[0] != q[0] {
        chars_lt(p[0], q[0])
    } else {
        path_lt(p.drop_first(), q.drop_first())
    }
}

pub proof fn lemma_path_lt_irreflexive(p: Seq<Seq<char>>)
    ensures
        !path_lt(p, p),
    decreases p.len(),
{
    if p.len() > 0 {
        lemma_path_lt_irreflexive(p.drop_first());
    }
}

/// A path comes before its proper extensions.
pub proof fn lemma_path_lt_extension(p: Seq<Seq<char>>, q: Seq<Seq<char>>)
    requires
        p.len() < q.len(),
        q.take(p.len() as int) == p,
    ensures
        path_lt(p, q),
    decreases p.len(),
{
    if p.len() > 0 {
        assert(q[0] == q.take(p.len() as int)[0]);
        assert(q.drop_first().take(p.len() - 1) =~= p.drop_first());
        lemma_path_lt_extension(p.drop_first(), q.drop_first());
    }
}

/// Two extensions of `p` are ordered by their components just after `p`, when these differ.
proof fn lemma_path_lt_fork(p: Seq<Seq<char>>, x: Seq<Seq<char>>, y: Seq<Seq<char>>)
    requires
        x.len() > p.len(),
        y.len() > p.len(),
        x.take(p.len() as int) == p,
        y.take(p.len() as int) == p,
        chars_lt(x[p.len() as int], y[p.len() as int]),
    ensures
        path_lt(x, y),
    decreases p.len(),
{
    if p.len() == 0 {
        lemma_chars_lt_irreflexive(x[0]);
    } else {
        assert(x[0] == x.take(p.len() as int)[0]);
        assert(y[0] == y.take(p.len() as int)[0]);
        assert(x.drop_first().take(p.len() - 1) =~= p.drop_first());
        assert(y.drop_first().take(p.len() - 1) =~= p.drop_first());
        lemma_path_lt_fork(p.drop_first(), x.drop_first(), y.drop_first());
    }
}

/// The paths of the traversal of `n` below `p` all extend `p`, and they strictly increase.
pub proof fn lemma_preorder_increasing(n: FsNode, d: nat, p: Seq<Seq<char>>)
    requires
        node_wf(n),
    ensures
        forall|i: int|
            0 <= i < preorder(n, d, p).len() ==> (#[trigger] preorder(n, d, p)[i]).2.len() >= p.len()
                && preorder(n, d, p)[i].2.take(p.len() as int) == p,
        forall|i: int, j: int|
            #![trigger preorder(n, d, p)[i], preorder(n, d, p)[j]]
            0 <= i < j < preorder(n, d, p).len() ==> path_lt(
                preorder(n, d, p)[i].2,
                preorder(n, d, p)[j].2,
            ),
    decreases n,
{
    let s = preorder(n, d, p);
    assert(p.take(p.len() as int) =~= p);
    match n {
        FsNode::Directory(ps) => {
            lemma_pairs_increasing(ps, d + 1, p);
            let rest = preorder_pairs(ps, d + 1, p);
            assert(s == seq![(n, d, p)] + rest);
            assert forall|i: int| 0 <= i < s.len() implies (#[trigger] s[i]).2.len() >= p.len()
                && s[i].2.take(p.len() as int) == p by {
                if i > 0 {
                    assert(s[i] == rest[i - 1]);
                }
            }
            assert forall|i: int, j: int| 0 <= i < j < s.len() implies path_lt(
                #[trigger] s[i].2,
                #[trigger] s[j].2,
            ) by {
                assert(s[j] == rest[j - 1]);
                if i == 0 {
                    lemma_path_lt_extension(p, s[j].2);
                } else {
                    assert(s[i] == rest[i - 1]);
                }
            }
        },
        _ => {},
    }
}

/// The paths of the traversal of the children `ps` below `p` each extend `p` by a name no
/// greater than the last child's, and they strictly increase.
pub proof fn lemma_pairs_increasing(ps: Seq<(Seq<char>, FsNode)>, d: nat, p: Seq<Seq<char>>)
    requires
        node_wf(FsNode::Directory(ps)),
    ensures
        forall|i: int|
            0 <= i < preorder_pairs(ps, d, p).len() ==> {
                let x = (#[trigger] preorder_pairs(ps, d, p)[i]).2;
                &&& x.len() > p.len()
                &&& x.take(p.len() as int) == p
                &&& (x[p.len() as int] == ps.last().0 || chars_lt(x[p.len() as int], ps.last().0))
            },
        forall|i: int, j: int|
            #![trigger preorder_pairs(ps, d, p)[i], preorder_pairs(ps, d, p)[j]]
            0 <= i < j < preorder_pairs(ps, d, p).len() ==> path_lt(
                preorder_pairs(ps, d, p)[i].2,
                preorder_pairs(ps, d, p)[j].2,
            ),
    decreases ps,
{
    if ps.len() > 0 {
        let init = ps.drop_last();
        let last = ps.last();
        let pk = p.push(last.0);
        lemma_wf_drop_last(ps);
        assert(ps[ps.len() - 1] == last);
        assert(node_wf(last.1));
        lemma_pairs_increasing(init, d, p);
        lemma_preorder_increasing(last.1, d, pk);
        let a = preorder_pairs(init, d, p);
        let b = preorder(last.1, d, pk);
        let s = a + b;
        assert(s == preorder_pairs(ps, d, p));
        assert(pk.take(p.len() as int) =~= p);
        assert forall|i: int| 0 <= i < s.len() implies {
            let x = (#[trigger] s[i]).2;
            &&& x.len() > p.len()
            &&& x.take(p.len() as int) == p
            &&& (x[p.len() as int] == last.0 || chars_lt(x[p.len() as int], last.0))
        } by {
            let x = s[i].2;
            if i < a.len() {
                assert(s[i] == a[i]);
                assert(init.len() > 0);
                assert(init.last() == ps[ps.len() - 2]);
                assert(chars_lt(ps[ps.len() - 2].0, ps[ps.len() - 1].0));
                if x[p.len() as int] != init.last().0 {
                    lemma_chars_lt_transitive(x[p.len() as int], init.last().0, last.0);
                }
            } else {
                assert(s[i] == b[i - a.len()]);
                assert(x.take(pk.len() as int) == pk);
                assert(x.take(p.len() as int) =~= pk.take(p.len() as int));
                assert(x[p.len() as int] == x.take(pk.len() as int)[p.len() as int]);
            }
        }
        assert forall|i: int, j: int| 0 <= i < j < s.len() implies path_lt(
            #[trigger] s[i].2,
            #[trigger] s[j].2,
        ) by {
            if j < a.len() {
                assert(s[i] == a[i] && s[j] == a[j]);
            } else if i >= a.len() {
                assert(s[i] == b[i - a.len()] && s[j] == b[j - a.len()]);
            } else {
                assert(s[i] == a[i] && s[j] == b[j - a.len()]);
                let x = s[i].2;
                let y = s[j].2;
                assert(init.last() == ps[ps.len() - 2]);
                assert(chars_lt(ps[ps.len() - 2].0, ps[ps.len() - 1].0));
                if x[p.len() as int] != init.last().0 {
                    lemma_chars_lt_transitive(x[p.len() as int], init.last().0, last.0);
                }
                assert(y.take(pk.len() as int) == pk);
                assert(y.take(p.len() as int) =~= pk.take(p.len() as int));
                assert(y[p.len() as int] == y.take(pk.len() as int)[p.len() as int]);
                lemma_path_lt_fork(p, x, y);
            }
        }
    }
}

/// The paths that `FsTree::paths` yields strictly increase in the component order of
/// `Path`, the root's empty path first: a depth-first traversal that takes children in
/// name order, with no path twice.
pub proof fn law_paths_increase(t: FsNode)
    requires
        node_wf(t),
    ensures
        preorder(t, 0, Seq::empty())[0].2 == Seq::<Seq<char>>::empty(),
        forall|i: int, j: int|
            #![trigger preorder(t, 0, Seq::empty())[i], preorder(t, 0, Seq::empty())[j]]
            0 <= i < j < preorder(t, 0, Seq::empty()).len() ==> path_lt(
                preorder(t, 0, Seq::empty())[i].2,
                preorder(t, 0, Seq::empty())[j].2,
            ),
{
    lemma_preorder_increasing(t, 0, Seq::empty());
}

/// The number of visits that the filters drop before one passes is at most the number of
/// visits; each visit it counts fails the filters, and the visit after them, if any,
/// passes.
pub proof fn lemma_dropped_before(f: Filters, s: Seq<Visit>)
    ensures
        dropped_before(f, s) <= s.len(),
        forall|j: int| 0 <= j < dropped_before(f, s) ==> !passes(f, #[trigger] s[j]),
        dropped_before(f, s) < s.len() ==> passes(f, s[dropped_before(f, s) as int]),
    decreases s.len(),
{
    if s.len() > 0 && !passes(f, s[0]) {
        let r = s.drop_first();
        lemma_dropped_before(f, r);
        assert forall|j: int| 0 <= j < dropped_before(f, s) implies !passes(f, #[trigger] s[j]) by {
            if j > 0 {
                assert(s[j] == r[j - 1]);
            }
        }
        if dropped_before(f, s) < s.len() {
            assert(s[dropped_before(f, s) as int] == r[dropped_before(f, r) as int]);
        }
    }
}

/// What an iterator over `t` yields next, from any point of its traversal and under any
/// filters, passes the filters and is a node of `t` reached by its path, at the depth of
/// that path; every visit passed over before it fails the filters (for trees where no
/// child is named `.`).
pub proof fn law_yielded_items_pass_filters(t: FsNode, f: Filters, m: int)
    requires
        node_wf(t),
        no_dot_names(t),
        0 <= m <= preorder(t, 0, Seq::empty()).len(),
    ensures
        ({
            let s = preorder(t, 0, Seq::empty()).skip(m);
            let k = dropped_before(f, s) as int;
            &&& forall|j: int| 0 <= j < k ==> !passes(f, #[trigger] s[j])
            &&& k < s.len() ==> {
                &&& passes(f, s[k])
                &&& lookup(t, s[k].2) == Some(s[k].0)
                &&& s[k].1 == s[k].2.len()
            }
        }),
{
    let all = preorder(t, 0, Seq::empty());
    let s = all.skip(m);
    lemma_dropped_before(f, s);
    law_visit_paths_lead_to_nodes(t);
    let k = dropped_before(f, s) as int;
    if k < s.len() {
        assert(s[k] == all[m + k]);
    }
}

/// No two paths each come before the other.
pub proof fn lemma_path_lt_asymmetric(p: Seq<Seq<char>>, q: Seq<Seq<char>>)
    ensures
        !(path_lt(p, q) && path_lt(q, p)),
    decreases p.len(),
{
    if p.len() > 0 && q.len() > 0 {
        if p[0] != q[0] {
            lemma_chars_lt_trichotomy(p[0], q[0]);
        } else {
            lemma_path_lt_asymmetric(p.drop_first(), q.drop_first());
        }
    }
}

/// Every visit of the traversal of `n` below `p` but the first comes after the visit of its
/// parent.
pub proof fn lemma_preorder_parents(n: FsNode, d: nat, p: Seq<Seq<char>>)
    ensures
        forall|j: int|
            0 < j < preorder(n, d, p).len() ==> exists|i: int|
                0 <= i < j && (#[trigger] preorder(n, d, p)[i]).2 == (#[trigger] preorder(
                    n,
                    d,
                    p,
                )[j]).2.drop_last(),
    decreases n,
{
    let s = preorder(n, d, p);
    if let FsNode::Directory(ps) = n {
        lemma_pairs_parents(ps, d + 1, p);
        let rest = preorder_pairs(ps, d + 1, p);
        assert forall|j: int| 0 < j < s.len() implies exists|i: int|
            0 <= i < j && (#[trigger] s[i]).2 == (#[trigger] s[j]).2.drop_last() by {
            assert(s[j] == rest[j - 1]);
            if rest[j - 1].2.drop_last() == p {
                assert(s[0].2 == p);
            } else {
                let i2 = choose|i: int|
                    0 <= i < j - 1 && (#[trigger] rest[i]).2 == (#[trigger] rest[j - 1]).2.drop_last();
                assert(s[i2 + 1] == rest[i2]);
            }
        }
    }
}

/// Every visit of the traversal of the children `ps` below `p` is of a child of `p`, or
/// comes after the visit of its parent.
pub proof fn lemma_pairs_parents(ps: Seq<(Seq<char>, FsNode)>, d: nat, p: Seq<Seq<char>>)
    ensures
        forall|j: int|
            0 <= j < preorder_pairs(ps, d, p).len() ==> (#[trigger] preorder_pairs(ps, d, p)[j]).2.drop_last()
                == p || exists|i: int|
                0 <= i < j && (#[trigger] preorder_pairs(ps, d, p)[i]).2 == preorder_pairs(
                    ps,
                    d,
                    p,
                )[j].2.drop_last(),
    decreases ps,
{
    if ps.len() > 0 {
        let init = ps.drop_last();
        let last = ps.last();
        let pk = p.push(last.0);
        lemma_pairs_parents(init, d, p);
        lemma_preorder_parents(last.1, d, pk);
        let a = preorder_pairs(init, d, p);
        let b = preorder(last.1, d, pk);
        let s = a + b;
        assert(s == preorder_pairs(ps, d, p));
        assert forall|j: int| 0 <= j < s.len() implies (#[trigger] s[j]).2.drop_last() == p
            || exists|i: int| 0 <= i < j && (#[trigger] s[i]).2 == s[j].2.drop_last() by {
            if j < a.len() {
                assert(s[j] == a[j]);
                if a[j].2.drop_last() != p {
                    let i2 = choose|i: int|
                        0 <= i < j && (#[trigger] a[i]).2 == a[j].2.drop_last();
                    assert(s[i2] == a[i2]);
                }
            } else {
                let j2 = j - a.len();
                assert(s[j] == b[j2]);
                if j2 == 0 {
                    assert(b[0].2 == pk);
                    assert(pk.drop_last() =~= p);
                } else {
                    let i2 = choose|i: int|
                        0 <= i < j2 && (#[trigger] b[i]).2 == (#[trigger] b[j2]).2.drop_last();
                    assert(s[a.len() + i2] == b[i2]);
                }
            }
        }
    }
}

/// The number of visits in `vs` whose node is a leaf.
pub open spec fn leaf_visits(vs: Seq<Visit>) -> nat
    decreases vs.len(),
{
    if vs.len() == 0 {
        0
    } else {
        leaf_visits(vs.drop_last()) + if is_leaf_node(vs.last().0) {
            1nat
        } else {
            0nat
        }
    }
}

proof fn lemma_leaf_visits_concat(a: Seq<Visit>, b: Seq<Visit>)
    ensures
        leaf_visits(a + b) == leaf_visits(a) + leaf_visits(b),
    decreases b.len(),
{
    if b.len() == 0 {
        assert(a + b =~= a);
    } else {
        lemma_leaf_visits_concat(a, b.drop_last());
        assert((a + b).drop_last() =~= a + b.drop_last());
        assert((a + b).last() == b.last());
    }
}

pub proof fn lemma_leaf_visits_preorder(n: FsNode, d: nat, p: Seq<Seq<char>>)
    ensures
        leaf_visits(preorder(n, d, p)) == leaf_count(n),
    decreases n,
{
    let first = seq![(n, d, p)];
    assert(first.drop_last() =~= Seq::<Visit>::empty());
    assert(leaf_visits(first.drop_last()) == 0);
    assert(first.last() == (n, d, p));
    assert(leaf_visits(first) == if is_leaf_node(n) { 1nat } else { 0nat });
    match n {
        FsNode::Directory(ps) => {
            lemma_leaf_visits_pairs(ps, d + 1, p);
            lemma_leaf_visits_concat(first, preorder_pairs(ps, d + 1, p));
        },
        _ => {
            assert(preorder(n, d, p) =~= first);
        },
    }
}

pub proof fn lemma_leaf_visits_pairs(ps: Seq<(Seq<char>, FsNode)>, d: nat, p: Seq<Seq<char>>)
    ensures
        leaf_visits(preorder_pairs(ps, d, p)) == count_leaves(ps),
    decreases ps,
{
    if ps.len() > 0 {
        let last = ps.last();
        assert(ps[ps.len() - 1] == last);
        lemma_leaf_visits_pairs(ps.drop_last(), d, p);
        lemma_leaf_visits_preorder(last.1, d, p.push(last.0));
        lemma_leaf_visits_concat(
            preorder_pairs(ps.drop_last(), d, p),
            preorder(last.1, d, p.push(last.0)),
        );
    }
}

/// `FsTree::len_leafs` counts exactly the nodes that `FsTree::nodes` yields and that are
/// leaves (`FsTree::is_leaf`: a regular file, a symlink, or an empty directory).
pub proof fn law_len_leafs_counts_leaf_nodes(t: FsNode)
    ensures
        leaf_count(t) == leaf_visits(preorder(t, 0, Seq::empty())),
{
    lemma_leaf_visits_preorder(t, 0, Seq::empty());
}

/// What an iterator yields next obeys each of its filters: with `skip_regular_files` on it
/// is no regular file, with `skip_dirs` on no directory, with `skip_symlinks` on no
/// symlink, and its depth lies between `min_depth` and `max_depth`; every visit passed
/// over before it breaks one of them.
pub proof fn law_yielded_item_obeys_each_filter(f: Filters, s: Seq<Visit>)
    ensures
        ({
            let k = dropped_before(f, s) as int;
            &&& k < s.len() ==> {
                &&& f.skip_regular_files ==> !(s[k].0 is Regular)
                &&& f.skip_dirs ==> !(s[k].0 is Directory)
                &&& f.skip_symlinks ==> !(s[k].0 is Symlink)
                &&& f.min_depth <= s[k].1 <= f.max_depth
            }
            &&& forall|j: int|
                0 <= j < k ==> (f.skip_regular_files && (#[trigger] s[j]).0 is Regular) || (
                f.skip_dirs && s[j].0 is Directory) || (f.skip_symlinks && s[j].0 is Symlink)
                    || s[j].1 < f.min_depth || s[j].1 > f.max_depth
        }),
{
    lemma_dropped_before(f, s);
}

} // verus!
