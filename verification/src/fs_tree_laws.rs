//! Laws of `FsTree`: what its operations promise together.
use vstd::prelude::*;

use crate::fs_tree::{
    can_insert, conflict_pairs, conflicts, find_child, insert_at, lemma_child_wf,
    lemma_find_child_at, lemma_find_child_present, lemma_put_child,
    lemma_put_child_wf, lemma_wf_drop_last, lookup, merge_nodes, merge_pairs, node_wf, replace_at,
    sorted_keys, FsNode,
};
use crate::structure::{dot_free, lemma_undot, undot};
use crate::text::{
    chars_lt, dot, keep_named, lemma_chars_lt_irreflexive, lemma_chars_lt_trichotomy,
    lemma_split_slash_len, path_components, split_slash,
};

verus! {

/// Following `comps` after placing `v` at `comps` reaches `v`, when the last component is
/// not `.`.
pub proof fn lemma_lookup_insert_at(t: FsNode, comps: Seq<Seq<char>>, v: FsNode)
    requires
        node_wf(t),
        can_insert(t, comps),
        comps.len() > 0 ==> comps.last() != dot(),
    ensures
        lookup(insert_at(t, comps, v), comps) == Some(v),
    decreases comps.len(),
{
    if comps.len() == 0 {
    } else if comps.len() == 1 {
        assert(comps[0] == comps.last());
        assert(comps.drop_last().len() == 0);
        assert(lookup(t, comps.drop_last()) == Some(t));
        if let FsNode::Directory(ps) = t {
            lemma_put_child(ps, comps[0], v);
            assert(insert_at(t, comps, v) == FsNode::Directory(
                crate::fs_tree::put_child(ps, comps[0], v),
            ));
        }
        assert(comps.drop_first().len() == 0);
        assert(lookup(v, comps.drop_first()) == Some(v));
    } else {
        assert(comps.drop_last()[0] == comps[0]);
        let rest = comps.drop_first();
        assert(comps.drop_last().drop_first() =~= rest.drop_last());
        assert(rest.last() == comps.last());
        if comps[0] == dot() {
            lemma_lookup_insert_at(t, rest, v);
        } else {
            if let FsNode::Directory(ps) = t {
                let c = find_child(ps, comps[0])->0;
                lemma_child_wf(ps, comps[0]);
                lemma_lookup_insert_at(c, rest, v);
                lemma_put_child(ps, comps[0], insert_at(c, rest, v));
            }
        }
    }
}

pub proof fn lemma_keep_named_no_dot(raw: Seq<Seq<char>>)
    ensures
        forall|i: int|
            0 <= i < keep_named(raw).len() ==> #[trigger] keep_named(raw)[i] != dot(),
    decreases raw.len(),
{
    if raw.len() > 0 {
        let r = keep_named(raw.drop_last());
        lemma_keep_named_no_dot(raw.drop_last());
        let p = raw.last();
        if !(p.len() == 0 || p == dot()) {
            assert forall|i: int| 0 <= i < r.push(p).len() implies #[trigger] r.push(p)[i]
                != dot() by {
                if i < r.len() {
                    assert(r.push(p)[i] == r[i]);
                }
            }
        }
    }
}

/// The components of a path text are never `.` but when the path is just `.`.
pub proof fn lemma_components_last_not_dot(s: Seq<char>)
    requires
        path_components(s) != seq![dot()],
    ensures
        path_components(s).len() > 0 ==> path_components(s).last() != dot(),
{
    lemma_split_slash_len(s);
    let raw = split_slash(s);
    let tail = keep_named(raw.drop_first());
    lemma_keep_named_no_dot(raw.drop_first());
    let c = path_components(s);
    if tail.len() > 0 {
        assert(c.last() == tail[tail.len() - 1]);
    } else if c.len() > 0 {
        if s.len() > 0 && s[0] == '/' {
            assert(c.last() == seq!['/']);
            assert(seq!['/'][0] != dot()[0]);
        } else {
            assert(c =~= seq![raw[0]]);
        }
    }
}

/// What a read gives back of a write: after `t.insert(path, v)`, `t.get(path)` is `v`
/// (the path `.` alone excepted: `insert` takes it as a child named `.`, `get` as the tree
/// itself).
pub proof fn law_get_after_insert(t: FsNode, path: Seq<char>, v: FsNode)
    requires
        node_wf(t),
        can_insert(t, path_components(path)),
        path_components(path) != seq![dot()],
    ensures
        lookup(insert_at(t, path_components(path), v), path_components(path)) == Some(v),
{
    lemma_components_last_not_dot(path);
    lemma_lookup_insert_at(t, path_components(path), v);
}

/// Placing a node at `p` leaves every other place as it was: a path `q` that is neither a
/// prefix nor an extension of `p` reaches the same node, or none, before and after.
pub proof fn law_insert_keeps_other_paths(
    t: FsNode,
    p: Seq<Seq<char>>,
    q: Seq<Seq<char>>,
    v: FsNode,
)
    requires
        node_wf(t),
        p.len() > 0,
        can_insert(t, p),
        dot_free(p),
        dot_free(q),
        !p.is_prefix_of(q),
        !q.is_prefix_of(p),
    ensures
        lookup(insert_at(t, p, v), q) == lookup(t, q),
    decreases p.len(),
{
    assert(q.len() > 0) by {
        if q.len() == 0 {
            assert(q =~= p.subrange(0, 0));
        }
    }
    assert(p[0] != dot());
    assert(q[0] != dot());
    if let FsNode::Directory(ps) = t {
        if p.len() == 1 {
            if q[0] == p[0] {
                assert(p =~= q.subrange(0, 1));
            }
            lemma_put_child(ps, p[0], v);
        } else {
            assert(p.drop_last()[0] == p[0]);
            if let Some(c) = find_child(ps, p[0]) {
                let p2 = p.drop_first();
                lemma_put_child(ps, p[0], insert_at(c, p2, v));
                if q[0] == p[0] {
                    let q2 = q.drop_first();
                    lemma_child_wf(ps, p[0]);
                    assert(p.drop_last().drop_first() =~= p2.drop_last());
                    assert(dot_free(p2)) by {
                        assert forall|i: int| 0 <= i < p2.len() implies #[trigger] p2[i] != dot() by {
                            assert(p2[i] == p[i + 1]);
                        }
                    }
                    assert(dot_free(q2)) by {
                        assert forall|i: int| 0 <= i < q2.len() implies #[trigger] q2[i] != dot() by {
                            assert(q2[i] == q[i + 1]);
                        }
                    }
                    assert(!p2.is_prefix_of(q2)) by {
                        if p2.is_prefix_of(q2) {
                            assert(p =~= q.subrange(0, p.len() as int)) by {
                                assert forall|i: int| 0 <= i < p.len() implies p[i] == q.subrange(
                                    0,
                                    p.len() as int,
                                )[i] by {
                                    if i > 0 {
                                        assert(p[i] == p2[i - 1]);
                                        assert(q2.subrange(0, p2.len() as int)[i - 1] == q2[i - 1]);
                                    }
                                }
                            }
                        }
                    }
                    assert(!q2.is_prefix_of(p2)) by {
                        if q2.is_prefix_of(p2) {
                            assert(q =~= p.subrange(0, q.len() as int)) by {
                                assert forall|i: int| 0 <= i < q.len() implies q[i] == p.subrange(
                                    0,
                                    q.len() as int,
                                )[i] by {
                                    if i > 0 {
                                        assert(q[i] == q2[i - 1]);
                                        assert(p2.subrange(0, q2.len() as int)[i - 1] == p2[i - 1]);
                                    }
                                }
                            }
                        }
                    }
                    law_insert_keeps_other_paths(c, p2, q2, v);
                }
            }
        }
    }
}

/// Merging a tree with itself gives the same tree.
pub proof fn law_merge_idempotent(t: FsNode)
    requires
        node_wf(t),
    ensures
        merge_nodes(t, t) == t,
    decreases t,
{
    if let FsNode::Directory(ps) = t {
        lemma_merge_pairs_self(ps);
    }
}

pub proof fn lemma_merge_pairs_self(ps: Seq<(Seq<char>, FsNode)>)
    requires
        node_wf(FsNode::Directory(ps)),
    ensures
        merge_pairs(ps, ps) == ps,
    decreases ps,
{
    if ps.len() > 0 {
        lemma_wf_drop_last(ps);
        lemma_chars_lt_irreflexive(ps.last().0);
        lemma_merge_pairs_self(ps.drop_last());
        law_merge_idempotent(ps.last().1);
        assert(ps.drop_last().push(ps.last()) == ps);
    }
}

/// When the trees conflict at their root (they are not both directories), merging keeps
/// the left tree unchanged.
pub proof fn law_merge_keeps_left_on_conflict(l: FsNode, r: FsNode)
    requires
        !(l is Directory && r is Directory),
    ensures
        merge_nodes(l, r) == l,
        conflicts(l, r),
{
}

/// `conflict_pairs` holds exactly when two children of the same name conflict.
pub proof fn lemma_conflict_pairs_exists(a: Seq<(Seq<char>, FsNode)>, b: Seq<(Seq<char>, FsNode)>)
    requires
        sorted_keys(a),
    ensures
        conflict_pairs(a, b) <==> exists|i: int, j: int|
            0 <= i < a.len() && 0 <= j < b.len() && #[trigger] a[i].0 == #[trigger] b[j].0
                && conflicts(a[i].1, b[j].1),
    decreases b.len(),
{
    if b.len() > 0 {
        let d = b.drop_last();
        lemma_conflict_pairs_exists(a, d);
        let n = b.len() - 1;
        if conflict_pairs(a, b) {
            if conflict_pairs(a, d) {
                let (i, j) = choose|i: int, j: int|
                    0 <= i < a.len() && 0 <= j < d.len() && #[trigger] a[i].0 == #[trigger] d[j].0
                        && conflicts(a[i].1, d[j].1);
                assert(d[j] == b[j]);
                assert(a[i].0 == b[j].0);
            } else {
                let i = lemma_find_child_present(a, b[n].0);
                assert(a[i].0 == b[n].0);
            }
        }
        if exists|i: int, j: int|
            0 <= i < a.len() && 0 <= j < b.len() && #[trigger] a[i].0 == #[trigger] b[j].0
                && conflicts(a[i].1, b[j].1) {
            let (i, j) = choose|i: int, j: int|
                0 <= i < a.len() && 0 <= j < b.len() && #[trigger] a[i].0 == #[trigger] b[j].0
                    && conflicts(a[i].1, b[j].1);
            if j < n {
                assert(d[j] == b[j]);
                assert(a[i].0 == d[j].0);
            } else {
                lemma_find_child_at(a, i);
            }
        }
    }
}

/// Conflicts are symmetric: merging `r` into `l` meets a conflict exactly when merging `l`
/// into `r` does.
pub proof fn law_conflicts_symmetric(l: FsNode, r: FsNode)
    requires
        node_wf(l),
        node_wf(r),
    ensures
        conflicts(l, r) == conflicts(r, l),
    decreases l, r,
{
    if let FsNode::Directory(a) = l {
        if let FsNode::Directory(b) = r {
            lemma_conflict_pairs_exists(a, b);
            lemma_conflict_pairs_exists(b, a);
            assert forall|i: int, j: int| 0 <= i < a.len() && 0 <= j < b.len() implies conflicts(
                a[i].1,
                b[j].1,
            ) == conflicts(b[j].1, a[i].1) by {
                assert(node_wf(a[i].1));
                assert(node_wf(b[j].1));
                law_conflicts_symmetric(a[i].1, b[j].1);
            }
            if conflicts(l, r) {
                let (i, j) = choose|i: int, j: int|
                    0 <= i < a.len() && 0 <= j < b.len() && #[trigger] a[i].0 == #[trigger] b[j].0
                        && conflicts(a[i].1, b[j].1);
                assert(b[j].0 == a[i].0);
            }
            if conflicts(r, l) {
                let (j, i) = choose|j: int, i: int|
                    0 <= j < b.len() && 0 <= i < a.len() && #[trigger] b[j].0 == #[trigger] a[i].0
                        && conflicts(b[j].1, a[i].1);
                assert(a[i].0 == b[j].0);
            }
        }
    }
}

pub proof fn lemma_no_conflict_drop_last(a: Seq<(Seq<char>, FsNode)>, b: Seq<(Seq<char>, FsNode)>)
    requires
        node_wf(FsNode::Directory(a)),
        a.len() > 0,
        !conflict_pairs(a, b),
    ensures
        !conflict_pairs(a.drop_last(), b),
{
    let d = a.drop_last();
    lemma_wf_drop_last(a);
    lemma_conflict_pairs_exists(a, b);
    lemma_conflict_pairs_exists(d, b);
    if conflict_pairs(d, b) {
        let (i, j) = choose|i: int, j: int|
            0 <= i < d.len() && 0 <= j < b.len() && #[trigger] d[i].0 == #[trigger] b[j].0
                && conflicts(d[i].1, b[j].1);
        assert(d[i] == a[i]);
        assert(a[i].0 == b[j].0);
    }
}

/// Without conflicts, merging is commutative: `l.merge(r)` and `r.merge(l)` are the same tree.
pub proof fn law_merge_commutes_without_conflict(l: FsNode, r: FsNode)
    requires
        node_wf(l),
        node_wf(r),
        !conflicts(l, r),
    ensures
        merge_nodes(l, r) == merge_nodes(r, l),
    decreases l, r,
{
    if let FsNode::Directory(a) = l {
        if let FsNode::Directory(b) = r {
            lemma_merge_pairs_commute(a, b);
        }
    }
}

pub proof fn lemma_merge_pairs_commute(a: Seq<(Seq<char>, FsNode)>, b: Seq<(Seq<char>, FsNode)>)
    requires
        node_wf(FsNode::Directory(a)),
        node_wf(FsNode::Directory(b)),
        !conflict_pairs(a, b),
    ensures
        merge_pairs(a, b) == merge_pairs(b, a),
    decreases a, b,
{
    if a.len() > 0 && b.len() > 0 {
        lemma_wf_drop_last(a);
        lemma_wf_drop_last(b);
        lemma_chars_lt_trichotomy(a.last().0, b.last().0);
        if chars_lt(b.last().0, a.last().0) {
            lemma_no_conflict_drop_last(a, b);
            lemma_merge_pairs_commute(a.drop_last(), b);
        } else if chars_lt(a.last().0, b.last().0) {
            lemma_merge_pairs_commute(a, b.drop_last());
        } else {
            lemma_find_child_at(a, a.len() - 1);
            assert(a[a.len() - 1] == a.last());
            lemma_no_conflict_drop_last(a, b.drop_last());
            lemma_merge_pairs_commute(a.drop_last(), b.drop_last());
            law_merge_commutes_without_conflict(a.last().1, b.last().1);
        }
    }
}

/// Changing a node in place through `FsTree::get_mut` keeps the tree well formed, when the
/// new node is.
pub proof fn law_get_mut_keeps_wf(t: FsNode, comps: Seq<Seq<char>>, v: FsNode)
    requires
        node_wf(t),
        node_wf(v),
    ensures
        node_wf(replace_at(t, comps, v)),
    decreases comps.len(),
{
    if comps.len() > 0 {
        if comps[0] == dot() {
            law_get_mut_keeps_wf(t, comps.drop_first(), v);
        } else if let FsNode::Directory(ps) = t {
            if let Some(c) = find_child(ps, comps[0]) {
                lemma_child_wf(ps, comps[0]);
                law_get_mut_keeps_wf(c, comps.drop_first(), v);
                lemma_put_child_wf(ps, comps[0], replace_at(c, comps.drop_first(), v));
            }
        }
    }
}

/// What is written through `FsTree::get_mut` is what `FsTree::get` then finds at the same
/// path.
pub proof fn law_get_after_get_mut(t: FsNode, comps: Seq<Seq<char>>, v: FsNode)
    requires
        node_wf(t),
        lookup(t, comps) is Some,
    ensures
        lookup(replace_at(t, comps, v), comps) == Some(v),
    decreases comps.len(),
{
    if comps.len() > 0 {
        if comps[0] == dot() {
            law_get_after_get_mut(t, comps.drop_first(), v);
        } else if let FsNode::Directory(ps) = t {
            let c = find_child(ps, comps[0])->0;
            lemma_child_wf(ps, comps[0]);
            law_get_after_get_mut(c, comps.drop_first(), v);
            lemma_put_child(ps, comps[0], replace_at(c, comps.drop_first(), v));
        }
    }
}

/// Indexing is relative: following `p` and then `q` from the node reached reaches what
/// following `p` then `q` in one path reaches (`root["a"]["b"] == root["a/b"]`).
pub proof fn law_get_composes(t: FsNode, p: Seq<Seq<char>>, q: Seq<Seq<char>>)
    ensures
        lookup(t, p + q) == match lookup(t, p) {
            Some(n) => lookup(n, q),
            None => None,
        },
    decreases p.len(),
{
    if p.len() == 0 {
        assert(p + q =~= q);
    } else {
        assert((p + q)[0] == p[0]);
        assert((p + q).drop_first() =~= p.drop_first() + q);
        if p[0] == dot() {
            law_get_composes(t, p.drop_first(), q);
        } else if let FsNode::Directory(ps) = t {
            if let Some(c) = find_child(ps, p[0]) {
                law_get_composes(c, p.drop_first(), q);
            }
        }
    }
}

/// No child of the sorted `ps` is named `k` when `k` comes after the last name.
proof fn lemma_find_child_after_last(ps: Seq<(Seq<char>, FsNode)>, k: Seq<char>)
    requires
        sorted_keys(ps),
        ps.len() > 0,
        chars_lt(ps.last().0, k),
    ensures
        find_child(ps, k) is None,
{
    assert forall|i: int| 0 <= i < ps.len() implies (#[trigger] ps[i]).0 != k by {
        if i < ps.len() - 1 {
            assert(chars_lt(ps[i].0, ps[ps.len() - 1].0));
            crate::text::lemma_chars_lt_transitive(ps[i].0, ps.last().0, k);
        }
        lemma_chars_lt_irreflexive(k);
    }
    crate::fs_tree::lemma_find_child_absent(ps, k);
}

/// The child named `k` of two merged child sequences: the merge of both children where both
/// sides have one, else the one child there is.
pub proof fn lemma_find_child_merge(
    a: Seq<(Seq<char>, FsNode)>,
    b: Seq<(Seq<char>, FsNode)>,
    k: Seq<char>,
)
    requires
        node_wf(FsNode::Directory(a)),
        node_wf(FsNode::Directory(b)),
    ensures
        find_child(merge_pairs(a, b), k) == match find_child(a, k) {
            Some(x) => match find_child(b, k) {
                Some(y) => Some(merge_nodes(x, y)),
                None => Some(x),
            },
            None => find_child(b, k),
        },
    decreases a, b,
{
    if a.len() > 0 && b.len() > 0 {
        lemma_wf_drop_last(a);
        lemma_wf_drop_last(b);
        lemma_chars_lt_trichotomy(a.last().0, b.last().0);
        lemma_chars_lt_irreflexive(k);
        if chars_lt(b.last().0, a.last().0) {
            let m = merge_pairs(a.drop_last(), b);
            assert(merge_pairs(a, b) == m.push(a.last()));
            assert(m.push(a.last()).drop_last() =~= m);
            lemma_find_child_merge(a.drop_last(), b, k);
            if k == a.last().0 {
                lemma_find_child_after_last(b, k);
            }
        } else if chars_lt(a.last().0, b.last().0) {
            let m = merge_pairs(a, b.drop_last());
            assert(merge_pairs(a, b) == m.push(b.last()));
            assert(m.push(b.last()).drop_last() =~= m);
            lemma_find_child_merge(a, b.drop_last(), k);
            if k == b.last().0 {
                lemma_find_child_after_last(a, k);
            }
        } else {
            let m = merge_pairs(a.drop_last(), b.drop_last());
            let e = (a.last().0, merge_nodes(a.last().1, b.last().1));
            assert(merge_pairs(a, b) == m.push(e));
            assert(m.push(e).drop_last() =~= m);
            assert(a.last().0 == b.last().0);
            lemma_find_child_merge(a.drop_last(), b.drop_last(), k);
        }
    }
}

/// Merging keeps what the left tree holds: every path that reaches a node in `l` reaches
/// one in `l.merge(r)`, the very same node where `l` has no directory there, and a
/// directory where `l` has one.
pub proof fn law_merge_keeps_left(l: FsNode, r: FsNode, p: Seq<Seq<char>>)
    requires
        node_wf(l),
        node_wf(r),
        lookup(l, p) is Some,
    ensures
        lookup(merge_nodes(l, r), p) matches Some(z) && (lookup(l, p)->0 is Directory ==> z is Directory)
            && (!(lookup(l, p)->0 is Directory) ==> z == lookup(l, p)->0),
    decreases p.len(),
{
    if p.len() == 0 {
    } else if p[0] == dot() {
        law_merge_keeps_left(l, r, p.drop_first());
    } else if let FsNode::Directory(a) = l {
        let c = find_child(a, p[0])->0;
        lemma_child_wf(a, p[0]);
        if let FsNode::Directory(b) = r {
            lemma_find_child_merge(a, b, p[0]);
            match find_child(b, p[0]) {
                Some(y) => {
                    lemma_child_wf(b, p[0]);
                    law_merge_keeps_left(c, y, p.drop_first());
                },
                None => {},
            }
        }
    }
}

/// Without conflicts, merging also keeps what the right tree holds: every path that
/// reaches a node in `r` reaches one in `l.merge(r)`, the very same node where `r` has no
/// directory there.
pub proof fn law_merge_keeps_right_without_conflict(l: FsNode, r: FsNode, p: Seq<Seq<char>>)
    requires
        node_wf(l),
        node_wf(r),
        !conflicts(l, r),
        lookup(r, p) is Some,
    ensures
        lookup(merge_nodes(l, r), p) matches Some(z) && (lookup(r, p)->0 is Directory ==> z is Directory)
            && (!(lookup(r, p)->0 is Directory) ==> z == lookup(r, p)->0),
{
    law_merge_commutes_without_conflict(l, r);
    law_merge_keeps_left(r, l, p);
}

/// Whether `l` and `r` both have a node at `p` and the two are not both directories: the
/// place where merging them meets a conflict.
pub open spec fn clash_at(l: FsNode, r: FsNode, p: Seq<Seq<char>>) -> bool {
    &&& lookup(l, p) is Some
    &&& lookup(r, p) is Some
    &&& !(lookup(l, p)->0 is Directory && lookup(r, p)->0 is Directory)
}

/// A clash found below a pair of children of the same name is a conflict of the two
/// trees.
proof fn lemma_clash_conflicts(l: FsNode, r: FsNode, p: Seq<Seq<char>>)
    requires
        node_wf(l),
        node_wf(r),
        dot_free(p),
        clash_at(l, r, p),
    ensures
        conflicts(l, r),
    decreases p.len(),
{
    if p.len() > 0 {
        assert(p[0] != dot());
        if let FsNode::Directory(a) = l {
            if let FsNode::Directory(b) = r {
                let x = find_child(a, p[0])->0;
                let y = find_child(b, p[0])->0;
                let p2 = p.drop_first();
                lemma_child_wf(a, p[0]);
                lemma_child_wf(b, p[0]);
                assert(dot_free(p2)) by {
                    assert forall|i: int| 0 <= i < p2.len() implies #[trigger] p2[i] != dot() by {
                        assert(p2[i] == p[i + 1]);
                    }
                }
                lemma_clash_conflicts(x, y, p2);
                let i = lemma_find_child_present(a, p[0]);
                let j = lemma_find_child_present(b, p[0]);
                lemma_conflict_pairs_exists(a, b);
                assert(a[i].0 == b[j].0 && conflicts(a[i].1, b[j].1));
            }
        }
    }
}

/// Whether `l` and `r` never both have a child named `.` at the same place (a name that
/// `lookup` skips).
pub open spec fn no_shared_dot(l: FsNode, r: FsNode) -> bool
    decreases l,
{
    match l {
        FsNode::Directory(a) => match r {
            FsNode::Directory(b) => forall|i: int, j: int|
                #![trigger a[i], b[j]]
                0 <= i < a.len() && 0 <= j < b.len() && a[i].0 == b[j].0 ==> a[i].0 != dot()
                    && no_shared_dot(a[i].1, b[j].1),
            _ => true,
        },
        _ => true,
    }
}

/// A path where two conflicting trees clash, when they never both have a child named `.`
/// at the same place.
proof fn lemma_conflict_witness(l: FsNode, r: FsNode) -> (p: Seq<Seq<char>>)
    requires
        node_wf(l),
        node_wf(r),
        no_shared_dot(l, r),
        conflicts(l, r),
    ensures
        clash_at(l, r, p),
    decreases l,
{
    if let FsNode::Directory(a) = l {
        if let FsNode::Directory(b) = r {
            lemma_conflict_pairs_exists(a, b);
            let (i, j) = choose|i: int, j: int|
                0 <= i < a.len() && 0 <= j < b.len() && #[trigger] a[i].0 == #[trigger] b[j].0
                    && conflicts(a[i].1, b[j].1);
            let k = a[i].0;
            assert(node_wf(a[i].1));
            assert(node_wf(b[j].1));
            assert(no_shared_dot(a[i].1, b[j].1));
            let q = lemma_conflict_witness(a[i].1, b[j].1);
            let p = seq![k] + q;
            assert(p[0] == k);
            assert(p.drop_first() =~= q);
            lemma_find_child_at(a, i);
            lemma_find_child_at(b, j);
            p
        } else {
            Seq::empty()
        }
    } else {
        Seq::empty()
    }
}

/// Two trees conflict exactly when some path reaches a node in both and the two nodes are
/// not both directories (the root included), for trees that never both have a child named
/// `.` at the same place.
pub proof fn law_conflicts_iff_clash(l: FsNode, r: FsNode)
    requires
        node_wf(l),
        node_wf(r),
        no_shared_dot(l, r),
    ensures
        conflicts(l, r) <==> exists|p: Seq<Seq<char>>| #[trigger] clash_at(l, r, p),
{
    if conflicts(l, r) {
        let p = lemma_conflict_witness(l, r);
        assert(clash_at(l, r, p));
    }
    if exists|p: Seq<Seq<char>>| #[trigger] clash_at(l, r, p) {
        let p = choose|p: Seq<Seq<char>>| #[trigger] clash_at(l, r, p);
        lemma_undot(l, p);
        lemma_undot(r, p);
        assert(clash_at(l, r, undot(p)));
        lemma_clash_conflicts(l, r, undot(p));
    }
}

/// Merging adds no path: a path that reaches a node in `l.merge(r)` reaches one in `l` or
/// in `r`.
pub proof fn law_merge_paths_within(l: FsNode, r: FsNode, p: Seq<Seq<char>>)
    requires
        node_wf(l),
        node_wf(r),
    ensures
        lookup(merge_nodes(l, r), p) is Some ==> lookup(l, p) is Some || lookup(r, p) is Some,
    decreases p.len(),
{
    if p.len() > 0 {
        if p[0] == dot() {
            law_merge_paths_within(l, r, p.drop_first());
        } else if let FsNode::Directory(a) = l {
            if let FsNode::Directory(b) = r {
                lemma_find_child_merge(a, b, p[0]);
                if let Some(x) = find_child(a, p[0]) {
                    if let Some(y) = find_child(b, p[0]) {
                        lemma_child_wf(a, p[0]);
                        lemma_child_wf(b, p[0]);
                        law_merge_paths_within(x, y, p.drop_first());
                    }
                }
            }
        }
    }
}

/// Without conflicts, the paths of `l.merge(r)` are exactly the paths of `l` together with
/// those of `r`.
pub proof fn law_merge_paths_union(l: FsNode, r: FsNode, p: Seq<Seq<char>>)
    requires
        node_wf(l),
        node_wf(r),
        !conflicts(l, r),
    ensures
        lookup(merge_nodes(l, r), p) is Some <==> (lookup(l, p) is Some || lookup(r, p) is Some),
{
    law_merge_paths_within(l, r, p);
    if lookup(l, p) is Some {
        law_merge_keeps_left(l, r, p);
    }
    if lookup(r, p) is Some {
        law_merge_keeps_right_without_conflict(l, r, p);
    }
}

} // verus!
