//! Writing groups of trees back as tsml text.
use vstd::prelude::*;

use crate::file_tree::{file_count, files_preorder, files_preorder_list, FileTree};
use crate::path::is_normal_piece;
use crate::text::{chars_of, compare_chars, push_char, Cmp};
use crate::tsml::groups_map::{GroupsMap, entries_trees};
use crate::tsml::groups::Groups;
use crate::tsml::tags::Tags;

verus! {

/// Four spaces per level.
pub open spec fn indent_text(levels: nat) -> Seq<char>
    decreases levels,
{
    if levels == 0 {
        Seq::empty()
    } else {
        indent_text((levels - 1) as nat) + seq![' ', ' ', ' ', ' ']
    }
}

/// The names `ns` separated by `, `.
pub open spec fn join_names(ns: Seq<Seq<char>>) -> Seq<char>
    decreases ns.len(),
{
    if ns.len() == 0 {
        Seq::empty()
    } else if ns.len() == 1 {
        ns[0]
    } else {
        join_names(ns.drop_last()) + seq![',', ' '] + ns.last()
    }
}

/// The tag list written before a node: its direct tags in name order, in parentheses and
/// followed by a space; nothing when it has none.
pub open spec fn tags_text(e: Option<Tags>) -> Seq<char> {
    match e {
        Some(t) => if t.direct_tags@.len() > 0 {
            seq!['('] + join_names(t.direct_tags@) + seq![')', ' ']
        } else {
            Seq::empty()
        },
        None => Seq::empty(),
    }
}

/// Whether a node can be written: its path ends in an ordinary name, and so does the
/// target of a symlink.
pub open spec fn writable(t: FileTree<Tags>) -> bool {
    &&& t.path_of().len() > 0
    &&& is_normal_piece(t.path_of().last())
    &&& t is Symlink ==> t.target_of().len() > 0 && is_normal_piece(t.target_of().last())
}

/// The line of a node at depth `d`: indentation, tags, quoted name, and `: [` for a
/// directory or `> "target"` for a symlink.
pub open spec fn node_line(t: FileTree<Tags>, d: nat) -> Seq<char> {
    let q = seq!['"'];
    let suffix = match t {
        FileTree::Regular { .. } => Seq::empty(),
        FileTree::Directory { .. } => seq![':', ' ', '['],
        FileTree::Symlink { .. } => seq![' ', '>', ' ', '"'] + t.target_of().last() + q,
    };
    indent_text(d) + tags_text(t.extra_of()) + q + t.path_of().last() + q + suffix + seq!['\n']
}

/// A closing bracket at `level`.
pub open spec fn close_text(level: nat) -> Seq<char> {
    indent_text(level) + seq![']', '\n']
}

/// The closing brackets from `levels - 1` down to 0.
pub open spec fn closes_text(levels: nat) -> Seq<char>
    decreases levels,
{
    if levels == 0 {
        Seq::empty()
    } else {
        close_text((levels - 1) as nat) + closes_text((levels - 1) as nat)
    }
}

/// The text for the visits `vs`, each node on its line, with one closing bracket before a
/// node shallower than the one before it; and the depth of the last visit (0 if none).
pub open spec fn visits_text(vs: Seq<(FileTree<Tags>, nat)>) -> (Seq<char>, nat)
    decreases vs.len(),
{
    if vs.len() == 0 {
        (Seq::empty(), 0)
    } else {
        let (txt, last) = visits_text(vs.drop_last());
        let (t, d) = vs.last();
        let close = if d < last {
            close_text(d)
        } else {
            Seq::empty()
        };
        (txt + close + node_line(t, d), d)
    }
}

/// The text of the group `key` holding the trees `files`: a header unless it is `main`,
/// then the nodes, then the brackets still open.
pub open spec fn group_text(key: Seq<char>, files: Seq<FileTree<Tags>>) -> Seq<char> {
    let header = if key == seq!['m', 'a', 'i', 'n'] {
        Seq::empty()
    } else {
        seq!['-', ' ', '['] + key + seq![']', '\n']
    };
    let body = visits_text(files_preorder_list(files, 0));
    header + body.0 + closes_text(body.1)
}

/// The text of the groups `gs`, separated by line breaks.
pub open spec fn groups_text(gs: Seq<(Seq<char>, Seq<FileTree<Tags>>)>) -> Seq<char>
    decreases gs.len(),
{
    if gs.len() == 0 {
        Seq::empty()
    } else {
        let sep = if gs.len() > 1 {
            seq!['\n']
        } else {
            Seq::empty()
        };
        groups_text(gs.drop_last()) + sep + group_text(gs.last().0, gs.last().1)
    }
}

/// Whether every node of `t` is writable.
pub open spec fn tree_writable(t: FileTree<Tags>) -> bool
    decreases t,
{
    &&& writable(t)
    &&& match t {
        FileTree::Directory { children, .. } => forall|i: int|
            0 <= i < children@.len() ==> tree_writable(#[trigger] children@[i]),
        _ => true,
    }
}

pub proof fn lemma_tree_writable_visits(t: FileTree<Tags>, d: nat)
    requires
        tree_writable(t),
    ensures
        forall|k: int|
            0 <= k < files_preorder(t, d).len() ==> writable(#[trigger] files_preorder(t, d)[k].0),
    decreases t,
{
    let pre = files_preorder(t, d);
    match t {
        FileTree::Directory { children, .. } => {
            lemma_file_child_decreases_all(t);
            lemma_list_writable_visits(t, children@, d + 1);
            let rest = files_preorder_list(children@, d + 1);
            assert(pre == seq![(t, d)] + rest);
            assert forall|k: int| 0 <= k < pre.len() implies writable(#[trigger] pre[k].0) by {
                if k > 0 {
                    assert(pre[k] == rest[k - 1]);
                }
            }
        },
        _ => {
            assert forall|k: int| 0 <= k < pre.len() implies writable(#[trigger] pre[k].0) by {
                assert(pre.len() == 1);
            }
        },
    }
}

pub proof fn lemma_file_child_decreases_all(t: FileTree<Tags>)
    requires
        t is Directory,
    ensures
        forall|i: int| 0 <= i < t.kids().len() ==> decreases_to!(t => #[trigger] t.kids()[i]),
{
    assert forall|i: int| 0 <= i < t.kids().len() implies decreases_to!(t => #[trigger] t.kids()[i]) by {
        crate::file_tree::lemma_file_child_decreases(t, i);
    }
}

pub proof fn lemma_list_writable_visits(parent: FileTree<Tags>, ts: Seq<FileTree<Tags>>, d: nat)
    requires
        forall|i: int| 0 <= i < ts.len() ==> tree_writable(#[trigger] ts[i]),
        forall|i: int| 0 <= i < ts.len() ==> decreases_to!(parent => #[trigger] ts[i]),
    ensures
        forall|k: int|
            0 <= k < files_preorder_list(ts, d).len() ==> writable(
                #[trigger] files_preorder_list(ts, d)[k].0,
            ),
    decreases parent, ts.len(),
{
    let pre = files_preorder_list(ts, d);
    if ts.len() > 0 {
        let init = ts.drop_last();
        assert forall|i: int| 0 <= i < init.len() implies decreases_to!(parent => #[trigger] init[i]) by {
            assert(init[i] == ts[i]);
        }
        assert forall|i: int| 0 <= i < init.len() implies tree_writable(#[trigger] init[i]) by {
            assert(init[i] == ts[i]);
        }
        lemma_list_writable_visits(parent, init, d);
        assert(tree_writable(ts[ts.len() - 1]));
        assert(decreases_to!(parent => ts[ts.len() - 1]));
        lemma_tree_writable_visits(ts.last(), d);
        let a = files_preorder_list(init, d);
        let b = files_preorder(ts.last(), d);
        assert(pre == a + b);
        assert forall|k: int| 0 <= k < pre.len() implies writable(#[trigger] pre[k].0) by {
            if k < a.len() {
                assert(pre[k] == a[k]);
            } else {
                assert(pre[k] == b[k - a.len()]);
            }
        }
    }
}

/// Whether every group in `gs` can be written: every tree is small enough to walk and
/// every node is writable.
pub open spec fn groups_writable(gs: Seq<(Seq<char>, Seq<FileTree<Tags>>)>) -> bool {
    forall|i: int, j: int|
        0 <= i < gs.len() && 0 <= j < gs[i].1.len() ==> {
            &&& file_count(#[trigger] gs[i].1[j]) <= usize::MAX
            &&& tree_writable(gs[i].1[j])
        }
}

/// Appends `levels` levels of indentation.
fn indent(text: &mut String, levels: usize)
    ensures
        final(text)@ == old(text)@ + indent_text(levels as nat),
{
    let mut k: usize = 0;
    while k < levels
        invariant
            k <= levels,
            text@ == old(text)@ + indent_text(k as nat),
        decreases levels - k,
    {
        let four = "    ";
        proof {
            reveal_strlit("    ");
        }
        text.append(four);
        k += 1;
        assert(text@ =~= old(text)@ + indent_text(k as nat));
    }
}

/// Appends the tag list of a node.
fn add_tags(text: &mut String, tags: &Option<Tags>)
    ensures
        final(text)@ == old(text)@ + tags_text(*tags),
{
    if let Some(tags) = tags {
        let names = tags.direct_tags.as_slice();
        if names.len() > 0 {
            push_char(text, '(');
            text.append(names[0].as_str());
            let mut i: usize = 1;
            assert(names.deep_view().take(1) =~= seq![names.deep_view()[0]]);
            while i < names.len()
                invariant
                    1 <= i <= names@.len(),
                    names.deep_view() == tags.direct_tags@,
                    text@ == old(text)@ + seq!['('] + join_names(names.deep_view().take(i as int)),
                decreases names@.len() - i,
            {
                push_char(text, ',');
                push_char(text, ' ');
                text.append(names[i].as_str());
                let ghost t = names.deep_view().take(i + 1);
                assert(t.drop_last() =~= names.deep_view().take(i as int));
                assert(t.last() == names@[i as int]@);
                i += 1;
                assert(text@ =~= old(text)@ + seq!['('] + join_names(names.deep_view().take(i as int)));
            }
            assert(names.deep_view().take(i as int) =~= names.deep_view());
            push_char(text, ')');
            push_char(text, ' ');
            assert(text@ =~= old(text)@ + tags_text(Some(*tags)));
        }
    }
}

/// Appends a closing bracket at `at_indent_level`.
fn close_bracket(text: &mut String, at_indent_level: usize)
    ensures
        final(text)@ == old(text)@ + close_text(at_indent_level as nat),
{
    indent(text, at_indent_level);
    push_char(text, ']');
    push_char(text, '\n');
    assert(text@ =~= old(text)@ + close_text(at_indent_level as nat));
}

/// Appends the line of a node at depth `depth`.
fn add_node_line(text: &mut String, file: &FileTree<Tags>, depth: usize)
    requires
        writable(*file),
    ensures
        final(text)@ == old(text)@ + node_line(*file, depth as nat),
{
    indent(text, depth);
    add_tags(text, file.extra());
    push_char(text, '"');
    let name = file.path().file_name().unwrap();
    text.append(name.as_str());
    push_char(text, '"');
    let ghost mid = text@;
    match file {
        FileTree::Regular { .. } => {},
        FileTree::Directory { .. } => {
            push_char(text, ':');
            push_char(text, ' ');
            push_char(text, '[');
        },
        FileTree::Symlink { target_path, .. } => {
            push_char(text, ' ');
            push_char(text, '>');
            push_char(text, ' ');
            push_char(text, '"');
            let target = target_path.file_name().unwrap();
            text.append(target.as_str());
            push_char(text, '"');
        },
    }
    push_char(text, '\n');
    assert(text@ =~= old(text)@ + node_line(*file, depth as nat));
}

/// Appends the text of the group `key` holding the trees `files`.
fn add_group_to_tsml(text: &mut String, key: &str, files: &[FileTree<Tags>])
    requires
        forall|j: int|
            0 <= j < files@.len() ==> {
                &&& file_count(#[trigger] files@[j]) <= usize::MAX
                &&& forall|k: int|
                    0 <= k < files_preorder(files@[j], 0).len() ==> writable(
                        #[trigger] files_preorder(files@[j], 0)[k].0,
                    )
            },
    ensures
        final(text)@ == old(text)@ + group_text(key@, files@),
{
    let main = "main";
    proof {
        reveal_strlit("main");
    }
    assert(main@ =~= seq!['m', 'a', 'i', 'n']);
    let is_main = compare_chars(chars_of(key).as_slice(), chars_of(main).as_slice()) == Cmp::Equal;
    if !is_main {
        push_char(text, '-');
        push_char(text, ' ');
        push_char(text, '[');
        text.append(key);
        push_char(text, ']');
        push_char(text, '\n');
        assert(text@ =~= old(text)@ + (seq!['-', ' ', '['] + key@ + seq![']', '\n']));
    } else {
        assert(text@ =~= old(text)@ + Seq::<char>::empty());
    }
    let ghost header = text@;
    assert(header == old(text)@ + (if key@ == seq!['m', 'a', 'i', 'n'] {
        Seq::<char>::empty()
    } else {
        seq!['-', ' ', '['] + key@ + seq![']', '\n']
    }));
    let mut last_depth: usize = 0;
    let mut j: usize = 0;
    assert(files@.take(0) =~= Seq::<FileTree<Tags>>::empty());
    while j < files.len()
        invariant
            j <= files@.len(),
            forall|j2: int|
                0 <= j2 < files@.len() ==> {
                    &&& file_count(#[trigger] files@[j2]) <= usize::MAX
                    &&& forall|k: int|
                        0 <= k < files_preorder(files@[j2], 0).len() ==> writable(
                            #[trigger] files_preorder(files@[j2], 0)[k].0,
                        )
                },
            text@ == header + visits_text(files_preorder_list(files@.take(j as int), 0)).0,
            last_depth == visits_text(files_preorder_list(files@.take(j as int), 0)).1,
        decreases files@.len() - j,
    {
        let ghost base = files_preorder_list(files@.take(j as int), 0);
        let ghost pre = files_preorder(files@[j as int], 0);
        let mut it = files[j].files();
        let ghost mut c: int = 0;
        assert(pre.skip(0) == pre);
        assert(base + pre.take(0) =~= base);
        while it.remaining_len() > 0
            invariant
                0 <= c <= pre.len(),
                it.remaining() == pre.skip(c),
                forall|k: int| 0 <= k < pre.len() ==> writable(#[trigger] pre[k].0),
                text@ == header + visits_text(base + pre.take(c)).0,
                last_depth == visits_text(base + pre.take(c)).1,
            decreases it.remaining().len(),
        {
            let ghost acc = base + pre.take(c);
            let file = it.next().unwrap();
            let d = it.depth();
            assert(pre.skip(c)[0] == pre[c]);
            assert(pre.skip(c).drop_first() =~= pre.skip(c + 1));
            assert(acc.push(pre[c]) =~= base + pre.take(c + 1));
            assert((acc.push(pre[c])).drop_last() =~= acc);
            if d < last_depth {
                close_bracket(text, d);
            }
            add_node_line(text, file, d);
            last_depth = d;
            proof {
                c = c + 1;
            }
        }
        assert(pre.take(c) =~= pre);
        assert(files@.take(j + 1).drop_last() =~= files@.take(j as int));
        j += 1;
    }
    assert(files@.take(j as int) =~= files@);
    let ghost body = visits_text(files_preorder_list(files@, 0));
    let ghost mid = text@;
    let mut level = last_depth;
    while level > 0
        invariant
            level <= last_depth,
            last_depth == body.1,
            text@ == mid + (closes_text(last_depth as nat).take(
                closes_text(last_depth as nat).len() - closes_text(level as nat).len(),
            )),
            closes_text(level as nat).len() <= closes_text(last_depth as nat).len(),
            closes_text(last_depth as nat) == closes_text(last_depth as nat).take(
                closes_text(last_depth as nat).len() - closes_text(level as nat).len(),
            ) + closes_text(level as nat),
        decreases level,
    {
        let ghost before = text@;
        close_bracket(text, level - 1);
        level -= 1;
        proof {
            let all = closes_text(last_depth as nat);
            let hi = closes_text((level + 1) as nat);
            let lo = closes_text(level as nat);
            assert(hi == close_text(level as nat) + lo);
            assert(all.take(all.len() - lo.len()) =~= all.take(all.len() - hi.len()) + close_text(
                level as nat,
            ));
            assert(all =~= all.take(all.len() - lo.len()) + lo);
        }
    }
    assert(closes_text(0) == Seq::<char>::empty());
    assert(closes_text(last_depth as nat).take(closes_text(last_depth as nat).len() as int)
        =~= closes_text(last_depth as nat));
}

/// The text of the groups of `map`, in name order, separated by line breaks.
fn map_to_tsml(map: &GroupsMap) -> (r: String)
    requires
        groups_writable(map.trees()),
    ensures
        r@ == groups_text(map.trees()),
{
    let entries = map.as_slice();
    let ghost gs = map.trees();
    let mut text = String::new();
    let mut i: usize = 0;
    assert(gs.take(0) =~= Seq::<(Seq<char>, Seq<FileTree<Tags>>)>::empty());
    while i < entries.len()
        invariant
            i <= entries@.len(),
            gs == entries_trees(entries@),
            gs.len() == entries@.len(),
            groups_writable(gs),
            text@ == groups_text(gs.take(i as int)),
        decreases entries@.len() - i,
    {
        let ghost before = text@;
        if i != 0 {
            push_char(&mut text, '\n');
        }
        assert(gs[i as int] == (entries@[i as int].0@, entries@[i as int].1@));
        assert forall|j: int| 0 <= j < entries@[i as int].1@.len() implies {
            &&& file_count(#[trigger] entries@[i as int].1@[j]) <= usize::MAX
            &&& forall|k: int|
                0 <= k < files_preorder(entries@[i as int].1@[j], 0).len() ==> writable(
                    #[trigger] files_preorder(entries@[i as int].1@[j], 0)[k].0,
                )
        } by {
            assert(gs[i as int].1[j] == entries@[i as int].1@[j]);
            lemma_tree_writable_visits(entries@[i as int].1@[j], 0);
        }
        add_group_to_tsml(&mut text, entries[i].0.as_str(), entries[i].1.as_slice());
        assert(gs.take(i + 1).drop_last() =~= gs.take(i as int));
        i += 1;
    }
    assert(gs.take(i as int) =~= gs);
    text
}

/// The tsml text of `groups`: each group in name order, separated by line breaks; the
/// group `main` without a header; each node on its line, indented by its depth.
pub fn groups_to_tsml(groups: &Groups) -> (r: String)
    requires
        groups_writable(groups.map.trees()),
    ensures
        r@ == groups_text(groups.map.trees()),
{
    map_to_tsml(&groups.map)
}

/// Whether the node `t` is writable.
fn node_writable(t: &FileTree<Tags>) -> (r: bool)
    ensures
        r == writable(*t),
{
    if t.path().file_name().is_none() {
        return false;
    }
    match t {
        FileTree::Symlink { target_path, .. } => target_path.file_name().is_some(),
        _ => true,
    }
}

/// The number of nodes of `t` when every node is writable and the number fits in a
/// `usize`; otherwise `None`.
fn check_tree(t: &FileTree<Tags>) -> (r: Option<usize>)
    ensures
        r matches Some(c) ==> c == file_count(*t) && tree_writable(*t),
        r is None ==> !(file_count(*t) <= usize::MAX && tree_writable(*t)),
    decreases t,
{
    if !node_writable(t) {
        return None;
    }
    match t {
        FileTree::Directory { children, .. } => {
            let mut total: usize = 1;
            let mut i: usize = 0;
            while i < children.len()
                invariant
                    i <= children@.len(),
                    *t is Directory,
                    t.kids() == children@,
                    writable(*t),
                    file_count(*t) == 1 + crate::file_tree::file_count_list(children@),
                    total == 1 + crate::file_tree::file_count_list(children@.take(i as int)),
                    forall|j: int| 0 <= j < i ==> tree_writable(#[trigger] children@[j]),
                decreases children@.len() - i,
            {
                assert(children@.take(i + 1).drop_last() == children@.take(i as int));
                assert(children@.take(i + 1).last() == children@[i as int]);
                proof {
                    crate::file_tree::lemma_file_child_decreases(*t, i as int);
                    crate::file_tree::lemma_file_count_list_prefix(children@, i + 1);
                }
                match check_tree(&children[i]) {
                    None => {
                        return None;
                    },
                    Some(c) => match total.checked_add(c) {
                        None => {
                            return None;
                        },
                        Some(next) => {
                            total = next;
                        },
                    },
                }
                i += 1;
            }
            assert(children@.take(i as int) == children@);
            Some(total)
        },
        _ => Some(1),
    }
}

/// Whether `groups_to_tsml` can write `groups` (every node writable, every tree small
/// enough to walk).
pub fn can_write(groups: &Groups) -> (r: bool)
    ensures
        r == groups_writable(groups.map.trees()),
{
    let entries = groups.map.as_slice();
    let ghost gs = groups.map.trees();
    let mut i: usize = 0;
    while i < entries.len()
        invariant
            i <= entries@.len(),
            gs == entries_trees(entries@),
            gs == groups.map.trees(),
            gs.len() == entries@.len(),
            forall|a: int, b: int|
                0 <= a < i && 0 <= b < gs[a].1.len() ==> {
                    &&& file_count(#[trigger] gs[a].1[b]) <= usize::MAX
                    &&& tree_writable(gs[a].1[b])
                },
        decreases entries@.len() - i,
    {
        let trees = &entries[i].1;
        assert(gs[i as int].1 == trees@);
        let mut j: usize = 0;
        while j < trees.len()
            invariant
                i < entries@.len(),
                j <= trees@.len(),
                gs == entries_trees(entries@),
                gs == groups.map.trees(),
                gs.len() == entries@.len(),
                gs[i as int].1 == trees@,
                forall|a: int, b: int|
                    0 <= a < i && 0 <= b < gs[a].1.len() ==> {
                        &&& file_count(#[trigger] gs[a].1[b]) <= usize::MAX
                        &&& tree_writable(gs[a].1[b])
                    },
                forall|b: int|
                    0 <= b < j ==> {
                        &&& file_count(#[trigger] trees@[b]) <= usize::MAX
                        &&& tree_writable(trees@[b])
                    },
            decreases trees@.len() - j,
        {
            if check_tree(&trees[j]).is_none() {
                proof {
                    let t = gs[i as int].1[j as int];
                    assert(!(file_count(t) <= usize::MAX && tree_writable(t)));
                    if groups_writable(gs) {
                        assert(file_count(gs[i as int].1[j as int]) <= usize::MAX);
                    }
                }
                return false;
            }
            j += 1;
        }
        i += 1;
    }
    true
}

/// The number of times `c` occurs in `s`.
pub open spec fn count_char(s: Seq<char>, c: char) -> nat
    decreases s.len(),
{
    if s.len() == 0 {
        0
    } else {
        count_char(s.drop_last(), c) + if s.last() == c {
            1nat
        } else {
            0nat
        }
    }
}

proof fn lemma_count_char_concat(a: Seq<char>, b: Seq<char>, c: char)
    ensures
        count_char(a + b, c) == count_char(a, c) + count_char(b, c),
    decreases b.len(),
{
    if b.len() == 0 {
        assert(a + b =~= a);
    } else {
        lemma_count_char_concat(a, b.drop_last(), c);
        assert((a + b).drop_last() =~= a + b.drop_last());
        assert((a + b).last() == b.last());
    }
}

proof fn lemma_count_absent(s: Seq<char>, c: char)
    requires
        forall|i: int| 0 <= i < s.len() ==> #[trigger] s[i] != c,
    ensures
        count_char(s, c) == 0,
    decreases s.len(),
{
    if s.len() > 0 {
        assert(s.last() == s[s.len() - 1]);
        assert forall|i: int| 0 <= i < s.drop_last().len() implies #[trigger] s.drop_last()[i] != c by {
            assert(s.drop_last()[i] == s[i]);
        }
        lemma_count_absent(s.drop_last(), c);
    }
}

proof fn lemma_count_single(x: char, c: char)
    ensures
        count_char(seq![x], c) == if x == c {
            1nat
        } else {
            0nat
        },
{
    let s = seq![x];
    assert(s.len() == 1);
    assert(s.drop_last() =~= Seq::<char>::empty());
    assert(count_char(s.drop_last(), c) == 0);
    assert(s.last() == x);
    assert(count_char(s, c) == count_char(s.drop_last(), c) + if s.last() == c {
        1nat
    } else {
        0nat
    });
}

proof fn lemma_indent_blank(levels: nat)
    ensures
        forall|i: int| 0 <= i < indent_text(levels).len() ==> #[trigger] indent_text(levels)[i] == ' ',
        count_char(indent_text(levels), ']') == 0,
        count_char(indent_text(levels), '\n') == 0,
    decreases levels,
{
    if levels > 0 {
        let four = seq![' ', ' ', ' ', ' '];
        lemma_indent_blank((levels - 1) as nat);
        lemma_count_char_concat(indent_text((levels - 1) as nat), four, ']');
        lemma_count_char_concat(indent_text((levels - 1) as nat), four, '\n');
        lemma_count_absent(four, ']');
        lemma_count_absent(four, '\n');
        let t = indent_text(levels);
        let h = indent_text((levels - 1) as nat);
        assert forall|i: int| 0 <= i < t.len() implies #[trigger] t[i] == ' ' by {
            if i < h.len() {
                assert(t[i] == h[i]);
            } else {
                assert(t[i] == four[i - h.len()]);
            }
        }
    }
}

proof fn lemma_closes_shape(k: nat)
    ensures
        count_char(closes_text(k), ']') == k,
        count_char(closes_text(k), '\n') == k,
        forall|i: int|
            0 <= i < closes_text(k).len() ==> {
                let c = #[trigger] closes_text(k)[i];
                c == ' ' || c == ']' || c == '\n'
            },
        k > 0 ==> closes_text(k).len() >= 2 && closes_text(k)[closes_text(k).len() - 2] == ']'
            && closes_text(k)[closes_text(k).len() - 1] == '\n',
    decreases k,
{
    if k > 0 {
        let k1 = (k - 1) as nat;
        lemma_closes_shape(k1);
        lemma_indent_blank(k1);
        let ind = indent_text(k1);
        let tail = seq![']', '\n'];
        let line = ind + tail;
        assert(tail =~= seq![']'] + seq!['\n']);
        lemma_count_single(']', ']');
        lemma_count_single('\n', ']');
        lemma_count_single(']', '\n');
        lemma_count_single('\n', '\n');
        lemma_count_char_concat(seq![']'], seq!['\n'], ']');
        lemma_count_char_concat(seq![']'], seq!['\n'], '\n');
        lemma_count_char_concat(ind, tail, ']');
        lemma_count_char_concat(ind, tail, '\n');
        lemma_count_char_concat(line, closes_text(k1), ']');
        lemma_count_char_concat(line, closes_text(k1), '\n');
        let all = closes_text(k);
        assert(all == close_text(k1) + closes_text(k1));
        assert(close_text(k1) == line);
        assert forall|i: int| 0 <= i < all.len() implies {
            let c = #[trigger] all[i];
            c == ' ' || c == ']' || c == '\n'
        } by {
            if i < ind.len() {
                assert(all[i] == ind[i]);
            } else if i < line.len() {
                assert(all[i] == tail[i - ind.len()]);
            } else {
                assert(all[i] == closes_text(k1)[i - line.len()]);
            }
        }
        if k1 == 0 {
            assert(all =~= line);
        } else {
            let r = closes_text(k1);
            assert(all[all.len() - 2] == r[r.len() - 2]);
            assert(all[all.len() - 1] == r[r.len() - 1]);
        }
    }
}

/// A group's text closes every bracket still open after its last node: after the header
/// and the node lines comes a tail of bracket lines only (spaces, `]` and line breaks), with
/// as many `]`, each ending its own line, as the depth of the last node written; it ends
/// with `]` and a line break whenever that depth is not 0.
pub proof fn law_group_closes_open_levels(key: Seq<char>, files: Seq<FileTree<Tags>>)
    ensures
        ({
            let header = if key == seq!['m', 'a', 'i', 'n'] {
                Seq::<char>::empty()
            } else {
                seq!['-', ' ', '['] + key + seq![']', '\n']
            };
            let body = visits_text(files_preorder_list(files, 0));
            let text = group_text(key, files);
            let head_len = header.len() + body.0.len();
            let tail = text.skip(head_len as int);
            &&& text.take(head_len as int) == header + body.0
            &&& count_char(tail, ']') == body.1
            &&& count_char(tail, '\n') == body.1
            &&& forall|i: int|
                0 <= i < tail.len() ==> {
                    let c = #[trigger] tail[i];
                    c == ' ' || c == ']' || c == '\n'
                }
            &&& body.1 > 0 ==> text.len() >= 2 && text[text.len() - 2] == ']' && text[text.len()
                - 1] == '\n'
        }),
{
    let header = if key == seq!['m', 'a', 'i', 'n'] {
        Seq::<char>::empty()
    } else {
        seq!['-', ' ', '['] + key + seq![']', '\n']
    };
    let body = visits_text(files_preorder_list(files, 0));
    let text = group_text(key, files);
    let head = header + body.0;
    let closes = closes_text(body.1);
    assert(text == head + closes);
    assert(text.take(head.len() as int) =~= head);
    assert(text.skip(head.len() as int) =~= closes);
    lemma_closes_shape(body.1);
    if body.1 > 0 {
        assert(text[text.len() - 2] == closes[closes.len() - 2]);
        assert(text[text.len() - 1] == closes[closes.len() - 1]);
    }
}

} // verus!
