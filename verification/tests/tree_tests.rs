use fs_tree::fs_tree::{FsTree, TrieMap};
use fs_tree::path::FsPath;

fn dir_of(entries: Vec<(&str, FsTree)>) -> FsTree {
    let mut map = TrieMap::new();
    for (name, node) in entries {
        map.insert(name.to_string(), node);
    }
    FsTree::Directory(map)
}

fn link(target: &str) -> FsTree {
    FsTree::Symlink(FsPath::from_text(target))
}

#[test]
fn test_insert_basic() {
    let mut tree = FsTree::new_dir();

    let paths = ["a", "a/b", "a/b/c", "a/b/c/d", "a/b/c/d/e"];
    for path in paths {
        tree.insert(path, FsTree::new_dir());
    }

    tree.insert("a/b/c/d/e/f", FsTree::Regular);

    let expected = dir_of(vec![(
        "a",
        dir_of(vec![(
            "b",
            dir_of(vec![(
                "c",
                dir_of(vec![("d", dir_of(vec![("e", dir_of(vec![("f", FsTree::Regular)]))]))]),
            )]),
        )]),
    )]);

    assert_eq!(tree, expected);
}

#[test]
fn test_insert_complete() {
    let result = {
        let mut tree = FsTree::new_dir();
        tree.insert("config1", FsTree::Regular);
        tree.insert("config2", FsTree::Regular);
        tree.insert("outer_dir", FsTree::new_dir());
        tree.insert("outer_dir/file1", FsTree::Regular);
        tree.insert("outer_dir/file2", FsTree::Regular);
        tree.insert("outer_dir/inner_dir", FsTree::new_dir());
        tree.insert("outer_dir/inner_dir/inner1", FsTree::Regular);
        tree.insert("outer_dir/inner_dir/inner2", FsTree::Regular);
        tree.insert("outer_dir/inner_dir/inner3", FsTree::Regular);
        tree.insert("outer_dir/inner_dir/inner_link", link("inner_target"));
        tree.insert("link", link("target"));
        tree.insert("config3", FsTree::Regular);
        tree
    };

    let expected = dir_of(vec![
        ("config1", FsTree::Regular),
        ("config2", FsTree::Regular),
        (
            "outer_dir",
            dir_of(vec![
                ("file1", FsTree::Regular),
                ("file2", FsTree::Regular),
                (
                    "inner_dir",
                    dir_of(vec![
                        ("inner1", FsTree::Regular),
                        ("inner2", FsTree::Regular),
                        ("inner3", FsTree::Regular),
                        ("inner_link", link("inner_target")),
                    ]),
                ),
            ]),
        ),
        ("link", link("target")),
        ("config3", FsTree::Regular),
    ]);

    assert_eq!(result, expected);
}

#[test]
fn test_get() {
    let tree = FsTree::from_path_text("a/b/c");

    assert_eq!(tree.get("a").unwrap(), &FsTree::from_path_text("b/c"));
    assert_eq!(tree.get("a/b").unwrap(), &FsTree::from_path_text("c"));
    assert_eq!(tree.get("a").unwrap().get("b").unwrap(), &FsTree::from_path_text("c"));
    assert_eq!(tree.get("a/b/c").unwrap(), &FsTree::Regular);
    assert_eq!(tree.get("a/b").unwrap().get("c").unwrap(), &FsTree::Regular);
    assert_eq!(tree.get("a").unwrap().get("b/c").unwrap(), &FsTree::Regular);
    assert_eq!(
        tree.get("a").unwrap().get("b").unwrap().get("c").unwrap(),
        &FsTree::Regular
    );

    // Paths are relative, so empty path returns the node itself
    assert_eq!(tree.get("").unwrap(), &tree);
    assert_eq!(tree.get("").unwrap(), tree.get("").unwrap());

    // "."s are ignored
    assert_eq!(tree.get(".").unwrap(), tree.get("").unwrap());
    assert_eq!(tree.get("././").unwrap(), tree.get(".").unwrap());
    assert_eq!(tree.get("././.").unwrap(), &tree);
    assert_eq!(
        tree.get("./a/.").unwrap().get("././b/./.").unwrap(),
        &FsTree::from_path_text("c")
    );
    assert_eq!(tree.get("./a/./b").unwrap().get("c/.").unwrap(), &FsTree::Regular);
}

#[test]
fn test_partial_eq_fails() {
    let left = FsTree::from_path_text(".config/i3/a");
    let right = FsTree::from_path_text(".config/i3/b");

    assert_ne!(left, right);
}

#[test]
fn testing_files_and_paths_iters() {
    let tree = dir_of(vec![(
        ".config",
        dir_of(vec![
            (
                "i3",
                dir_of(vec![
                    ("file1", FsTree::Regular),
                    ("file2", FsTree::Regular),
                    (
                        "dir",
                        dir_of(vec![
                            ("innerfile1", FsTree::Regular),
                            ("innerfile2", FsTree::Regular),
                        ]),
                    ),
                    ("file3", FsTree::Regular),
                ]),
            ),
            ("outerfile1", FsTree::Regular),
            ("outerfile2", FsTree::Regular),
        ]),
    )]);

    let refs = [
        &tree,
        tree.get(".config/").unwrap(),
        tree.get(".config/i3/").unwrap(),
        tree.get(".config/i3/dir/").unwrap(),
        tree.get(".config/i3/dir/innerfile1").unwrap(),
        tree.get(".config/i3/dir/innerfile2").unwrap(),
        tree.get(".config/i3/file1").unwrap(),
        tree.get(".config/i3/file2").unwrap(),
        tree.get(".config/i3/file3").unwrap(),
        tree.get(".config/outerfile1").unwrap(),
        tree.get(".config/outerfile2").unwrap(),
    ];

    let p = FsPath::from_text;
    let mut it = tree.paths();
    assert_eq!(it.next(), Some(p("")));
    assert_eq!(it.next(), Some(p(".config/")));
    assert_eq!(it.next(), Some(p(".config/i3/")));
    assert_eq!(it.next(), Some(p(".config/i3/dir/")));
    assert_eq!(it.next(), Some(p(".config/i3/dir/innerfile1")));
    assert_eq!(it.next(), Some(p(".config/i3/dir/innerfile2")));
    assert_eq!(it.next(), Some(p(".config/i3/file1")));
    assert_eq!(it.next(), Some(p(".config/i3/file2")));
    assert_eq!(it.next(), Some(p(".config/i3/file3")));
    assert_eq!(it.next(), Some(p(".config/outerfile1")));
    assert_eq!(it.next(), Some(p(".config/outerfile2")));
    assert_eq!(it.next(), None);

    let mut it = tree.nodes();
    assert_eq!(it.next(), Some(refs[0]));
    assert_eq!(it.depth(), 0);
    assert_eq!(it.next(), Some(refs[1]));
    assert_eq!(it.depth(), 1);
    assert_eq!(it.next(), Some(refs[2]));
    assert_eq!(it.depth(), 2);
    assert_eq!(it.next(), Some(refs[3]));
    assert_eq!(it.depth(), 3);
    assert_eq!(it.next(), Some(refs[4]));
    assert_eq!(it.depth(), 4);
    assert_eq!(it.next(), Some(refs[5]));
    assert_eq!(it.depth(), 4);
    assert_eq!(it.next(), Some(refs[6]));
    assert_eq!(it.depth(), 3);
    assert_eq!(it.next(), Some(refs[7]));
    assert_eq!(it.depth(), 3);
    assert_eq!(it.next(), Some(refs[8]));
    assert_eq!(it.depth(), 3);
    assert_eq!(it.next(), Some(refs[9]));
    assert_eq!(it.depth(), 2);
    assert_eq!(it.next(), Some(refs[10]));
    assert_eq!(it.depth(), 2);
    assert_eq!(it.next(), None);

    let mut it = tree.nodes().skip_regular_files(true);
    assert_eq!(it.next(), Some(refs[0]));
    assert_eq!(it.next(), Some(refs[1]));
    assert_eq!(it.next(), Some(refs[2]));
    assert_eq!(it.next(), Some(refs[3]));
    assert_eq!(it.next(), None);

    let mut it = tree.nodes().skip_dirs(true);
    assert_eq!(it.next(), Some(refs[4]));
    assert_eq!(it.next(), Some(refs[5]));
    assert_eq!(it.next(), Some(refs[6]));
    assert_eq!(it.next(), Some(refs[7]));
    assert_eq!(it.next(), Some(refs[8]));
    assert_eq!(it.next(), Some(refs[9]));
    assert_eq!(it.next(), Some(refs[10]));
    assert_eq!(it.next(), None);

    let mut it = tree.nodes().min_depth(2).max_depth(2);
    assert_eq!(it.next(), Some(refs[2]));
    assert_eq!(it.next(), Some(refs[9]));
    assert_eq!(it.next(), Some(refs[10]));
    assert_eq!(it.next(), None);
}

#[test]
fn test_macro_compiles_with_literals_and_idents() {
    let mut tree = FsTree::new_dir();
    tree.insert("folder", FsTree::new_dir());
    tree.insert("folder/folder", FsTree::new_dir());
    tree.insert("folder/folder/file", FsTree::Regular);
    tree.insert("folder/folder/file", FsTree::Regular);
    tree.insert("folder/folder/link", link("target"));
    tree.insert("folder/folder/link", link("target"));
    tree.insert("folder/folder/link", link("target"));
    tree.insert("folder/folder/link", link("target"));
    assert!(tree.get("folder/folder/link").unwrap().is_symlink());
}

#[test]
fn test_tree_macro_single_regular_file() {
    let mut result = FsTree::new_dir();
    result.insert("file", FsTree::Regular);
    let expected = dir_of(vec![("file", FsTree::Regular)]);
    assert_eq!(result, expected);
}

#[test]
fn test_tree_macro_empty_directory() {
    let mut result = FsTree::new_dir();
    result.insert("dir", FsTree::new_dir());
    let expected = dir_of(vec![("dir", FsTree::new_dir())]);
    assert_eq!(result, expected);
}

#[test]
fn test_tree_macro_single_symlink() {
    let mut result = FsTree::new_dir();
    result.insert("link", link("target"));
    let expected = dir_of(vec![("link", link("target"))]);
    assert_eq!(result, expected);
}

#[test]
fn test_tree_macro_nested_directories() {
    let result = dir_of(vec![("outer_dir", dir_of(vec![("inner_dir", FsTree::new_dir())]))]);

    let expected = {
        let mut tree = FsTree::new_dir();
        tree.insert("outer_dir", FsTree::Directory(TrieMap::new()));
        tree.insert("outer_dir/inner_dir", FsTree::Directory(TrieMap::new()));
        tree
    };

    assert_eq!(result, expected);
}

#[test]
fn test_tree_macro_mixed_types() {
    let result = dir_of(vec![
        ("config", FsTree::Regular),
        (
            "outer_dir",
            dir_of(vec![("file1", FsTree::Regular), ("file2", FsTree::Regular)]),
        ),
        ("link", link("target")),
    ]);

    let expected = {
        let mut tree = FsTree::new_dir();
        tree.insert("config", FsTree::Regular);
        tree.insert("outer_dir", FsTree::Directory(TrieMap::new()));
        tree.insert("outer_dir/file1", FsTree::Regular);
        tree.insert("outer_dir/file2", FsTree::Regular);
        tree.insert("link", link("target"));
        tree
    };

    assert_eq!(result, expected);
}

// Own tests.

#[test]
fn from_path_text_nests_directories() {
    let t = FsTree::from_path_text("a/b/c");
    assert!(t.is_dir());
    assert!(t.get("a").unwrap().is_dir());
    assert!(t.get("a/b").unwrap().is_dir());
    assert!(t.get("a/b/c").unwrap().is_regular());
    assert!(t.get("a/b/c/d").is_none());
    assert!(t.get("x").is_none());
}

#[test]
fn len_counts_nodes_and_leaves() {
    let t = FsTree::from_path_text("a/b/c");
    assert_eq!(t.len_all(), 4);
    assert_eq!(t.len_leafs(), 1);
    assert_eq!(FsTree::new_dir().len_all(), 1);
    assert_eq!(FsTree::new_dir().len_leafs(), 1);
}

#[test]
fn get_after_insert_gives_inserted_node() {
    let mut t = FsTree::from_path_text("x/y");
    t.insert("x/z", link("somewhere"));
    assert_eq!(t.get("x/z").unwrap(), &link("somewhere"));
    assert_eq!(t.get("x/y").unwrap(), &FsTree::Regular);
}

#[test]
fn merge_keeps_left_on_conflict_and_adds_right() {
    let mut left = FsTree::new_dir();
    left.insert("a", FsTree::Regular);
    let mut right = FsTree::new_dir();
    right.insert("a", FsTree::new_dir());
    right.insert("b", FsTree::Regular);
    assert!(left.conflicts_with(&right));
    assert!(right.conflicts_with(&left));
    let merged = left.merge(right);
    assert_eq!(merged.get("a").unwrap(), &FsTree::Regular);
    assert_eq!(merged.get("b").unwrap(), &FsTree::Regular);
}

#[test]
fn merge_is_idempotent_and_commutes_without_conflict() {
    let t = FsTree::from_path_text("p/q/r");
    assert_eq!(t.clone().merge(t.clone()), t);
    let a = FsTree::from_path_text("p/q");
    let b = FsTree::from_path_text("p/s");
    assert!(!a.conflicts_with(&b));
    assert_eq!(a.clone().merge(b.clone()), b.merge(a));
}

#[test]
fn variant_helpers() {
    let r = FsTree::Regular;
    let d = FsTree::new_dir();
    let s = link("t");
    assert!(r.is_regular() && d.is_dir() && s.is_symlink());
    assert!(!r.is_same_type_as(&d));
    assert!(d.is_same_type_as(&FsTree::from_path_text("q")));
    assert_eq!(r.variant_str(), "regular file");
    assert_eq!(d.variant_str(), "directory");
    assert_eq!(s.variant_str(), "symlink");
    assert!(r.is_leaf() && d.is_leaf() && !FsTree::from_path_text("q").is_leaf());
    assert_eq!(s.target(), Some(&FsPath::from_text("t")));
    assert!(r.children().is_none());
}

#[test]
fn children_mut_and_target_mut_change_in_place() {
    let mut d = FsTree::new_dir();
    d.children_mut().unwrap().insert("n".to_string(), FsTree::Regular);
    assert_eq!(d.get("n").unwrap(), &FsTree::Regular);
    let mut s = link("old");
    *s.target_mut().unwrap() = FsPath::from_text("new");
    assert_eq!(s, link("new"));
    let mut r = FsTree::Regular;
    assert!(r.children_mut().is_none());
}

#[test]
fn get_mut_changes_the_node_in_place() {
    let mut tree = FsTree::from_path_text("a/b/c");
    *tree.get_mut("a/b/c").unwrap() = FsTree::Symlink(FsPath::from_text("t"));
    assert_eq!(tree.get("a/b/c").unwrap(), &FsTree::Symlink(FsPath::from_text("t")));
    *tree.get_mut("./a/b").unwrap() = FsTree::new_dir();
    assert_eq!(tree.get("a/b").unwrap(), &FsTree::new_dir());
    assert!(tree.get("a/b/c").is_none());
    assert!(tree.get_mut("a/x").is_none());
    assert!(tree.get_mut("a/b/c").is_none());
    assert_eq!(tree.index("a/b"), &FsTree::new_dir());
    assert_eq!(tree.index("a"), tree.get("a").unwrap());
}

#[test]
fn mode_t_of_each_node() {
    assert_eq!(FsTree::Regular.as_mode_t(), libc::S_IFREG);
    assert_eq!(FsTree::new_dir().as_mode_t(), libc::S_IFDIR);
    assert_eq!(FsTree::Symlink(FsPath::from_text("t")).as_mode_t(), libc::S_IFLNK);
    assert_eq!(FsTree::Regular.as_mode_t(), 0o100000);
    assert_eq!(fs_tree::tree_node::TreeNode::Regular.as_mode_t(), libc::S_IFREG);
    assert_eq!(fs_tree::tree_node::TreeNode::Directory(vec![]).as_mode_t(), libc::S_IFDIR);
    assert_eq!(fs_tree::tree_node::TreeNode::Symlink(FsPath::from_text("t")).as_mode_t(), libc::S_IFLNK);
}

#[test]
fn merge_keeps_the_left_entries() {
    let mut left = FsTree::from_path_text("a/b");
    left.insert("a/d", FsTree::Symlink(FsPath::from_text("t")));
    let mut right = FsTree::from_path_text("a/b/c");
    right.insert("a/e", FsTree::Regular);
    let merged = left.clone().merge(right);
    // The left tree's file at `a/b` wins over the right tree's directory there.
    assert_eq!(merged.get("a/b").unwrap(), &FsTree::Regular);
    assert_eq!(merged.get("a/d").unwrap(), &FsTree::Symlink(FsPath::from_text("t")));
    assert!(merged.get("a").unwrap().is_dir());
    // What only the right tree holds is added.
    assert_eq!(merged.get("a/e").unwrap(), &FsTree::Regular);
    assert!(merged.get("a/b/c").is_none());
}

#[test]
fn merge_without_conflict_keeps_both_sides() {
    let left = FsTree::from_path_text("a/b");
    let mut right = FsTree::from_path_text("a/c/d");
    right.insert("e", FsTree::Symlink(FsPath::from_text("x")));
    assert!(!left.conflicts_with(&right));
    let merged = left.clone().merge(right.clone());
    assert_eq!(merged.get("a/b").unwrap(), &FsTree::Regular);
    assert_eq!(merged.get("a/c/d").unwrap(), &FsTree::Regular);
    assert_eq!(merged.get("e").unwrap(), &FsTree::Symlink(FsPath::from_text("x")));
    assert_eq!(merged, right.merge(left));
}

#[test]
fn insert_leaves_other_paths_alone() {
    let mut t = FsTree::from_path_text("a/b/c");
    t.insert("a/x", FsTree::Regular);
    t.insert("y", link("t"));
    let before = t.clone();
    t.insert("a/b", link("new"));
    assert_eq!(t.get("a/b").unwrap(), &link("new"));
    assert!(t.get("a/b/c").is_none());
    assert_eq!(t.get("a/x"), before.get("a/x"));
    assert_eq!(t.get("y"), before.get("y"));
    assert!(t.get("a").unwrap().is_dir());
    assert!(t.get("q").is_none());
}

#[test]
fn conflicts_exactly_at_a_clash() {
    let a = FsTree::from_path_text("p/q/r");
    let mut b = FsTree::from_path_text("p/q/s");
    assert!(!a.conflicts_with(&b));
    b.insert("p/q/r", link("l"));
    assert!(a.conflicts_with(&b));
    assert!(b.conflicts_with(&a));
    let c = FsTree::from_path_text("p/q");
    assert!(a.conflicts_with(&c));
}

#[test]
fn merge_holds_the_union_of_paths() {
    let a = FsTree::from_path_text("p/q/r");
    let mut b = FsTree::from_path_text("p/s");
    b.insert("t", FsTree::Regular);
    assert!(!a.conflicts_with(&b));
    let merged = a.clone().merge(b.clone());
    let mut got: Vec<FsPath> = Vec::new();
    let mut it = merged.paths();
    while let Some(p) = it.next() {
        got.push(p);
    }
    let f = FsPath::from_text;
    assert_eq!(got, vec![f(""), f("p"), f("p/q"), f("p/q/r"), f("p/s"), f("t")]);
    for p in [f("p/q/r"), f("p/s"), f("t")] {
        let text = p.pieces().join("/");
        assert!(merged.get(&text).is_some());
        assert!(a.get(&text).is_some() || b.get(&text).is_some());
    }
}

#[test]
fn paths_come_in_increasing_order() {
    let tree = dir_of(vec![
        ("b", dir_of(vec![("z", FsTree::Regular), ("a", FsTree::Regular)])),
        ("a", FsTree::Regular),
        ("ab", link("t")),
    ]);
    let mut got: Vec<std::path::PathBuf> = Vec::new();
    let mut it = tree.paths();
    while let Some(p) = it.next() {
        got.push(p.pieces().iter().collect());
    }
    assert_eq!(got.len(), 6);
    for w in got.windows(2) {
        assert!(w[0] < w[1]);
    }
    assert_eq!(got[0], std::path::PathBuf::from(""));
    assert_eq!(got[5], std::path::PathBuf::from("b/z"));
}

#[test]
fn filtered_items_pass_the_filters() {
    let tree = dir_of(vec![
        ("d", dir_of(vec![("f", FsTree::Regular), ("l", link("t"))])),
        ("g", FsTree::Regular),
    ]);
    let mut it = tree.iter().skip_regular_files(true).min_depth(1);
    let mut seen = 0;
    while let Some((node, path)) = it.next() {
        assert!(!node.is_regular());
        assert!(path.len() >= 1);
        let text = path.pieces().join("/");
        assert_eq!(tree.get(&text).unwrap(), node);
        seen += 1;
    }
    assert_eq!(seen, 2);
}
