use fs_tree::dotfiles::DotfileGroup;
use fs_tree::errors::{FtError, FtErrorKind};
use fs_tree::file_structure::FileType;
use fs_tree::file_tree::FileTree;
use fs_tree::fs_tree::FsTree;
use fs_tree::link::{construct_link_target, Destination, FileKind, LinkBehavior, LinkInformation, LinkStep};
use fs_tree::path::FsPath;
use fs_tree::structure::{tree_from_listing, Probe};
use fs_tree::tree_file::flags::{Flag, FlagType, Flags};
use fs_tree::tree_node::TreeNode;

fn p(text: &str) -> FsPath {
    FsPath::from_text(text)
}

#[test]
fn link_target_climbs_to_dotfiles() {
    assert_eq!(construct_link_target(&p("a/b/c"), &p("grp")), p("../../dotfiles/grp/a/b/c"));
    assert_eq!(construct_link_target(&p(".vimrc"), &p("vim")), p("dotfiles/vim/.vimrc"));
    // An absolute group path replaces what came before it.
    assert_eq!(construct_link_target(&p("x/y"), &p("/abs")), p("/abs/x/y"));
}

#[test]
fn trim_starting_path() {
    let tree: FileTree<()> = FileTree::from_path_text("home/user/dots/a/b");
    let mut group = DotfileGroup::new(p("home/user/dots"), vec![tree]);
    group.trim_starting_path_from_files();
    let root = &group.files[0];
    // The first three components are taken off every path.
    assert_eq!(root.path(), &p(""));
    let mut node = root;
    for want in ["", "", "a", "a/b"] {
        node = &node.children().unwrap()[0];
        assert_eq!(node.path(), &p(want));
    }
    assert_eq!(group.starting_path, p("home/user/dots"));
}

#[test]
fn files_into_queue_order() {
    let dir = |name: &str| FileTree::<()>::new_directory(p(name), vec![]);
    let reg = |name: &str| FileTree::<()>::new_regular(p(name));
    let mut group = DotfileGroup::new(p("g"), vec![dir("d1"), reg("r1"), dir("d2"), reg("r2")]);
    let queue = group.files_into_queue();
    let names: Vec<FsPath> = queue.iter().map(|t| t.path().clone()).collect();
    assert_eq!(names, vec![p("r1"), p("r2"), p("d2"), p("d1")]);
    assert!(group.files.is_empty());
}

#[test]
fn link_information_setup() {
    let mut info = LinkInformation::new();
    assert!(!info.critical_error_occurred());
    info.configure_behavior(LinkBehavior::new(true, false, true, false));
    assert_eq!(info.link_behavior, LinkBehavior::new(true, false, true, false));
    info.add_group(DotfileGroup::new(p("g"), vec![]));
    assert_eq!(info.groups.len(), 1);
    info.errors.push("oops".to_string());
    assert!(info.critical_error_occurred());
}

#[test]
fn tree_node_kinds() {
    let r = TreeNode::Regular;
    let d = TreeNode::Directory(vec![FsTree::new_dir()]);
    let s = TreeNode::Symlink(p("t"));
    assert_eq!(r.file_type_display(), "regular file");
    assert_eq!(d.file_type_display(), "directory");
    assert_eq!(s.file_type_display(), "symlink");
    assert!(r.is_regular() && d.is_dir() && s.is_symlink());
    assert!(!r.is_same_type_as(&s));
    assert!(d.is_same_type_as(&TreeNode::Directory(vec![])));
}

#[test]
fn flags_and_errors() {
    let mut flags = Flags::new();
    flags.add_flag(Flag::new("x", FlagType::Direct));
    let other = Flags::from(vec![Flag::new("y", FlagType::GroupInherited)]);
    assert_eq!(flags.inner.len(), 1);
    assert_eq!(flags.inner[0].name, "x");
    assert_eq!(other.inner[0].flag_type, FlagType::GroupInherited);
    let err = FtError::new(FtErrorKind::NotFoundError, std::path::PathBuf::from("/x"), "ctx");
    assert_eq!(err.context(), "ctx");
    assert_eq!(err.path(), &std::path::PathBuf::from("/x"));
    assert!(matches!(err.kind(), FtErrorKind::NotFoundError));
}

#[test]
fn structure_from_probes_copies_found_paths() {
    let mut tree = FsTree::new_dir();
    tree.insert("a", FsTree::new_dir());
    tree.insert("a/b", FsTree::Regular);
    tree.insert("c", FsTree::Regular);
    // Visit order: "", "a", "a/b", "c".
    let probes = vec![Probe::Directory, Probe::Directory, Probe::Missing, Probe::Symlink(p("t"))];
    let copy = tree.structure_from_probes(&probes).unwrap();
    let mut expected = FsTree::new_dir();
    expected.insert("a", FsTree::new_dir());
    expected.insert("c", FsTree::Symlink(p("t")));
    assert_eq!(copy, expected);
    // A found child under a path found as a regular file cannot be placed.
    let probes = vec![Probe::Directory, Probe::Regular, Probe::Regular, Probe::Other];
    assert!(tree.structure_from_probes(&probes).is_none());
    assert_eq!(tree.checked_len_all(), Some(4));
}

#[test]
fn file_type_defaults() {
    let t: FileType<()> = FileType::default();
    assert!(t.is_regular() && !t.is_dir() && !t.is_symlink());
    assert!(t.children().is_none());
}

#[test]
fn plan_file_decisions() {
    let mut info = LinkInformation::new();
    let reg: FileTree<()> = FileTree::new_regular(p("f"));
    assert_eq!(info.plan_file(p("/s/f"), p("/h/f"), &reg, Destination::Missing), LinkStep::Done);
    assert_eq!(info.payload.links().len(), 1);
    assert_eq!(info.plan_file(p("/s/f"), p("/h/f"), &reg, Destination::Regular), LinkStep::Done);
    assert_eq!(info.conflicts.len(), 1);
    assert_eq!(info.conflicts[0].destination_path, p("/h/f"));
    info.configure_behavior(LinkBehavior::new(false, true, false, true));
    assert_eq!(info.plan_file(p("/s/f"), p("/h/f"), &reg, Destination::Regular), LinkStep::Done);
    assert_eq!(info.payload.deletes().len(), 1);
    assert_eq!(info.payload.deletes()[0], (p("/h/f"), FileKind::Regular));
    assert_eq!(info.plan_file(p("/s/f"), p("/h/f"), &reg, Destination::Directory), LinkStep::Abort);
    let dir: FileTree<()> = FileTree::new_directory(p("d"), vec![]);
    assert_eq!(
        info.plan_file(p("/s/d"), p("/h/d"), &dir, Destination::Directory),
        LinkStep::Descend
    );
    assert_eq!(
        info.plan_file(p("/s/f"), p("/h/f"), &reg, Destination::Symlink(p("/s/f"))),
        LinkStep::Done
    );
    assert_eq!(info.payload.links().len(), 2);
    assert_eq!(
        info.plan_file(p("/s/d"), p("/h/d"), &dir, Destination::Symlink(p("/x"))),
        LinkStep::Done
    );
    assert_eq!(info.payload.deletes()[1], (p("/h/d"), FileKind::Directory));
    let link: FileTree<()> = FileTree::new_symlink(p("l"), p("t"));
    assert_eq!(info.plan_file(p("/s/l"), p("/h/l"), &link, Destination::Regular), LinkStep::Abort);
}

#[test]
fn structure_copy_is_the_intersection() {
    let mut tree = FsTree::new_dir();
    tree.insert("a", FsTree::new_dir());
    tree.insert("a/b", FsTree::Regular);
    tree.insert("a/c", FsTree::Regular);
    // Visit order: "", "a", "a/b", "a/c". On disk `a/b` is a directory and `a/c` is missing.
    let probes = vec![Probe::Directory, Probe::Directory, Probe::Directory, Probe::Missing];
    let copy = tree.structure_from_probes(&probes).unwrap();
    assert!(copy.is_dir());
    assert!(copy.get("a").unwrap().is_dir());
    assert!(copy.get("a/b").unwrap().is_dir());
    assert!(copy.get("a/c").is_none());
    assert_eq!(copy.checked_len_all(), Some(3));
    // Nothing found below the root: the copy is an empty directory.
    let probes = vec![Probe::Directory, Probe::Missing, Probe::Missing, Probe::Missing];
    assert_eq!(tree.structure_from_probes(&probes).unwrap(), FsTree::new_dir());
}

#[test]
fn tree_from_listing_places_each_entry() {
    let listing = vec![
        (p(""), Probe::Directory),
        (p("b"), Probe::Directory),
        (p("b/x"), Probe::Symlink(p("t"))),
        (p("a"), Probe::Regular),
        (p("b/y"), Probe::Directory),
    ];
    let tree = tree_from_listing(&listing).unwrap();
    let mut expected = FsTree::new_dir();
    expected.insert("a", FsTree::Regular);
    expected.insert("b", FsTree::new_dir());
    expected.insert("b/x", FsTree::Symlink(p("t")));
    expected.insert("b/y", FsTree::new_dir());
    assert_eq!(tree, expected);
    // Reading a single file gives a regular file.
    assert_eq!(tree_from_listing(&[(p(""), Probe::Regular)]).unwrap(), FsTree::Regular);
}

#[test]
fn tree_from_listing_fails_at_the_first_unusable_entry() {
    let listing = vec![
        (p(""), Probe::Directory),
        (p("a"), Probe::Regular),
        (p("s"), Probe::Other),
        (p("m"), Probe::Missing),
    ];
    assert_eq!(tree_from_listing(&listing), Err(2));
    // An entry whose parent is a regular file cannot be placed.
    let listing = vec![(p(""), Probe::Directory), (p("a"), Probe::Regular), (p("a/b"), Probe::Regular)];
    assert_eq!(tree_from_listing(&listing), Err(2));
    assert_eq!(tree_from_listing(&[]), Ok(FsTree::new_dir()));
}
