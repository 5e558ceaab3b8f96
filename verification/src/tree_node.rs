//! `TreeNode`: the file type of a node, with what a directory or symlink holds.
use vstd::prelude::*;

use crate::fs_tree::FsTree;
use crate::path::FsPath;

verus! {

/// A filesystem tree node type: a regular file, a directory with its (possibly empty) list
/// of children, or a symbolic link with the path it points to (which may be broken).
#[derive(Debug, Clone, PartialEq, Eq, PartialOrd, Ord, Hash)]
pub enum TreeNode {
    /// A regular file.
    Regular,
    /// A directory and the trees inside it.
    Directory(Vec<FsTree>),
    /// A symbolic link and its target path.
    Symlink(FsPath),
}

/// The text that names the file type of a node.
pub open spec fn file_type_text(n: TreeNode) -> Seq<char> {
    match n {
        TreeNode::Regular => seq!['r', 'e', 'g', 'u', 'l', 'a', 'r', ' ', 'f', 'i', 'l', 'e'],
        TreeNode::Directory(_) => seq!['d', 'i', 'r', 'e', 'c', 't', 'o', 'r', 'y'],
        TreeNode::Symlink(_) => seq!['s', 'y', 'm', 'l', 'i', 'n', 'k'],
    }
}

impl TreeNode {
    /// Whether `self` and `other` are of the same variant.
    pub fn is_same_type_as(&self, other: &Self) -> (r: bool)
        ensures
            r == ((*self is Regular && *other is Regular) || (*self is Directory
                && *other is Directory) || (*self is Symlink && *other is Symlink)),
    {
        match (self, other) {
            (TreeNode::Regular, TreeNode::Regular) => true,
            (TreeNode::Directory(_), TreeNode::Directory(_)) => true,
            (TreeNode::Symlink(_), TreeNode::Symlink(_)) => true,
            _ => false,
        }
    }

    /// The file type bits of a `mode_t` for this node: those of a regular file, of a
    /// directory, and, for a symlink, those of a symbolic link.
    pub fn as_mode_t(&self) -> (r: libc::mode_t)
        ensures
            r == match self {
                TreeNode::Regular => 0o100000int,
                TreeNode::Directory(_) => 0o40000int,
                TreeNode::Symlink(_) => 0o120000int,
            },
    {
        match self {
            TreeNode::Regular => crate::outside::mode_regular(),
            TreeNode::Directory(_) => crate::outside::mode_directory(),
            TreeNode::Symlink(_) => crate::outside::mode_symlink(),
        }
    }

    /// Whether this is `TreeNode::Regular`.
    pub fn is_regular(&self) -> (r: bool)
        ensures
            r == *self is Regular,
    {
        matches!(self, TreeNode::Regular)
    }

    /// Whether this is `TreeNode::Directory`.
    pub fn is_dir(&self) -> (r: bool)
        ensures
            r == *self is Directory,
    {
        matches!(self, TreeNode::Directory(_))
    }

    /// Whether this is `TreeNode::Symlink`.
    pub fn is_symlink(&self) -> (r: bool)
        ensures
            r == *self is Symlink,
    {
        matches!(self, TreeNode::Symlink(_))
    }

    /// The name of the file type: `regular file`, `directory` or `symlink`.
    pub fn file_type_display(&self) -> (r: &'static str)
        ensures
            r@ == file_type_text(*self),
    {
        match self {
            TreeNode::Regular => {
                let r = "regular file";
                proof {
                    reveal_strlit("regular file");
                }
                assert(r@ =~= file_type_text(*self));
                r
            },
            TreeNode::Directory(_) => {
                let r = "directory";
                proof {
                    reveal_strlit("directory");
                }
                assert(r@ =~= file_type_text(*self));
                r
            },
            TreeNode::Symlink(_) => {
                let r = "symlink";
                proof {
                    reveal_strlit("symlink");
                }
                assert(r@ =~= file_type_text(*self));
                r
            },
        }
    }
}

} // verus!
