use vstd::prelude::*;

pub mod diff;
pub mod dotfiles;
pub mod errors;
pub mod file_structure;
pub mod file_tree;
pub mod fs_tree;
pub mod fs_tree_laws;
pub mod iter;
pub mod lexer;
pub mod iter_laws;
pub mod link;
pub mod names;
pub mod outside;
pub mod tsml;
pub mod path;
pub mod scan;
pub mod structure;
pub mod text;
pub mod tree_file;
pub mod tree_node;

verus! {

} // verus!
