//! The tsml text format: a list of file trees, split in named groups, whose nodes carry
//! tags.
use vstd::prelude::*;

pub mod error;
pub mod flags;
pub mod groups;
pub mod groups_map;
pub mod laws;
pub mod lexer;
pub mod model;
pub mod parser;
pub mod serializer;
pub mod tags;

verus! {

} // verus!
