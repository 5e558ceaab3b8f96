//! The tree file format: groups of file trees whose nodes carry flags.
use vstd::prelude::*;

pub mod flags;
pub mod groups;
pub mod groups_map;
pub mod laws;
pub mod model;
pub mod parser;
pub mod lexer;

verus! {

/// An error of the tree file functions.
#[derive(Debug, PartialEq, Eq, Structural, Clone, Copy)]
pub enum TreeFileError {
    LexerError,
    ParserError,
    Other,
}

impl TreeFileError {
    /// The error as text for the user.
    pub fn message(&self) -> (r: String)
        ensures
            r@ == "tree file: "@ + match self {
                TreeFileError::LexerError => "lexer error."@,
                TreeFileError::ParserError => "parser error."@,
                TreeFileError::Other => "other error."@,
            },
    {
        let mut text = String::from_str("tree file: ");
        match self {
            TreeFileError::LexerError => text.append("lexer error."),
            TreeFileError::ParserError => text.append("parser error."),
            TreeFileError::Other => text.append("other error."),
        }
        text
    }
}

} // verus!
