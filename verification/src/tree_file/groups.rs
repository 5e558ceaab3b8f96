//! `Groups`: the trees of a tree file by group, and the order of its groups.
use vstd::prelude::*;

use crate::tree_file::groups_map::FileGroupsMap;
use crate::tree_file::lexer::{lex, run_lexer};
use crate::tree_file::parser::{parse_outcome, try_parse_tokens, POutcome, ParserError};

verus! {

/// Information about a tree file text besides its trees.
#[derive(Debug)]
pub struct GroupsInfo {
    file_path: Option<std::path::PathBuf>,
    groups_order: Vec<String>,
}

impl GroupsInfo {
    /// The group names in the order they first appear.
    pub closed spec fn order_of(self) -> Seq<Seq<char>> {
        self.groups_order.deep_view()
    }

    /// Whether the text was read from a file.
    pub closed spec fn has_file_path(self) -> bool {
        self.file_path is Some
    }

    /// The group names in the order they first appear.
    pub fn groups_order(&self) -> (r: &Vec<String>)
        ensures
            r.deep_view() == self.order_of(),
    {
        &self.groups_order
    }

    /// The file the text was read from, if any.
    pub fn file_path(&self) -> (r: &Option<std::path::PathBuf>)
        ensures
            r is Some == self.has_file_path(),
    {
        &self.file_path
    }
}

/// The trees of a tree file by group, and the order of its groups.
#[derive(Debug)]
pub struct Groups {
    pub map: FileGroupsMap,
    pub info: GroupsInfo,
}

/// Whether `r` is what `Groups::from_text` gives for the parse outcome `o`.
pub open spec fn groups_result_is(r: Result<Groups, ParserError>, o: POutcome) -> bool {
    match o {
        POutcome::Done(ps, order) => r matches Ok(g) && g.map.wf() && g.map.pairs() == ps
            && g.info.order_of() == order && !g.info.has_file_path(),
        POutcome::Fail(l, c, k) => r matches Err(e) && e.line_of() == l && e.column_of() == c
            && e.kind_of() == k,
        POutcome::Abort => false,
    }
}

impl Groups {
    /// Reads the groups of a tree file text; `None` on the input that the parser does not
    /// handle (`POutcome::Abort`).
    pub fn try_from_text(text: &str) -> (r: Option<Result<Self, ParserError>>)
        ensures
            match parse_outcome(lex(text@)) {
                POutcome::Abort => r is None,
                o => r matches Some(x) && groups_result_is(x, o),
            },
    {
        let tokens = run_lexer(text);
        match try_parse_tokens(tokens, text) {
            None => None,
            Some(Ok((map, groups_order))) => Some(
                Ok(Groups { map, info: GroupsInfo { file_path: None, groups_order } }),
            ),
            Some(Err(e)) => Some(Err(e)),
        }
    }

    /// Reads the groups of a tree file text.
    pub fn from_text(text: &str) -> (r: Result<Self, ParserError>)
        requires
            !(parse_outcome(lex(text@)) is Abort),
        ensures
            groups_result_is(r, parse_outcome(lex(text@))),
    {
        Self::try_from_text(text).unwrap()
    }
}

} // verus!
