//! The errors of the tsml functions.
use vstd::prelude::*;

use crate::outside::{lossy_text, path_text_lossy};
use crate::text::{decimal, push_decimal};
use crate::tsml::parser::ParserErrorKind;

verus! {

/// Where a token starts: its line (from 1) and byte column within the line.
#[derive(Debug, PartialEq, Eq, Structural, Clone, Copy)]
pub struct TokenPosition {
    pub line: usize,
    pub column: usize,
}

/// An error of the tsml functions.
#[derive(Debug)]
pub enum TsmlError {
    /// The text could not be read into tokens.
    LexerError,
    /// The tokens do not form groups of trees.
    ParserError(TokenPosition, ParserErrorKind),
    /// Reading or writing a file failed.
    IoError(std::io::Error),
    /// A path without a file name.
    PathWithoutName,
    /// A path that is not UTF-8.
    NonUtf8Path(std::path::PathBuf),
    /// Anything else.
    Other,
}

/// The result of the tsml functions.
pub type TsmlResult<T> = Result<T, TsmlError>;

/// What a tsml error of a parse error of kind `kind` says after its position.
pub open spec fn tsml_parser_kind_text(kind: ParserErrorKind) -> Seq<char> {
    match kind {
        ParserErrorKind::BracketUnclosed => "unclosed brackets"@,
        ParserErrorKind::BracketUnexpectedClose => "unexpected close brackets, what are you closing?"@,
        ParserErrorKind::BracketUnexpectedOpen => "what are you trying to open there?????"@,
        ParserErrorKind::CommasOutsideOfBrackets => "no commas alowed outsite of scopes"@,
        ParserErrorKind::MissingSymlinkTarget => "arrow without the plim plimplimplim"@,
        ParserErrorKind::TagAfterTag => "tag after tag problemo"@,
    }
}

impl TsmlError {
    /// The I/O error under this one, if any (what `std::error::Error::source` gives).
    pub fn source(&self) -> (r: Option<&std::io::Error>)
        ensures
            match self {
                TsmlError::IoError(e) => r == Some(e),
                _ => r is None,
            },
    {
        match self {
            TsmlError::IoError(err) => Some(err),
            _ => None,
        }
    }

    /// The error as text for the user: `tsml: ` and what went wrong. The text of an I/O
    /// error is the one that `std::io::Error` displays, and a path is shown with its bytes
    /// that are not UTF-8 replaced.
    pub fn message(&self) -> (r: String)
        ensures
            match self {
                TsmlError::LexerError => r@ == "tsml: "@ + "lexer error"@,
                TsmlError::ParserError(pos, kind) => r@ == "tsml: "@ + "parser error at "@
                    + decimal(pos.line as nat) + ":"@ + decimal(pos.column as nat) + ": "@
                    + tsml_parser_kind_text(*kind),
                TsmlError::IoError(e) => exists|shown: String|
                    vstd::string::to_string_from_display_ensures::<std::io::Error>(e, shown)
                        && r@ == "tsml: "@ + "Io error: "@ + shown@,
                TsmlError::PathWithoutName => r@ == "tsml: "@
                    + "found an empty (thus invalid) path"@,
                TsmlError::NonUtf8Path(path) => r@ == "tsml: "@
                    + "found a path name that is invalid UTF-8: "@ + lossy_text(*path),
                TsmlError::Other => r@ == "tsml: "@ + "other error"@,
            },
    {
        let mut text = String::from_str("tsml: ");
        match self {
            TsmlError::LexerError => text.append("lexer error"),
            TsmlError::IoError(err) => {
                text.append("Io error: ");
                let shown = err.to_string();
                text.append(shown.as_str());
            },
            TsmlError::PathWithoutName => text.append("found an empty (thus invalid) path"),
            TsmlError::NonUtf8Path(path) => {
                text.append("found a path name that is invalid UTF-8: ");
                let shown = path_text_lossy(path);
                text.append(shown.as_str());
            },
            TsmlError::Other => text.append("other error"),
            TsmlError::ParserError(position, kind) => {
                text.append("parser error at ");
                push_decimal(&mut text, position.line);
                text.append(":");
                push_decimal(&mut text, position.column);
                text.append(": ");
                match kind {
                    ParserErrorKind::BracketUnclosed => text.append("unclosed brackets"),
                    ParserErrorKind::BracketUnexpectedClose => {
                        text.append("unexpected close brackets, what are you closing?")
                    },
                    ParserErrorKind::BracketUnexpectedOpen => {
                        text.append("what are you trying to open there?????")
                    },
                    ParserErrorKind::CommasOutsideOfBrackets => {
                        text.append("no commas alowed outsite of scopes")
                    },
                    ParserErrorKind::MissingSymlinkTarget => {
                        text.append("arrow without the plim plimplimplim")
                    },
                    ParserErrorKind::TagAfterTag => text.append("tag after tag problemo"),
                }
            },
        }
        text
    }
}

impl From<std::io::Error> for TsmlError {
    fn from(source: std::io::Error) -> (r: Self)
        ensures
            r matches TsmlError::IoError(e) && e == source,
    {
        TsmlError::IoError(source)
    }
}

impl vstd::std_specs::convert::FromSpecImpl<std::io::Error> for TsmlError {
    open spec fn obeys_from_spec() -> bool {
        true
    }

    open spec fn from_spec(v: std::io::Error) -> TsmlError {
        TsmlError::IoError(v)
    }
}

} // verus!
