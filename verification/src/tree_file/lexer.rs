//! The tree file lexer: turns a text into tokens, each with the byte range it was read from.
//!
//! At each position the longest token wins. Runs of spaces and tabs, and `//` comments up
//! to and including their line break, are skipped. A character that starts no token is a
//! `LexError` of its own.
use vstd::prelude::*;

use crate::scan::{
    find_group, find_paren_close, find_quote_close, group_at, lemma_run_len, paren_close,
    quote_close, run_end, run_len, RunKind,
};
use crate::text::{chars_of, char_utf8_len, lemma_utf8_len_take, str_byte_len, trim_ws, trimmed, utf8_len_seq};
use crate::tsml::lexer::{byte_at, LexModel};

verus! {

/// A tree file token.
#[derive(Debug, PartialEq)]
pub enum LexToken {
    /// A group header such as `- [name]`, with the name.
    Group(String),
    /// A parenthesised flag list such as `(a, b)`; its flags are not read.
    Flags(Vec<String>),
    /// A quoted value such as `"file"`, with the text between the quotes.
    Value(String),
    /// `:`
    DoubleDots,
    /// `[`
    OpenBracket,
    /// `]`
    CloseBracket,
    /// `->`
    SymlinkArrow,
    /// A line break or a comma.
    Separator(char),
    /// A character that starts no token.
    LexError,
}

impl View for LexToken {
    type V = LexModel;

    open spec fn view(&self) -> LexModel {
        match self {
            LexToken::Group(s) => LexModel::Group(s@),
            LexToken::Flags(v) => LexModel::Tags(v.deep_view()),
            LexToken::Value(s) => LexModel::Value(s@),
            LexToken::DoubleDots => LexModel::DoubleDots,
            LexToken::OpenBracket => LexModel::OpenBracket,
            LexToken::CloseBracket => LexModel::CloseBracket,
            LexToken::SymlinkArrow => LexModel::SymlinkArrow,
            LexToken::Separator(c) => LexModel::Separator(*c),
            LexToken::LexError => LexModel::LexError,
        }
    }
}

/// A token and the byte range of the text it was read from.
pub type SpannedLexToken = (LexToken, core::ops::Range<usize>);

/// What is read at position `i` of `s`: a token (a flag list as an empty tag list), or
/// nothing for skipped text, and the number of characters it takes.
pub open spec fn scan_at(s: Seq<char>, i: int) -> (Option<LexModel>, int) {
    let c = s[i];
    match group_at(s, i) {
        Some((k, e)) => (Some(LexModel::Group(trim_ws(s.subrange(k + 1, e)))), e + 1 - i),
        None => {
            let line_end = i + 2 + run_len(s, i + 2, RunKind::Line);
            if c == ' ' || c == '\t' {
                (None, run_len(s, i, RunKind::Blanks) as int)
            } else if c == '/' && i + 1 < s.len() && s[i + 1] == '/' && line_end < s.len() {
                (None, line_end + 1 - i)
            } else if c == '(' && paren_close(s, i + 1) is Some {
                (Some(LexModel::Tags(Seq::empty())), paren_close(s, i + 1)->0 + 1 - i)
            } else if quote_close(s, i) is Some {
                let q = quote_close(s, i)->0;
                (Some(LexModel::Value(s.subrange(i + 1, q))), q + 1 - i)
            } else if c == ':' {
                (Some(LexModel::DoubleDots), 1)
            } else if c == '[' {
                (Some(LexModel::OpenBracket), 1)
            } else if c == ']' {
                (Some(LexModel::CloseBracket), 1)
            } else if c == '\n' || c == ',' {
                (Some(LexModel::Separator(c)), 1)
            } else if c == '-' && i + 1 < s.len() && s[i + 1] == '>' {
                (Some(LexModel::SymlinkArrow), 2)
            } else {
                (Some(LexModel::LexError), 1)
            }
        },
    }
}

/// The tokens of `s` from position `i` on, each with its byte range.
pub open spec fn lex_from(s: Seq<char>, i: int) -> Seq<(LexModel, nat, nat)>
    decreases s.len() - i,
{
    if i < 0 || i >= s.len() {
        Seq::empty()
    } else {
        let n = scan_at(s, i).1;
        if n <= 0 || i + n > s.len() {
            Seq::empty()
        } else {
            let rest = lex_from(s, i + n);
            match scan_at(s, i).0 {
                Some(t) => seq![(t, byte_at(s, i), byte_at(s, i + n))] + rest,
                None => rest,
            }
        }
    }
}

/// The tokens of `s`, each with its byte range.
pub open spec fn lex(s: Seq<char>) -> Seq<(LexModel, nat, nat)> {
    lex_from(s, 0)
}

/// The model of a sequence of spanned tokens.
pub open spec fn spanned_view(v: Seq<SpannedLexToken>) -> Seq<(LexModel, nat, nat)> {
    Seq::new(v.len(), |k: int| (v[k].0@, v[k].1.start as nat, v[k].1.end as nat))
}

/// The characters of `s` between `a` and `e`.
fn slice_text(s: &[char], a: usize, e: usize) -> (r: String)
    requires
        a <= e <= s@.len(),
    ensures
        r@ == s@.subrange(a as int, e as int),
{
    let mut out = String::new();
    let mut k = a;
    while k < e
        invariant
            a <= k <= e <= s@.len(),
            out@ == s@.subrange(a as int, k as int),
        decreases e - k,
    {
        crate::text::push_char(&mut out, s[k]);
        k += 1;
        assert(out@ =~= s@.subrange(a as int, k as int));
    }
    out
}

/// Reads the token at position `i`, as `scan_at`.
fn scan_token(s: &[char], i: usize) -> (r: (Option<LexToken>, usize))
    requires
        i < s@.len(),
    ensures
        r.1 as int == scan_at(s@, i as int).1,
        r.0 matches Some(t) ==> scan_at(s@, i as int).0 == Some(t@),
        r.0 is None ==> scan_at(s@, i as int).0 is None,
        1 <= r.1,
        i + r.1 <= s@.len(),
{
    let n = s.len();
    if let Some((k, e)) = find_group(s, i) {
        return (Some(LexToken::Group(trimmed(s, k + 1, e))), e + 1 - i);
    }
    let c = s[i];
    if c == ' ' || c == '\t' {
        proof {
            lemma_run_len(s@, i as int, RunKind::Blanks);
        }
        return (None, run_end(s, i, RunKind::Blanks) - i);
    }
    if c == '/' && i + 1 < n && s[i + 1] == '/' {
        proof {
            lemma_run_len(s@, i + 2, RunKind::Line);
        }
        let line_end = run_end(s, i + 2, RunKind::Line);
        if line_end < n {
            return (None, line_end + 1 - i);
        }
    }
    if c == '(' {
        if let Some(q) = find_paren_close(s, i + 1) {
            let empty: Vec<String> = Vec::new();
            assert(empty.deep_view() =~= Seq::<Seq<char>>::empty());
            return (Some(LexToken::Flags(empty)), q + 1 - i);
        }
    }
    if let Some(q) = find_quote_close(s, i) {
        return (Some(LexToken::Value(slice_text(s, i + 1, q))), q + 1 - i);
    }
    if c == ':' {
        (Some(LexToken::DoubleDots), 1)
    } else if c == '[' {
        (Some(LexToken::OpenBracket), 1)
    } else if c == ']' {
        (Some(LexToken::CloseBracket), 1)
    } else if c == '\n' || c == ',' {
        (Some(LexToken::Separator(c)), 1)
    } else if c == '-' && i + 1 < n && s[i + 1] == '>' {
        (Some(LexToken::SymlinkArrow), 2)
    } else {
        (Some(LexToken::LexError), 1)
    }
}

/// Adds to the byte offset `b` of position `i` the bytes of the characters up to `j`.
fn advance_bytes(s: &[char], i: usize, j: usize, b: usize, total: usize) -> (r: usize)
    requires
        i <= j <= s@.len(),
        b == byte_at(s@, i as int),
        total == utf8_len_seq(s@),
    ensures
        r == byte_at(s@, j as int),
{
    let mut k = i;
    let mut acc = b;
    while k < j
        invariant
            i <= k <= j <= s@.len(),
            acc == byte_at(s@, k as int),
            total == utf8_len_seq(s@),
        decreases j - k,
    {
        proof {
            assert(s@.take(k + 1).drop_last() == s@.take(k as int));
            lemma_utf8_len_take(s@, k + 1, s@.len() as int);
            assert(s@.take(s@.len() as int) == s@);
        }
        acc = acc + char_utf8_len(s[k]);
        k += 1;
    }
    acc
}

/// Reads all the tokens of `input_text`, each with its byte range.
pub fn run_lexer(input_text: &str) -> (r: Vec<SpannedLexToken>)
    ensures
        spanned_view(r@) == lex(input_text@),
{
    let total = str_byte_len(input_text);
    let cs = chars_of(input_text);
    let s = cs.as_slice();
    let mut out: Vec<SpannedLexToken> = Vec::new();
    let mut i: usize = 0;
    let mut b: usize = 0;
    assert(s@.take(0) =~= Seq::<char>::empty());
    while i < s.len()
        invariant
            i <= s@.len(),
            s@ == input_text@,
            total == utf8_len_seq(s@),
            b == byte_at(s@, i as int),
            spanned_view(out@) + lex_from(s@, i as int) == lex(s@),
        decreases s@.len() - i,
    {
        let (tok, n) = scan_token(s, i);
        let b2 = advance_bytes(s, i, i + n, b, total);
        let ghost before = spanned_view(out@);
        match tok {
            Some(t) => {
                let ghost tv = t@;
                out.push((t, b..b2));
                assert(spanned_view(out@) =~= before + seq![
                    (tv, byte_at(s@, i as int), byte_at(s@, (i + n) as int)),
                ]);
            },
            None => {
                assert(spanned_view(out@) =~= before);
            },
        }
        i = i + n;
        b = b2;
    }
    assert(lex_from(s@, i as int) =~= Seq::<(LexModel, nat, nat)>::empty());
    assert(spanned_view(out@) =~= lex(s@));
    out
}

} // verus!
