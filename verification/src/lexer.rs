//! The lexer of the first tree format: turns a text into tokens, each with the byte range it
//! was read from.
//!
//! At each position the longest token wins. The only text skipped is a space followed by a
//! tab; a character that starts no token is an `Error` of its own.
use vstd::prelude::*;

use crate::scan::{find_group, find_quote_close, group_at, quote_close};
use crate::text::{chars_of, char_utf8_len, lemma_utf8_len_take, str_byte_len, trim_ws, trimmed, utf8_len_seq};
use crate::tsml::lexer::{byte_at, LexModel};

verus! {

/// A token of the first tree format.
#[derive(Debug, PartialEq)]
pub enum Token {
    /// A group header such as `- [name]`, with the name.
    Group(String),
    /// A quoted value such as `"file"`, with the text between the quotes.
    Value(String),
    /// `:`
    DoubleDots,
    /// `[`
    OpenBracket,
    /// `]`
    CloseBracket,
    /// `->`
    SymlinkArrow,
    /// A line break or a comma.
    Separator,
    /// A character that starts no token.
    Error,
}

impl View for Token {
    type V = LexModel;

    /// The model of a token; a separator is seen as a line break.
    open spec fn view(&self) -> LexModel {
        match self {
            Token::Group(s) => LexModel::Group(s@),
            Token::Value(s) => LexModel::Value(s@),
            Token::DoubleDots => LexModel::DoubleDots,
            Token::OpenBracket => LexModel::OpenBracket,
            Token::CloseBracket => LexModel::CloseBracket,
            Token::SymlinkArrow => LexModel::SymlinkArrow,
            Token::Separator => LexModel::Separator('\n'),
            Token::Error => LexModel::LexError,
        }
    }
}

/// A token and the byte range of the text it was read from.
pub type SpannedToken = (Token, core::ops::Range<usize>);

/// What is read at position `i` of `s`: a token (any separator seen as a line break), or
/// nothing for skipped text, and the number of characters it takes.
pub open spec fn scan_at(s: Seq<char>, i: int) -> (Option<LexModel>, int) {
    let c = s[i];
    match group_at(s, i) {
        Some((k, e)) => (Some(LexModel::Group(trim_ws(s.subrange(k + 1, e)))), e + 1 - i),
        None => {
            if c == ' ' && i + 1 < s.len() && s[i + 1] == '\t' {
                (None, 2)
            } else if quote_close(s, i) is Some {
                let q = quote_close(s, i)->0;
                (Some(LexModel::Value(s.subrange(i + 1, q))), q + 1 - i)
            } else if c == ':' {
                (Some(LexModel::DoubleDots), 1)
            } else if c == '[' {
                (Some(LexModel::OpenBracket), 1)
            } else if c == ']' {
                (Some(LexModel::CloseBracket), 1)
            } else if c == '\n' || c == ',' {
                (Some(LexModel::Separator('\n')), 1)
            } else if c == '-' && i + 1 < s.len() && s[i + 1] == '>' {
                (Some(LexModel::SymlinkArrow), 2)
            } else {
                (Some(LexModel::LexError), 1)
            }
        },
    }
}

/// The tokens of `s` from position `i` on, each with its byte range.
pub open spec fn lex_from(s: Seq<char>, i: int) -> Seq<(LexModel, nat, nat)>
    decreases s.len() - i,
{
    if i < 0 || i >= s.len() {
        Seq::empty()
    } else {
        let n = scan_at(s, i).1;
        if n <= 0 || i + n > s.len() {
            Seq::empty()
        } else {
            let rest = lex_from(s, i + n);
            match scan_at(s, i).0 {
                Some(t) => seq![(t, byte_at(s, i), byte_at(s, i + n))] + rest,
                None => rest,
            }
        }
    }
}

/// The tokens of `s`, each with its byte range.
pub open spec fn lex(s: Seq<char>) -> Seq<(LexModel, nat, nat)> {
    lex_from(s, 0)
}

/// The model of a sequence of spanned tokens.
pub open spec fn spanned_view(v: Seq<SpannedToken>) -> Seq<(LexModel, nat, nat)> {
    Seq::new(v.len(), |k: int| (v[k].0@, v[k].1.start as nat, v[k].1.end as nat))
}

/// The characters of `s` between `a` and `e`.
fn slice_text(s: &[char], a: usize, e: usize) -> (r: String)
    requires
        a <= e <= s@.len(),
    ensures
        r@ == s@.subrange(a as int, e as int),
{
    let mut out = String::new();
    let mut k = a;
    while k < e
        invariant
            a <= k <= e <= s@.len(),
            out@ == s@.subrange(a as int, k as int),
        decreases e - k,
    {
        crate::text::push_char(&mut out, s[k]);
        k += 1;
        assert(out@ =~= s@.subrange(a as int, k as int));
    }
    out
}

/// Reads the token at position `i`, as `scan_at`.
fn scan_token(s: &[char], i: usize) -> (r: (Option<Token>, usize))
    requires
        i < s@.len(),
    ensures
        r.1 as int == scan_at(s@, i as int).1,
        r.0 matches Some(t) ==> scan_at(s@, i as int).0 == Some(t@),
        r.0 is None ==> scan_at(s@, i as int).0 is None,
        1 <= r.1,
        i + r.1 <= s@.len(),
{
    let n = s.len();
    if let Some((k, e)) = find_group(s, i) {
        return (Some(Token::Group(trimmed(s, k + 1, e))), e + 1 - i);
    }
    let c = s[i];
    if c == ' ' && i + 1 < n && s[i + 1] == '\t' {
        return (None, 2);
    }
    if let Some(q) = find_quote_close(s, i) {
        return (Some(Token::Value(slice_text(s, i + 1, q))), q + 1 - i);
    }
    if c == ':' {
        (Some(Token::DoubleDots), 1)
    } else if c == '[' {
        (Some(Token::OpenBracket), 1)
    } else if c == ']' {
        (Some(Token::CloseBracket), 1)
    } else if c == '\n' || c == ',' {
        (Some(Token::Separator), 1)
    } else if c == '-' && i + 1 < n && s[i + 1] == '>' {
        (Some(Token::SymlinkArrow), 2)
    } else {
        (Some(Token::Error), 1)
    }
}

/// Adds to the byte offset `b` of position `i` the bytes of the characters up to `j`.
fn advance_bytes(s: &[char], i: usize, j: usize, b: usize, total: usize) -> (r: usize)
    requires
        i <= j <= s@.len(),
        b == byte_at(s@, i as int),
        total == utf8_len_seq(s@),
    ensures
        r == byte_at(s@, j as int),
{
    let mut k = i;
    let mut acc = b;
    while k < j
        invariant
            i <= k <= j <= s@.len(),
            acc == byte_at(s@, k as int),
            total == utf8_len_seq(s@),
        decreases j - k,
    {
        proof {
            assert(s@.take(k + 1).drop_last() == s@.take(k as int));
            lemma_utf8_len_take(s@, k + 1, s@.len() as int);
            assert(s@.take(s@.len() as int) == s@);
        }
        acc = acc + char_utf8_len(s[k]);
        k += 1;
    }
    acc
}

/// Reads all the tokens of `text`, each with its byte range.
pub fn text_as_tokens(input_text: &str) -> (r: Vec<SpannedToken>)
    ensures
        spanned_view(r@) == lex(input_text@),
{
    let total = str_byte_len(input_text);
    let cs = chars_of(input_text);
    let s = cs.as_slice();
    let mut out: Vec<SpannedToken> = Vec::new();
    let mut i: usize = 0;
    let mut b: usize = 0;
    assert(s@.take(0) =~= Seq::<char>::empty());
    while i < s.len()
        invariant
            i <= s@.len(),
            s@ == input_text@,
            total == utf8_len_seq(s@),
            b == byte_at(s@, i as int),
            spanned_view(out@) + lex_from(s@, i as int) == lex(s@),
        decreases s@.len() - i,
    {
        let (tok, n) = scan_token(s, i);
        let b2 = advance_bytes(s, i, i + n, b, total);
        let ghost before = spanned_view(out@);
        match tok {
            Some(t) => {
                let ghost tv = t@;
                out.push((t, b..b2));
                assert(spanned_view(out@) =~= before + seq![
                    (tv, byte_at(s@, i as int), byte_at(s@, (i + n) as int)),
                ]);
            },
            None => {
                assert(spanned_view(out@) =~= before);
            },
        }
        i = i + n;
        b = b2;
    }
    assert(lex_from(s@, i as int) =~= Seq::<(LexModel, nat, nat)>::empty());
    assert(spanned_view(out@) =~= lex(s@));
    out
}

/// A quoted value is read whole: for any text `w` of at least one character and without a
/// double quote, the text `"w"` lexes to the one token `Value(w)`, spanning all of its
/// bytes.
pub proof fn law_quoted_value_token(w: Seq<char>)
    requires
        w.len() > 0,
        forall|i: int| 0 <= i < w.len() ==> #[trigger] w[i] != '"',
    ensures
        ({
            let s = seq!['"'] + w + seq!['"'];
            lex(s) == seq![(LexModel::Value(w), 0nat, crate::text::utf8_len_seq(s))]
        }),
{
    let s = seq!['"'] + w + seq!['"'];
    let n: int = w.len() as int + 1;
    crate::scan::lemma_quoted_text(w);
    assert(scan_at(s, 0) == (Some(LexModel::Value(w)), n + 1));
    assert(s.take(0) =~= Seq::<char>::empty());
    assert(s.take(s.len() as int) =~= s);
    assert(lex_from(s, n + 1) == Seq::<(LexModel, nat, nat)>::empty());
    assert(lex_from(s, 0) =~= seq![(LexModel::Value(w), 0nat, crate::text::utf8_len_seq(s))]);
}

} // verus!
