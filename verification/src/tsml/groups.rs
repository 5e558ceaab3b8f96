//! `Groups`: the trees of a tsml text by group, with what else the text says.
use vstd::prelude::*;

use crate::text::{chars_of, split_char, split_ends};
use crate::tsml::error::{TokenPosition, TsmlError, TsmlResult};
use crate::tsml::groups_map::GroupsMap;
use crate::tsml::lexer::{lex, run_lexer};
use crate::tsml::parser::{parse_outcome, try_parse_tokens, POutcome};

verus! {

/// `l` without a carriage return at its end.
pub open spec fn strip_cr(l: Seq<char>) -> Seq<char> {
    if l.len() > 0 && l.last() == '\r' {
        l.drop_last()
    } else {
        l
    }
}

/// The lines of `s` (`str::lines`): the pieces between line breaks, a carriage return
/// before a line break dropped, and no empty last line after a final line break.
pub open spec fn text_lines(s: Seq<char>) -> Seq<Seq<char>> {
    let raw = split_char(s, '\n');
    let full = raw.drop_last().map_values(|l: Seq<char>| strip_cr(l));
    if raw.last().len() == 0 {
        full
    } else {
        full.push(raw.last())
    }
}

/// Whether a line belongs to the header of a file: it is empty or a `//` comment.
pub open spec fn is_header_line(l: Seq<char>) -> bool {
    l.len() == 0 || (l.len() >= 2 && l[0] == '/' && l[1] == '/')
}

/// The number of lines at the start of `ls` that belong to the header.
pub open spec fn header_len(ls: Seq<Seq<char>>) -> nat
    decreases ls.len(),
{
    if ls.len() == 0 || !is_header_line(ls[0]) {
        0
    } else {
        1 + header_len(ls.drop_first())
    }
}

/// The lines `ls` joined with nothing in between.
pub open spec fn concat_lines(ls: Seq<Seq<char>>) -> Seq<char>
    decreases ls.len(),
{
    if ls.len() == 0 {
        Seq::empty()
    } else {
        concat_lines(ls.drop_last()) + ls.last()
    }
}

/// The header of a text: its first lines while they are empty or `//` comments, joined.
pub open spec fn file_header(s: Seq<char>) -> Seq<char> {
    let ls = text_lines(s);
    concat_lines(ls.take(header_len(ls) as int))
}

pub proof fn lemma_header_len(ls: Seq<Seq<char>>)
    ensures
        header_len(ls) <= ls.len(),
        forall|k: int| 0 <= k < header_len(ls) ==> is_header_line(#[trigger] ls[k]),
        header_len(ls) < ls.len() ==> !is_header_line(ls[header_len(ls) as int]),
    decreases ls.len(),
{
    if ls.len() > 0 && is_header_line(ls[0]) {
        lemma_header_len(ls.drop_first());
        assert forall|k: int| 0 <= k < header_len(ls) implies is_header_line(#[trigger] ls[k]) by {
            if k > 0 {
                assert(ls[k] == ls.drop_first()[k - 1]);
            }
        }
        if header_len(ls) < ls.len() {
            assert(ls[header_len(ls) as int] == ls.drop_first()[header_len(ls) - 1]);
        }
    }
}

/// Collects the start of the file, while its lines are empty or `//` comments, joined
/// without line breaks.
pub fn get_file_header(text: &str) -> (r: String)
    ensures
        r@ == file_header(text@),
{
    let cs = chars_of(text);
    let s = cs.as_slice();
    let n = s.len();
    let (starts, ends) = split_ends(s, 0, n, '\n');
    let ghost raw = split_char(s@.subrange(0, n as int), '\n');
    assert(s@.subrange(0, n as int) =~= text@);
    let ghost ls = text_lines(text@);
    let m = starts.len();
    proof {
        crate::text::lemma_split_char_len(text@, '\n');
        lemma_header_len(ls);
    }
    let mut out = String::new();
    let mut k: usize = 0;
    let mut going = true;
    while going && k < m
        invariant
            m == raw.len() >= 1,
            starts@.len() == m && ends@.len() == m,
            forall|j: int|
                0 <= j < m ==> 0 <= #[trigger] starts@[j] <= ends@[j] <= n && s@.subrange(
                    starts@[j] as int,
                    ends@[j] as int,
                ) == raw[j],
            n == s@.len(),
            raw == split_char(text@, '\n'),
            ls == text_lines(text@),
            k <= m,
            going ==> k <= header_len(ls),
            !going ==> k == header_len(ls),
            k <= ls.len() ==> out@ == concat_lines(ls.take(k as int)),
            k <= ls.len() || !going,
        decreases m - k + (if going { 1int } else { 0int }),
    {
        let a = starts[k];
        let e = ends[k];
        let ghost piece = raw[k as int];
        // The line that this piece gives, if any.
        let last_piece = k + 1 == m;
        if last_piece && a == e {
            // An empty piece after a final line break is no line.
            assert(ls.len() == m - 1);
            proof {
                lemma_header_len(ls);
            }
            going = false;
        } else {
            let mut stop = e;
            if !last_piece && e > a && s[e - 1] == '\r' {
                stop = e - 1;
            }
            let ghost line = s@.subrange(a as int, stop as int);
            proof {
                if last_piece {
                    assert(line == piece);
                    assert(ls[k as int] == piece);
                } else {
                    assert(raw.drop_last()[k as int] == piece);
                    assert(line =~= strip_cr(piece));
                    assert(ls[k as int] == strip_cr(piece));
                }
            }
            let header_line = a == stop || (stop - a >= 2 && s[a] == '/' && s[a + 1] == '/');
            assert(header_line == is_header_line(line));
            assert(k < ls.len());
            assert(line == ls[k as int]);
            proof {
                lemma_header_len(ls);
                if header_line {
                    if header_len(ls) == k {
                        assert(!is_header_line(ls[k as int]));
                    }
                } else {
                    if k < header_len(ls) {
                        assert(is_header_line(ls[k as int]));
                    }
                }
            }
            if header_line {
                let mut p = a;
                let ghost before = out@;
                while p < stop
                    invariant
                        a <= p <= stop <= n,
                        n == s@.len(),
                        out@ == before + s@.subrange(a as int, p as int),
                    decreases stop - p,
                {
                    crate::text::push_char(&mut out, s[p]);
                    p += 1;
                    assert(out@ =~= before + s@.subrange(a as int, p as int));
                }
                assert(ls.take(k + 1).drop_last() =~= ls.take(k as int));
                k += 1;
            } else {
                going = false;
            }
        }
    }
    proof {
        if going {
            assert(k == m);
            assert(ls.len() <= m);
            if k < ls.len() {
                assert(false);
            }
        }
    }
    out
}

/// The number of empty lines at the end of `ls`.
pub open spec fn trailing_empty(ls: Seq<Seq<char>>) -> nat
    decreases ls.len(),
{
    if ls.len() == 0 || ls.last().len() != 0 {
        0
    } else {
        1 + trailing_empty(ls.drop_last())
    }
}

/// A header ready to be written back: as many characters dropped from its end as it has
/// empty lines at its end.
pub open spec fn rewritten_header(h: Seq<char>) -> Seq<char> {
    let k = trailing_empty(text_lines(h));
    if k >= h.len() {
        Seq::empty()
    } else {
        h.take(h.len() - k)
    }
}

pub proof fn lemma_trailing_empty_le(ls: Seq<Seq<char>>)
    ensures
        trailing_empty(ls) <= ls.len(),
    decreases ls.len(),
{
    if ls.len() > 0 && ls.last().len() == 0 {
        lemma_trailing_empty_le(ls.drop_last());
    }
}

/// Prepares a file header to be written back (see `rewritten_header`).
pub fn header_for_rewrite(header: &str) -> (r: String)
    ensures
        r@ == rewritten_header(header@),
{
    let cs = chars_of(header);
    let s = cs.as_slice();
    let n = s.len();
    let (starts, ends) = split_ends(s, 0, n, '\n');
    let ghost raw = split_char(s@.subrange(0, n as int), '\n');
    assert(s@.subrange(0, n as int) =~= header@);
    let ghost ls = text_lines(header@);
    let m = starts.len();
    proof {
        crate::text::lemma_split_char_len(header@, '\n');
    }
    // The lines, from the last one back, as (start, end) ranges of `s`.
    let mut count: usize = 0;
    let mut k: usize = if m >= 1 && starts[m - 1] == ends[m - 1] { m - 1 } else { m };
    assert(ls.len() == k);
    assert(ls.take(k as int) =~= ls);
    let mut going = true;
    while going && k > 0
        invariant
            m == raw.len() >= 1,
            starts@.len() == m && ends@.len() == m,
            forall|j: int|
                0 <= j < m ==> 0 <= #[trigger] starts@[j] <= ends@[j] <= n && s@.subrange(
                    starts@[j] as int,
                    ends@[j] as int,
                ) == raw[j],
            n == s@.len(),
            raw == split_char(header@, '\n'),
            ls == text_lines(header@),
            k <= ls.len(),
            count == ls.len() - k,
            going ==> trailing_empty(ls) == count + trailing_empty(ls.take(k as int)),
            !going ==> trailing_empty(ls) == count,
        decreases k + (if going { 1int } else { 0int }),
    {
        let a = starts[k - 1];
        let e = ends[k - 1];
        let ghost line = ls[k - 1];
        proof {
            if k == m {
                assert(line == raw[k - 1]);
            } else {
                assert(raw.drop_last()[k - 1] == raw[k - 1]);
                assert(line == strip_cr(raw[k - 1]));
            }
            assert(ls.take(k as int).last() == line);
            assert(ls.take(k as int).drop_last() =~= ls.take(k - 1));
        }
        let empty = if k == m {
            a == e
        } else {
            a == e || (e == a + 1 && s[a] == '\r')
        };
        proof {
            if k != m {
                if e == a + 1 {
                    assert(raw[k - 1] =~= seq![s@[a as int]]);
                }
                if a == e {
                    assert(raw[k - 1].len() == 0);
                }
            } else {
                assert(raw[k - 1].len() == e - a);
            }
        }
        assert(empty == (line.len() == 0));
        if empty {
            count += 1;
            k -= 1;
        } else {
            going = false;
        }
    }
    proof {
        if going {
            assert(ls.take(0) =~= Seq::<Seq<char>>::empty());
        }
        lemma_trailing_empty_le(ls);
    }
    let mut out = String::new();
    let keep: usize = if count >= n { 0 } else { n - count };
    let mut p: usize = 0;
    while p < keep
        invariant
            p <= keep <= n == s@.len(),
            out@ == s@.take(p as int),
        decreases keep - p,
    {
        crate::text::push_char(&mut out, s[p]);
        p += 1;
        assert(out@ =~= s@.take(p as int));
    }
    proof {
        if count >= n {
            assert(out@ =~= Seq::<char>::empty());
        }
    }
    out
}

/// Information about a tsml text besides its trees.
#[derive(Debug, Clone)]
pub struct GroupsInfo {
    /// The file the text was read from, if any.
    pub file_path: Option<std::path::PathBuf>,
    /// The comments and empty lines at the start of the text.
    pub file_header: String,
    /// The group names in the order they first appear.
    pub groups_order: Vec<String>,
}

/// The trees of a tsml text by group, and what else the text says.
#[derive(Debug, Clone)]
pub struct Groups {
    pub map: GroupsMap,
    pub info: GroupsInfo,
}

/// Whether `r` is what `Groups::from_text` gives for the parse outcome `o` of `text`.
pub open spec fn groups_result_is(r: TsmlResult<Groups>, o: POutcome, text: Seq<char>) -> bool {
    match o {
        POutcome::Done(ps, order) => r matches Ok(g) && g.map.wf() && g.map.pairs() == ps
            && g.info.groups_order.deep_view() == order && g.info.file_header@ == file_header(text)
            && g.info.file_path is None,
        POutcome::Fail(l, c, k) => r matches Err(TsmlError::ParserError(p, kind)) && p.line == l
            && p.column == c && kind == k,
        POutcome::Abort => false,
    }
}

impl Groups {
    /// Reads the groups of a tsml text; `None` on the input that the parser does not handle
    /// (`POutcome::Abort`).
    pub fn try_from_text(text: &str) -> (r: Option<TsmlResult<Self>>)
        ensures
            match parse_outcome(lex(text@)) {
                POutcome::Abort => r is None,
                o => r matches Some(x) && groups_result_is(x, o, text@),
            },
    {
        let tokens = run_lexer(text);
        match try_parse_tokens(tokens, text) {
            None => None,
            Some(Ok((map, groups_order))) => Some(
                Ok(
                    Groups {
                        map,
                        info: GroupsInfo {
                            file_path: None,
                            file_header: get_file_header(text),
                            groups_order,
                        },
                    },
                ),
            ),
            Some(Err(e)) => Some(
                Err(
                    TsmlError::ParserError(
                        TokenPosition { line: e.line(), column: e.column() },
                        e.kind(),
                    ),
                ),
            ),
        }
    }

    /// Reads the groups of a tsml text.
    pub fn from_text(text: &str) -> (r: TsmlResult<Self>)
        requires
            !(parse_outcome(lex(text@)) is Abort),
        ensures
            groups_result_is(r, parse_outcome(lex(text@)), text@),
    {
        Self::try_from_text(text).unwrap()
    }
}

} // verus!
