//! Matchers for the pieces of the tree text formats: runs of characters, group headers,
//! parenthesised tag lists and quoted values.
use vstd::prelude::*;

verus! {

/// The kinds of character runs that the formats skip or read.
#[derive(PartialEq, Eq, Structural, Debug, Clone, Copy)]
pub enum RunKind {
    /// Spaces.
    Spaces,
    /// Tabs.
    Tabs,
    /// Spaces and tabs.
    Blanks,
    /// Anything but a space or a `]`: a group name.
    Name,
    /// Anything but a line break: the rest of a comment.
    Line,
    /// Anything but a double quote: the text of a value.
    Quoted,
}

/// Whether `c` belongs to a run of kind `k`.
pub open spec fn in_run(c: char, k: RunKind) -> bool {
    match k {
        RunKind::Spaces => c == ' ',
        RunKind::Tabs => c == '\t',
        RunKind::Blanks => c == ' ' || c == '\t',
        RunKind::Name => c != ' ' && c != ']',
        RunKind::Line => c != '\n',
        RunKind::Quoted => c != '"',
    }
}

/// The length of the run of kind `k` that starts at `i`.
pub open spec fn run_len(s: Seq<char>, i: int, k: RunKind) -> nat
    decreases s.len() - i,
{
    if 0 <= i < s.len() && in_run(s[i], k) {
        1 + run_len(s, i + 1, k)
    } else {
        0
    }
}

pub proof fn lemma_run_len(s: Seq<char>, i: int, k: RunKind)
    requires
        0 <= i <= s.len(),
    ensures
        i + run_len(s, i, k) <= s.len(),
        forall|j: int| i <= j < i + run_len(s, i, k) ==> in_run(#[trigger] s[j], k),
        i + run_len(s, i, k) < s.len() ==> !in_run(s[i + run_len(s, i, k)], k),
    decreases s.len() - i,
{
    if i < s.len() && in_run(s[i], k) {
        lemma_run_len(s, i + 1, k);
    }
}

/// Whether `c` belongs to a run of kind `k`.
pub fn in_run_char(c: char, k: RunKind) -> (r: bool)
    ensures
        r == in_run(c, k),
{
    match k {
        RunKind::Spaces => c == ' ',
        RunKind::Tabs => c == '\t',
        RunKind::Blanks => c == ' ' || c == '\t',
        RunKind::Name => c != ' ' && c != ']',
        RunKind::Line => c != '\n',
        RunKind::Quoted => c != '"',
    }
}

/// Where the run of kind `k` that starts at `i` ends.
pub fn run_end(s: &[char], i: usize, k: RunKind) -> (r: usize)
    requires
        i <= s@.len(),
    ensures
        r == i + run_len(s@, i as int, k),
{
    let mut j = i;
    while j < s.len() && in_run_char(s[j], k)
        invariant
            i <= j <= s@.len(),
            run_len(s@, i as int, k) == (j - i) + run_len(s@, j as int, k),
        decreases s@.len() - j,
    {
        j += 1;
    }
    j
}

/// A group header at `i`: optional spaces, `-`, optional spaces, `[`, optional spaces, a
/// name without spaces or `]`, optional spaces, `]`. Gives the positions of `[` and `]`.
pub open spec fn group_at(s: Seq<char>, i: int) -> Option<(int, int)> {
    let j = i + run_len(s, i, RunKind::Spaces);
    if j < s.len() && s[j] == '-' {
        let k = j + 1 + run_len(s, j + 1, RunKind::Spaces);
        if k < s.len() && s[k] == '[' {
            let m = k + 1 + run_len(s, k + 1, RunKind::Spaces);
            let n = m + run_len(s, m, RunKind::Name);
            let e = n + run_len(s, n, RunKind::Spaces);
            if n > m && e < s.len() && s[e] == ']' {
                Some((k, e))
            } else {
                None
            }
        } else {
            None
        }
    } else {
        None
    }
}

/// Finds the group header at `i`, as `group_at`.
pub fn find_group(s: &[char], i: usize) -> (r: Option<(usize, usize)>)
    requires
        i <= s@.len(),
    ensures
        r matches Some((k, e)) ==> group_at(s@, i as int) == Some((k as int, e as int)),
        r is None ==> group_at(s@, i as int) is None,
        r matches Some((k, e)) ==> i <= k < e < s@.len(),
{
    proof {
        lemma_run_len(s@, i as int, RunKind::Spaces);
    }
    let j = run_end(s, i, RunKind::Spaces);
    if !(j < s.len() && s[j] == '-') {
        return None;
    }
    proof {
        lemma_run_len(s@, j + 1, RunKind::Spaces);
    }
    let k = run_end(s, j + 1, RunKind::Spaces);
    if !(k < s.len() && s[k] == '[') {
        return None;
    }
    proof {
        lemma_run_len(s@, k + 1, RunKind::Spaces);
    }
    let m = run_end(s, k + 1, RunKind::Spaces);
    proof {
        lemma_run_len(s@, m as int, RunKind::Name);
    }
    let n = run_end(s, m, RunKind::Name);
    proof {
        lemma_run_len(s@, n as int, RunKind::Spaces);
    }
    let e = run_end(s, n, RunKind::Spaces);
    if n > m && e < s.len() && s[e] == ']' {
        Some((k, e))
    } else {
        None
    }
}

/// Inside parentheses, from `j`: the position of the closing `)`, reading `\t`, `\u`,
/// `\n` and `\)` as escapes. None when the text ends first or a `\` starts no escape.
pub open spec fn paren_close(s: Seq<char>, j: int) -> Option<int>
    decreases s.len() - j,
{
    if j < 0 || j >= s.len() {
        None
    } else if s[j] == ')' {
        Some(j)
    } else if s[j] == '\\' {
        if j + 1 < s.len() && (s[j + 1] == 't' || s[j + 1] == 'u' || s[j + 1] == 'n' || s[j + 1]
            == ')') {
            paren_close(s, j + 2)
        } else {
            None
        }
    } else {
        paren_close(s, j + 1)
    }
}

/// Finds the closing parenthesis from `j`, as `paren_close`.
pub fn find_paren_close(s: &[char], j: usize) -> (r: Option<usize>)
    requires
        j <= s@.len(),
    ensures
        r matches Some(q) ==> paren_close(s@, j as int) == Some(q as int),
        r is None ==> paren_close(s@, j as int) is None,
        r matches Some(q) ==> j <= q < s@.len(),
{
    let mut p = j;
    while p < s.len()
        invariant
            j <= p <= s@.len() + 1,
            paren_close(s@, p as int) == paren_close(s@, j as int),
        decreases s@.len() + 1 - p,
    {
        if s[p] == ')' {
            return Some(p);
        } else if s[p] == '\\' {
            if p + 1 < s.len() && (s[p + 1] == 't' || s[p + 1] == 'u' || s[p + 1] == 'n' || s[p
                + 1] == ')') {
                p += 2;
            } else {
                return None;
            }
        } else {
            p += 1;
        }
    }
    None
}

/// A quoted value at `i`: `"`, at least one other character, `"`. Gives the position of the
/// closing quote.
pub open spec fn quote_close(s: Seq<char>, i: int) -> Option<int> {
    let q = i + 1 + run_len(s, i + 1, RunKind::Quoted);
    if 0 <= i < s.len() && s[i] == '"' && q > i + 1 && q < s.len() {
        Some(q)
    } else {
        None
    }
}

/// Finds the closing quote of the value at `i`, as `quote_close`.
pub fn find_quote_close(s: &[char], i: usize) -> (r: Option<usize>)
    requires
        i < s@.len(),
    ensures
        r matches Some(q) ==> quote_close(s@, i as int) == Some(q as int),
        r is None ==> quote_close(s@, i as int) is None,
        r matches Some(q) ==> i < q < s@.len(),
{
    let n = s.len();
    proof {
        lemma_run_len(s@, i + 1, RunKind::Quoted);
    }
    let q = run_end(s, i + 1, RunKind::Quoted);
    if s[i] == '"' && q > i + 1 && q < s.len() {
        Some(q)
    } else {
        None
    }
}

/// A run of kind `k` from `j` that ends at `n`, where a character outside the run stands,
/// is `n - j` long.
pub proof fn lemma_run_len_upto(s: Seq<char>, j: int, n: int, k: RunKind)
    requires
        0 <= j <= n < s.len(),
        forall|i: int| j <= i < n ==> in_run(#[trigger] s[i], k),
        !in_run(s[n], k),
    ensures
        run_len(s, j, k) == n - j,
    decreases n - j,
{
    if j < n {
        lemma_run_len_upto(s, j + 1, n, k);
    }
}

/// The text `"w"`, for a nonempty `w` without a double quote, is no group header and is
/// one quoted value whose closing quote is its last character.
pub proof fn lemma_quoted_text(w: Seq<char>)
    requires
        w.len() > 0,
        forall|i: int| 0 <= i < w.len() ==> #[trigger] w[i] != '"',
    ensures
        ({
            let s = seq!['"'] + w + seq!['"'];
            &&& group_at(s, 0) is None
            &&& quote_close(s, 0) == Some(w.len() as int + 1)
            &&& s.subrange(1, w.len() as int + 1) == w
            &&& s[0] == '"'
        }),
{
    let s = seq!['"'] + w + seq!['"'];
    let n: int = w.len() as int + 1;
    assert(s[0] == '"');
    assert(s[n] == '"');
    assert forall|i: int| 1 <= i < n implies in_run(#[trigger] s[i], RunKind::Quoted) by {
        assert(s[i] == w[i - 1]);
    }
    lemma_run_len_upto(s, 1, n, RunKind::Quoted);
    assert(run_len(s, 0, RunKind::Spaces) == 0);
    assert(s.subrange(1, n) =~= w);
}

} // verus!
