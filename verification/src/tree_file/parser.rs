//! The tree file parser: a state machine over the tokens of a text that builds the trees of
//! each group.
//!
//! A value starts a node, flagged with the flag list just before it (its direct flags) and
//! with the flag list written before its group header (its group flags). `value -> "target"`
//! makes a symlink. A `[` after a node makes it a directory and opens it, `]` closes it;
//! the children of a directory end up in the reverse of the order they were written in. A
//! group header files the nodes read so far under the previous group (`main` at first),
//! after the nodes that group already holds. At the end, the flags of each node are passed
//! down to the nodes under it.
use vstd::prelude::*;

use crate::file_structure::{File, FileType};
use crate::path::FsPath;
use crate::text::{chars_of, compare_chars, decimal, path_components, push_decimal, Cmp};
use crate::tree_file::flags::{Flag, FlagType, Flags};
use crate::tree_file::groups_map::{append_group, FileGroupsMap};
use crate::tree_file::lexer::{spanned_view, LexToken, SpannedLexToken};
use crate::tree_file::model::{
    file_list_view, file_view, flags_view, lemma_file_list_view, lemma_file_list_view_ext,
    pass_down_roots, FNode,
};
use crate::tsml::lexer::LexModel;

verus! {

/// The kinds of parse errors.
#[derive(PartialEq, Eq, Structural, Debug, Clone, Copy)]
pub enum ParserErrorKind {
    /// A `[` is never closed.
    BracketUnclosed,
    /// A `]` closes nothing.
    BracketUnexpectedClose,
    /// A `[` does not follow a node.
    BracketUnexpectedOpen,
    /// A `,` outside of brackets.
    CommasOutsideOfBrackets,
    /// A `->` not followed by the target value.
    MissingSymlinkTarget,
    /// Two group headers in a row.
    GroupAfterGroup,
    /// Two flag lists in a row.
    FlagAfterFlag,
}

/// A parse error: where it was found (line from 1, byte column within the line) and why.
#[derive(Debug)]
pub struct ParserError {
    line: usize,
    column: usize,
    kind: ParserErrorKind,
}

impl ParserError {
    /// The line of the error (from 1).
    pub closed spec fn line_of(self) -> nat {
        self.line as nat
    }

    /// The byte column of the error within its line.
    pub closed spec fn column_of(self) -> nat {
        self.column as nat
    }

    /// The kind of the error.
    pub closed spec fn kind_of(self) -> ParserErrorKind {
        self.kind
    }

    /// An error at `line` and `column` of kind `kind`.
    pub fn new(line: usize, column: usize, kind: ParserErrorKind) -> (r: Self)
        ensures
            r.line_of() == line,
            r.column_of() == column,
            r.kind_of() == kind,
    {
        ParserError { line, column, kind }
    }

    /// The line of the error (from 1).
    pub fn line(&self) -> (r: usize)
        ensures
            r == self.line_of(),
    {
        self.line
    }

    /// The byte column of the error within its line.
    pub fn column(&self) -> (r: usize)
        ensures
            r == self.column_of(),
    {
        self.column
    }

    /// The kind of the error.
    pub fn kind(&self) -> (r: ParserErrorKind)
        ensures
            r == self.kind_of(),
    {
        self.kind
    }
}

/// What a parse error of kind `kind` says after its position.
pub open spec fn parser_kind_text(kind: ParserErrorKind) -> Seq<char> {
    match kind {
        ParserErrorKind::BracketUnclosed => Seq::empty(),
        ParserErrorKind::BracketUnexpectedClose => "unexpected close brackets, what are you closing?"@,
        ParserErrorKind::BracketUnexpectedOpen => "what are you trying to open there?????"@,
        ParserErrorKind::CommasOutsideOfBrackets => "no commas alowed outsite of scopes"@,
        ParserErrorKind::MissingSymlinkTarget => "arrow without the plim plimplimplim"@,
        ParserErrorKind::GroupAfterGroup => "Group after group problemo"@,
        ParserErrorKind::FlagAfterFlag => "Flag after flag problemo"@,
    }
}

/// The text shown for a parse error at `line`:`column` of kind `kind`: an unclosed bracket
/// is reported by its position alone, every other kind by its position and a description.
pub open spec fn parser_error_text(line: nat, column: nat, kind: ParserErrorKind) -> Seq<char> {
    if kind == ParserErrorKind::BracketUnclosed {
        "moao tree: "@ + "bracket at "@ + decimal(line) + ":"@ + decimal(column) + " is unclosed!"@
    } else {
        "moao tree: "@ + "moao tree: at "@ + decimal(line) + ":"@ + decimal(column) + ": "@
            + parser_kind_text(kind)
    }
}

impl ParserError {
    /// The error as text for the user.
    pub fn message(&self) -> (r: String)
        ensures
            r@ == parser_error_text(self.line_of(), self.column_of(), self.kind_of()),
    {
        let mut text = String::from_str("moao tree: ");
        if self.kind == ParserErrorKind::BracketUnclosed {
            text.append("bracket at ");
            push_decimal(&mut text, self.line);
            text.append(":");
            push_decimal(&mut text, self.column);
            text.append(" is unclosed!");
        } else {
            text.append("moao tree: at ");
            push_decimal(&mut text, self.line);
            text.append(":");
            push_decimal(&mut text, self.column);
            text.append(": ");
            match self.kind {
                ParserErrorKind::BracketUnclosed => {},
                ParserErrorKind::BracketUnexpectedClose => {
                    text.append("unexpected close brackets, what are you closing?")
                },
                ParserErrorKind::BracketUnexpectedOpen => {
                    text.append("what are you trying to open there?????")
                },
                ParserErrorKind::CommasOutsideOfBrackets => {
                    text.append("no commas alowed outsite of scopes")
                },
                ParserErrorKind::MissingSymlinkTarget => {
                    text.append("arrow without the plim plimplimplim")
                },
                ParserErrorKind::GroupAfterGroup => text.append("Group after group problemo"),
                ParserErrorKind::FlagAfterFlag => text.append("Flag after flag problemo"),
            }
        }
        text
    }
}

/// The result of parsing.
pub type ParserResult<T> = Result<T, ParserError>;

/// The name of the group that comes first.
pub open spec fn main_group() -> Seq<char> {
    seq!['m', 'a', 'i', 'n']
}

/// The state of the parser between two tokens.
pub struct PState {
    /// The groups filed so far.
    pub map: Seq<(Seq<char>, Seq<FNode>)>,
    /// The current line, from 1.
    pub line: nat,
    /// The byte offset of the line break that started the current line.
    pub line_start: nat,
    /// The nodes read and not yet filed, the last one read on top.
    pub stack: Seq<FNode>,
    /// For each open bracket level, and the top level first, the nodes read at that level.
    pub counts: Seq<nat>,
    /// Whether a value was read since the last separator or bracket.
    pub busy: bool,
    /// The group being read.
    pub group: Seq<char>,
    /// Whether something that a `[` can open was just read.
    pub read_some: bool,
    /// Where the open brackets are (line, column).
    pub brackets: Seq<(nat, nat)>,
    /// The number of open brackets.
    pub depth: nat,
    /// The flags that the next node gets as group flags.
    pub group_flags: Seq<Seq<char>>,
    /// The flag list read just before, for the next node or group.
    pub last_flags: Seq<Seq<char>>,
    /// The group names in the order they were first seen.
    pub order: Seq<Seq<char>>,
}

/// The state before the first token.
pub open spec fn initial_state() -> PState {
    PState {
        map: Seq::empty(),
        line: 1,
        line_start: 0,
        stack: Seq::empty(),
        counts: seq![0],
        busy: false,
        group: main_group(),
        read_some: false,
        brackets: Seq::empty(),
        depth: 0,
        group_flags: Seq::empty(),
        last_flags: Seq::empty(),
        order: seq![main_group()],
    }
}

/// The outcome of reading one token: the next state and where to read on, an error, or
/// input that the parser does not handle (it would abort).
pub enum PStep {
    Go(PState, int),
    Stop(nat, nat, ParserErrorKind),
    Abort,
}

/// The flags of a new node: the flags written just before it, then those written before
/// its group header.
pub open spec fn new_node_flags(last: Seq<Seq<char>>, group: Seq<Seq<char>>) -> Seq<
    (Seq<char>, FlagType),
> {
    last.map_values(|n: Seq<char>| (n, FlagType::Direct)) + group.map_values(
        |n: Seq<char>| (n, FlagType::GroupInherited),
    )
}

/// Reading the token at `i` in the state `st`.
pub open spec fn parse_step(toks: Seq<(LexModel, nat, nat)>, i: int, st: PState) -> PStep {
    let start = toks[i].1;
    if start < st.line_start {
        PStep::Abort
    } else {
        let col = (start - st.line_start) as nat;
        match toks[i].0 {
            LexModel::Value(v) => {
                if st.busy || st.counts.len() == 0 {
                    PStep::Abort
                } else {
                    let flags = Some(new_node_flags(st.last_flags, st.group_flags));
                    let path = path_components(v);
                    let counts = st.counts.update(st.counts.len() - 1, st.counts.last() + 1);
                    if i + 1 < toks.len() && toks[i + 1].0 is SymlinkArrow {
                        if i + 2 < toks.len() && toks[i + 2].0 is Value {
                            let target = path_components(toks[i + 2].0->Value_0);
                            PStep::Go(
                                PState {
                                    counts,
                                    busy: true,
                                    read_some: true,
                                    last_flags: Seq::empty(),
                                    group_flags: Seq::empty(),
                                    stack: st.stack.push(FNode::Symlink { path, flags, target }),
                                    ..st
                                },
                                i + 3,
                            )
                        } else {
                            PStep::Abort
                        }
                    } else {
                        PStep::Go(
                            PState {
                                counts,
                                busy: true,
                                read_some: true,
                                last_flags: Seq::empty(),
                                group_flags: Seq::empty(),
                                stack: st.stack.push(FNode::Regular { path, flags }),
                                ..st
                            },
                            i + 1,
                        )
                    }
                }
            },
            LexModel::OpenBracket => {
                if !st.read_some {
                    PStep::Stop(st.line, col, ParserErrorKind::BracketUnexpectedOpen)
                } else if st.stack.len() == 0 {
                    PStep::Abort
                } else {
                    PStep::Go(
                        PState {
                            brackets: st.brackets.push((st.line, col)),
                            busy: false,
                            depth: st.depth + 1,
                            stack: st.stack.update(
                                st.stack.len() - 1,
                                st.stack.last().as_dir(Seq::empty()),
                            ),
                            counts: st.counts.push(0),
                            read_some: false,
                            ..st
                        },
                        i + 1,
                    )
                }
            },
            LexModel::CloseBracket => {
                if st.depth == 0 {
                    PStep::Stop(st.line, col, ParserErrorKind::BracketUnexpectedClose)
                } else if st.counts.len() == 0 || st.stack.len() < st.counts.last() + 1 {
                    PStep::Abort
                } else {
                    let n = st.stack.len() as int;
                    let q = st.counts.last() as int;
                    let kids = st.stack.subrange(n - q, n).reverse();
                    let rest = st.stack.subrange(0, n - q);
                    PStep::Go(
                        PState {
                            brackets: if st.brackets.len() > 0 {
                                st.brackets.drop_last()
                            } else {
                                st.brackets
                            },
                            read_some: true,
                            depth: (st.depth - 1) as nat,
                            counts: st.counts.drop_last(),
                            stack: rest.update(rest.len() - 1, rest.last().as_dir(kids)),
                            ..st
                        },
                        i + 1,
                    )
                }
            },
            LexModel::Separator(c) => {
                if st.depth == 0 && c == ',' {
                    PStep::Stop(st.line, col, ParserErrorKind::CommasOutsideOfBrackets)
                } else if c == '\n' {
                    if st.line >= usize::MAX {
                        PStep::Abort
                    } else {
                        PStep::Go(
                            PState { busy: false, line: st.line + 1, line_start: start, ..st },
                            i + 1,
                        )
                    }
                } else {
                    PStep::Go(PState { busy: false, ..st }, i + 1)
                }
            },
            LexModel::Group(g) => PStep::Go(
                PState {
                    order: if st.order.contains(g) {
                        st.order
                    } else {
                        st.order.push(g)
                    },
                    map: append_group(st.map, st.group, st.stack),
                    stack: Seq::empty(),
                    group: g,
                    group_flags: st.last_flags,
                    last_flags: Seq::empty(),
                    ..st
                },
                i + 1,
            ),
            LexModel::Tags(ts) => {
                if st.last_flags.len() > 0 {
                    PStep::Stop(st.line, col, ParserErrorKind::FlagAfterFlag)
                } else {
                    PStep::Go(PState { last_flags: ts, ..st }, i + 1)
                }
            },
            LexModel::SymlinkArrow => PStep::Abort,
            _ => PStep::Go(st, i + 1),
        }
    }
}

/// The outcome of parsing: the groups with their trees and the group names in the order
/// they were first seen, an error, or input that the parser does not handle.
pub enum POutcome {
    Done(Seq<(Seq<char>, Seq<FNode>)>, Seq<Seq<char>>),
    Fail(nat, nat, ParserErrorKind),
    Abort,
}

/// The groups `ps` once the flags of every top-level tree have been passed down.
pub open spec fn pass_down_groups(ps: Seq<(Seq<char>, Seq<FNode>)>) -> Seq<(Seq<char>, Seq<FNode>)> {
    Seq::new(ps.len(), |i: int| (ps[i].0, pass_down_roots(ps[i].1)))
}

/// The outcome once every token has been read, in state `st`.
pub open spec fn parse_finish(st: PState) -> POutcome {
    if st.depth != 0 {
        if st.brackets.len() == 0 {
            POutcome::Abort
        } else {
            POutcome::Fail(
                st.brackets.last().0,
                st.brackets.last().1,
                ParserErrorKind::BracketUnclosed,
            )
        }
    } else {
        POutcome::Done(pass_down_groups(append_group(st.map, st.group, st.stack)), st.order)
    }
}

/// The outcome of reading the tokens from `i` on, in state `st`.
pub open spec fn parse_run(toks: Seq<(LexModel, nat, nat)>, i: int, st: PState) -> POutcome
    decreases toks.len() - i,
{
    if i < 0 || i >= toks.len() {
        parse_finish(st)
    } else {
        match parse_step(toks, i, st) {
            PStep::Go(next, j) => if j <= i || j > toks.len() {
                POutcome::Abort
            } else {
                parse_run(toks, j, next)
            },
            PStep::Stop(l, c, k) => POutcome::Fail(l, c, k),
            PStep::Abort => POutcome::Abort,
        }
    }
}

/// The outcome of parsing the tokens `toks`.
pub open spec fn parse_outcome(toks: Seq<(LexModel, nat, nat)>) -> POutcome {
    parse_run(toks, 0, initial_state())
}

/// Whether `r` is the outcome `o`.
pub open spec fn result_is(r: ParserResult<(FileGroupsMap, Vec<String>)>, o: POutcome) -> bool {
    match o {
        POutcome::Done(ps, order) => r matches Ok(x) && x.0.wf() && x.0.pairs() == ps
            && x.1.deep_view() == order,
        POutcome::Fail(l, c, k) => r matches Err(e) && e.line_of() == l && e.column_of() == c
            && e.kind_of() == k,
        POutcome::Abort => false,
    }
}

/// Where the parser goes after a token.
enum Flow {
    Next(usize),
    Stop(ParserError),
    Abort,
}

/// Whether `f` is the outcome `s` of a step from index `i` of `n` tokens, `p` the state
/// after it.
spec fn flow_is(f: Flow, s: PStep, p: Parser, i: int, n: int) -> bool {
    match s {
        PStep::Go(st, j) => f matches Flow::Next(j2) && j2 == j && p.model() == st && i < j <= n
            && p.inv(j as nat),
        PStep::Stop(l, c, k) => f matches Flow::Stop(e) && e.line_of() == l && e.column_of() == c
            && e.kind_of() == k,
        PStep::Abort => f is Abort,
    }
}

/// A copy of a list of names.
fn copy_names(v: &Vec<String>) -> (r: Vec<String>)
    ensures
        r.deep_view() == v.deep_view(),
{
    let mut out: Vec<String> = Vec::new();
    let mut i: usize = 0;
    while i < v.len()
        invariant
            i <= v@.len(),
            out.deep_view() == v.deep_view().take(i as int),
        decreases v@.len() - i,
    {
        let s = v[i].clone();
        let ghost before = out.deep_view();
        let ghost sv = s@;
        out.push(s);
        assert(out.deep_view() =~= before.push(sv));
        assert(v.deep_view().take(i + 1) =~= v.deep_view().take(i as int).push(sv));
        i += 1;
    }
    assert(v.deep_view().take(i as int) =~= v.deep_view());
    out
}

/// Whether `name` is one of `v`.
fn contains_name(v: &Vec<String>, name: &String) -> (r: bool)
    ensures
        r == v.deep_view().contains(name@),
{
    let key = chars_of(name.as_str());
    let mut i: usize = 0;
    while i < v.len()
        invariant
            i <= v@.len(),
            key@ == name@,
            forall|j: int| 0 <= j < i ==> v.deep_view()[j] != name@,
        decreases v@.len() - i,
    {
        assert(v.deep_view()[i as int] == v@[i as int]@);
        if compare_chars(chars_of(v[i].as_str()).as_slice(), key.as_slice()) == Cmp::Equal {
            return true;
        }
        i += 1;
    }
    false
}

/// The flags of a new node: `last` as direct flags, then `group` as group flags.
fn make_flags(last: &Vec<String>, group: &Vec<String>) -> (r: Flags)
    ensures
        flags_view(r) == new_node_flags(last.deep_view(), group.deep_view()),
{
    let mut out: Vec<Flag> = Vec::new();
    let mut i: usize = 0;
    while i < last.len()
        invariant
            i <= last@.len(),
            out@.len() == i,
            forall|k: int|
                0 <= k < i ==> (#[trigger] out@[k]).name@ == last@[k]@ && out@[k].flag_type
                    == FlagType::Direct,
        decreases last@.len() - i,
    {
        out.push(Flag::new(last[i].as_str(), FlagType::Direct));
        i += 1;
    }
    let mut k: usize = 0;
    while k < group.len()
        invariant
            k <= group@.len(),
            out@.len() == last@.len() + k,
            forall|j: int|
                0 <= j < last@.len() ==> (#[trigger] out@[j]).name@ == last@[j]@ && out@[j].flag_type
                    == FlagType::Direct,
            forall|j: int|
                0 <= j < k ==> (#[trigger] out@[last@.len() + j]).name@ == group@[j]@
                    && out@[last@.len() + j].flag_type == FlagType::GroupInherited,
        decreases group@.len() - k,
    {
        out.push(Flag::new(group[k].as_str(), FlagType::GroupInherited));
        k += 1;
    }
    let r = Flags { inner: out };
    proof {
        let want = new_node_flags(last.deep_view(), group.deep_view());
        assert forall|j: int| 0 <= j < flags_view(r).len() implies flags_view(r)[j] == want[j] by {
            if j >= last@.len() {
                let q = j - last@.len();
                assert(out@[last@.len() + q] == out@[j]);
            }
        }
        assert(flags_view(r) =~= want);
    }
    r
}

/// `t` turned into a directory holding `children`.
fn into_dir(t: File<Flags>, children: Vec<File<Flags>>) -> (r: File<Flags>)
    ensures
        file_view(r) == file_view(t).as_dir(file_list_view(children@)),
{
    File { path: t.path, file_type: FileType::Directory(children), extra: t.extra }
}

/// The parser state.
struct Parser {
    map: FileGroupsMap,
    line: usize,
    line_start: usize,
    stack: Vec<File<Flags>>,
    counts: Vec<usize>,
    busy: bool,
    group: String,
    read_some: bool,
    brackets: Vec<(usize, usize)>,
    depth: usize,
    group_flags: Vec<String>,
    last_flags: Vec<String>,
    order: Vec<String>,
}

impl Parser {
    /// The model of the state.
    closed spec fn model(self) -> PState {
        PState {
            map: self.map.pairs(),
            line: self.line as nat,
            line_start: self.line_start as nat,
            stack: file_list_view(self.stack@),
            counts: self.counts@.map_values(|c: usize| c as nat),
            busy: self.busy,
            group: self.group@,
            read_some: self.read_some,
            brackets: self.brackets@.map_values(|b: (usize, usize)| (b.0 as nat, b.1 as nat)),
            depth: self.depth as nat,
            group_flags: self.group_flags.deep_view(),
            last_flags: self.last_flags.deep_view(),
            order: self.order.deep_view(),
        }
    }

    /// What holds after `i` tokens: the groups are in name order and the counters are
    /// bounded by the number of tokens read.
    closed spec fn inv(self, i: nat) -> bool {
        &&& self.map.wf()
        &&& self.line <= i + 1
        &&& self.depth <= i
        &&& forall|k: int| 0 <= k < self.counts@.len() ==> #[trigger] self.counts@[k] <= i
    }
}

impl Parser {
    /// The state before the first token.
    fn new() -> (r: Parser)
        ensures
            r.model() == initial_state(),
            r.inv(0),
    {
        let mut counts: Vec<usize> = Vec::new();
        counts.push(0);
        let mut order: Vec<String> = Vec::new();
        let main = String::from_str("main");
        proof {
            reveal_strlit("main");
        }
        assert(main@ == main_group());
        order.push(main.clone());
        let r = Parser {
            map: FileGroupsMap::new(),
            line: 1,
            line_start: 0,
            stack: Vec::new(),
            counts,
            busy: false,
            group: main,
            read_some: false,
            brackets: Vec::new(),
            depth: 0,
            group_flags: Vec::new(),
            last_flags: Vec::new(),
            order,
        };
        proof {
            assert(r.model().map =~= Seq::<(Seq<char>, Seq<FNode>)>::empty());
            assert(r.model().counts =~= seq![0nat]);
            assert(r.model().order =~= seq![main_group()]);
            assert(r.model().stack =~= Seq::<FNode>::empty());
            assert(r.model().brackets =~= Seq::<(nat, nat)>::empty());
            assert(r.model().group_flags =~= Seq::<Seq<char>>::empty());
            assert(r.model().last_flags =~= Seq::<Seq<char>>::empty());
        }
        r
    }

    /// Reads a value at `i`, in column `col`.
    fn on_value(&mut self, toks: &Vec<SpannedLexToken>, i: usize, col: usize, v: &String) -> (r:
        Flow)
        requires
            old(self).inv(i as nat),
            i < toks@.len(),
            toks@[i as int].1.start >= old(self).line_start,
            col == toks@[i as int].1.start - old(self).line_start,
            toks@[i as int].0 == LexToken::Value(*v),
        ensures
            flow_is(
                r,
                parse_step(spanned_view(toks@), i as int, old(self).model()),
                *final(self),
                i as int,
                toks@.len() as int,
            ),
    {
        let ghost st = self.model();
        let ghost tv = spanned_view(toks@);
        let len = toks.len();
        assert(tv[i as int].0 == LexModel::Value(v@));
        if self.busy || self.counts.len() == 0 {
            return Flow::Abort;
        }
        let flags = make_flags(&self.last_flags, &self.group_flags);
        let path = FsPath::from_text(v.as_str());
        let n = self.counts.len();
        let c = self.counts[n - 1];
        assert(c <= i);
        self.counts.set(n - 1, c + 1);
        self.busy = true;
        self.read_some = true;
        self.last_flags = Vec::new();
        self.group_flags = Vec::new();
        let ghost counts2 = st.counts.update(st.counts.len() - 1, st.counts.last() + 1);
        assert(self.model().counts =~= counts2);
        assert(self.model().last_flags =~= Seq::<Seq<char>>::empty());
        assert(self.model().group_flags =~= Seq::<Seq<char>>::empty());
        let ghost before = self.stack@;
        proof {
            lemma_file_list_view(before);
        }
        if i + 1 < len && matches!(toks[i + 1].0, LexToken::SymlinkArrow) {
            assert(tv[i + 1].0 is SymlinkArrow);
            if i + 2 < len {
                if let LexToken::Value(t) = &toks[i + 2].0 {
                    assert(tv[i + 2].0 == LexModel::Value(t@));
                    let target = FsPath::from_text(t.as_str());
                    let node = File {
                        path,
                        file_type: FileType::Symlink(target),
                        extra: Some(flags),
                    };
                    self.stack.push(node);
                    proof {
                        lemma_file_list_view(self.stack@);
                        lemma_file_list_view_ext(self.stack@, file_list_view(before).push(file_view(node)));
                    }
                    return Flow::Next(i + 3);
                }
            }
            return Flow::Abort;
        }
        let node = File { path, file_type: FileType::Regular, extra: Some(flags) };
        self.stack.push(node);
        proof {
            lemma_file_list_view(self.stack@);
            lemma_file_list_view_ext(self.stack@, file_list_view(before).push(file_view(node)));
        }
        Flow::Next(i + 1)
    }

    /// Reads a `[` at `i`, in column `col`.
    fn on_open(&mut self, toks: &Vec<SpannedLexToken>, i: usize, col: usize) -> (r: Flow)
        requires
            old(self).inv(i as nat),
            i < toks@.len(),
            toks@[i as int].1.start >= old(self).line_start,
            col == toks@[i as int].1.start - old(self).line_start,
            toks@[i as int].0 == LexToken::OpenBracket,
        ensures
            flow_is(
                r,
                parse_step(spanned_view(toks@), i as int, old(self).model()),
                *final(self),
                i as int,
                toks@.len() as int,
            ),
    {
        let ghost st = self.model();
        let len = toks.len();
        if !self.read_some {
            return Flow::Stop(ParserError::new(self.line, col, ParserErrorKind::BracketUnexpectedOpen));
        }
        if self.stack.len() == 0 {
            proof {
                lemma_file_list_view(self.stack@);
            }
            return Flow::Abort;
        }
        let ghost before = self.stack@;
        proof {
            lemma_file_list_view(before);
        }
        self.brackets.push((self.line, col));
        self.busy = false;
        self.depth = self.depth + 1;
        let top = self.stack.pop().unwrap();
        let empty: Vec<File<Flags>> = Vec::new();
        assert(file_list_view(empty@) =~= Seq::<FNode>::empty());
        let dir = into_dir(top, empty);
        self.stack.push(dir);
        self.counts.push(0);
        self.read_some = false;
        proof {
            lemma_file_list_view(self.stack@);
            lemma_file_list_view_ext(
                self.stack@,
                st.stack.update(st.stack.len() - 1, st.stack.last().as_dir(Seq::empty())),
            );
            assert(self.model().brackets =~= st.brackets.push((st.line, col as nat)));
            assert(self.model().counts =~= st.counts.push(0));
        }
        Flow::Next(i + 1)
    }

    /// Reads a `]` at `i`, in column `col`.
    fn on_close(&mut self, toks: &Vec<SpannedLexToken>, i: usize, col: usize) -> (r: Flow)
        requires
            old(self).inv(i as nat),
            i < toks@.len(),
            toks@[i as int].1.start >= old(self).line_start,
            col == toks@[i as int].1.start - old(self).line_start,
            toks@[i as int].0 == LexToken::CloseBracket,
        ensures
            flow_is(
                r,
                parse_step(spanned_view(toks@), i as int, old(self).model()),
                *final(self),
                i as int,
                toks@.len() as int,
            ),
    {
        let ghost st = self.model();
        let len = toks.len();
        if self.depth == 0 {
            return Flow::Stop(ParserError::new(self.line, col, ParserErrorKind::BracketUnexpectedClose));
        }
        proof {
            lemma_file_list_view(self.stack@);
        }
        if self.counts.len() == 0 {
            return Flow::Abort;
        }
        let q = self.counts[self.counts.len() - 1];
        assert(q <= i);
        if self.stack.len() < q + 1 {
            return Flow::Abort;
        }
        let ghost before = self.stack@;
        let ghost n = before.len() as int;
        let ghost old_brackets = self.brackets@;
        let _ = self.brackets.pop();
        self.read_some = true;
        self.depth = self.depth - 1;
        let _ = self.counts.pop();
        let mut stack: Vec<File<Flags>> = Vec::new();
        std::mem::swap(&mut stack, &mut self.stack);
        let mut kids: Vec<File<Flags>> = Vec::new();
        let mut k: usize = 0;
        while k < q
            invariant
                k <= q,
                q + 1 <= n,
                n == before.len(),
                stack@.len() == n - k,
                forall|j: int| 0 <= j < stack@.len() ==> #[trigger] stack@[j] == before[j],
                kids@.len() == k,
                forall|j: int| 0 <= j < k ==> #[trigger] kids@[j] == before[n - 1 - j],
            decreases q - k,
        {
            let t = stack.pop().unwrap();
            kids.push(t);
            k += 1;
        }
        let parent = stack.pop().unwrap();
        let dir = into_dir(parent, kids);
        stack.push(dir);
        self.stack = stack;
        proof {
            let kv = st.stack.subrange(n - q, n).reverse();
            lemma_file_list_view(kids@);
            lemma_file_list_view(before);
            lemma_file_list_view_ext(kids@, kv);
            let restv = st.stack.subrange(0, n - q);
            lemma_file_list_view(self.stack@);
            lemma_file_list_view_ext(self.stack@, restv.update(restv.len() - 1, restv.last().as_dir(kv)));
            assert(self.model().counts =~= st.counts.drop_last());
            assert(self.model().brackets =~= (if st.brackets.len() > 0 {
                st.brackets.drop_last()
            } else {
                st.brackets
            }));
        }
        Flow::Next(i + 1)
    }

    /// Reads a separator `c` at `i`, in column `col`.
    fn on_separator(&mut self, toks: &Vec<SpannedLexToken>, i: usize, col: usize, c: char) -> (r:
        Flow)
        requires
            old(self).inv(i as nat),
            i < toks@.len(),
            toks@[i as int].1.start >= old(self).line_start,
            col == toks@[i as int].1.start - old(self).line_start,
            toks@[i as int].0 == LexToken::Separator(c),
        ensures
            flow_is(
                r,
                parse_step(spanned_view(toks@), i as int, old(self).model()),
                *final(self),
                i as int,
                toks@.len() as int,
            ),
    {
        let len = toks.len();
        if self.depth == 0 && c == ',' {
            return Flow::Stop(ParserError::new(self.line, col, ParserErrorKind::CommasOutsideOfBrackets));
        }
        if c == '\n' {
            if self.line == usize::MAX {
                return Flow::Abort;
            }
            self.busy = false;
            self.line = self.line + 1;
            self.line_start = toks[i].1.start;
        } else {
            self.busy = false;
        }
        Flow::Next(i + 1)
    }

    /// Reads a flag list at `i`, in column `col`.
    fn on_flags(&mut self, toks: &Vec<SpannedLexToken>, i: usize, col: usize, ts: &Vec<String>) -> (r:
        Flow)
        requires
            old(self).inv(i as nat),
            i < toks@.len(),
            toks@[i as int].1.start >= old(self).line_start,
            col == toks@[i as int].1.start - old(self).line_start,
            toks@[i as int].0 == LexToken::Flags(*ts),
        ensures
            flow_is(
                r,
                parse_step(spanned_view(toks@), i as int, old(self).model()),
                *final(self),
                i as int,
                toks@.len() as int,
            ),
    {
        let len = toks.len();
        if self.last_flags.len() > 0 {
            return Flow::Stop(ParserError::new(self.line, col, ParserErrorKind::FlagAfterFlag));
        }
        self.last_flags = copy_names(ts);
        Flow::Next(i + 1)
    }

    /// Reads a group header `g` at `i`.
    fn on_group(&mut self, toks: &Vec<SpannedLexToken>, i: usize, g: &String) -> (r: Flow)
        requires
            old(self).inv(i as nat),
            i < toks@.len(),
            toks@[i as int].1.start >= old(self).line_start,
            toks@[i as int].0 == LexToken::Group(*g),
        ensures
            flow_is(
                r,
                parse_step(spanned_view(toks@), i as int, old(self).model()),
                *final(self),
                i as int,
                toks@.len() as int,
            ),
    {
        let ghost st = self.model();
        let ghost tv = spanned_view(toks@);
        let len = toks.len();
        if !contains_name(&self.order, g) {
            let ghost before = self.order.deep_view();
            self.order.push(g.clone());
            assert(self.order.deep_view() =~= before.push(g@));
        }
        let mut files: Vec<File<Flags>> = Vec::new();
        std::mem::swap(&mut files, &mut self.stack);
        let mut name = g.clone();
        std::mem::swap(&mut name, &mut self.group);
        self.map.append_files(name, files);
        let mut flags: Vec<String> = Vec::new();
        std::mem::swap(&mut flags, &mut self.last_flags);
        self.group_flags = flags;
        proof {
            assert(file_list_view(self.stack@) =~= Seq::<FNode>::empty());
            assert(self.model().last_flags =~= Seq::<Seq<char>>::empty());
        }
        Flow::Next(i + 1)
    }


    /// Reads the token at `i`.
    fn step(&mut self, toks: &Vec<SpannedLexToken>, i: usize) -> (r: Flow)
        requires
            old(self).inv(i as nat),
            i < toks@.len(),
        ensures
            flow_is(
                r,
                parse_step(spanned_view(toks@), i as int, old(self).model()),
                *final(self),
                i as int,
                toks@.len() as int,
            ),
    {
        let len = toks.len();
        let start = toks[i].1.start;
        if start < self.line_start {
            return Flow::Abort;
        }
        let col = start - self.line_start;
        match &toks[i].0 {
            LexToken::Value(v) => self.on_value(toks, i, col, v),
            LexToken::OpenBracket => self.on_open(toks, i, col),
            LexToken::CloseBracket => self.on_close(toks, i, col),
            LexToken::Separator(c) => self.on_separator(toks, i, col, *c),
            LexToken::Group(g) => self.on_group(toks, i, g),
            LexToken::Flags(ts) => self.on_flags(toks, i, col, ts),
            LexToken::SymlinkArrow => Flow::Abort,
            LexToken::DoubleDots => Flow::Next(i + 1),
            LexToken::LexError => Flow::Next(i + 1),
        }
    }

    /// The outcome once every token has been read.
    fn finish(self) -> (r: Option<ParserResult<(FileGroupsMap, Vec<String>)>>)
        requires
            self.map.wf(),
        ensures
            match parse_finish(self.model()) {
                POutcome::Abort => r is None,
                o => r matches Some(x) && result_is(x, o),
            },
    {
        let ghost st = self.model();
        if self.depth != 0 {
            if self.brackets.len() == 0 {
                return None;
            }
            let (l, c) = self.brackets[self.brackets.len() - 1];
            return Some(Err(ParserError::new(l, c, ParserErrorKind::BracketUnclosed)));
        }
        let mut map = self.map;
        map.append_files(self.group, self.stack);
        let map = map.pass_down_all();
        assert(map.pairs() =~= pass_down_groups(append_group(st.map, st.group, st.stack)));
        Some(Ok((map, self.order)))
    }

}

/// Parses `spanned_tokens` (read from `source_text`) into the trees of each group and the
/// group names in the order they first appear; `None` on the input that the parser does
/// not handle (`POutcome::Abort`).
pub fn try_parse_tokens(spanned_tokens: Vec<SpannedLexToken>, source_text: &str) -> (r: Option<
    ParserResult<(FileGroupsMap, Vec<String>)>,
>)
    ensures
        match parse_outcome(spanned_view(spanned_tokens@)) {
            POutcome::Abort => r is None,
            o => r matches Some(x) && result_is(x, o),
        },
{
    let ghost tv = spanned_view(spanned_tokens@);
    let mut p = Parser::new();
    let mut i: usize = 0;
    while i < spanned_tokens.len()
        invariant
            i <= spanned_tokens@.len(),
            tv == spanned_view(spanned_tokens@),
            p.inv(i as nat),
            parse_run(tv, i as int, p.model()) == parse_outcome(tv),
        decreases spanned_tokens@.len() - i,
    {
        match p.step(&spanned_tokens, i) {
            Flow::Next(j) => {
                i = j;
            },
            Flow::Stop(e) => {
                return Some(Err(e));
            },
            Flow::Abort => {
                return None;
            },
        }
    }
    p.finish()
}

/// Parses `spanned_tokens` (read from `source_text`) into the trees of each group and the
/// group names in the order they first appear.
pub fn parse_tokens(spanned_tokens: Vec<SpannedLexToken>, source_text: &str) -> (r: ParserResult<
    (FileGroupsMap, Vec<String>),
>)
    requires
        !(parse_outcome(spanned_view(spanned_tokens@)) is Abort),
    ensures
        result_is(r, parse_outcome(spanned_view(spanned_tokens@))),
{
    try_parse_tokens(spanned_tokens, source_text).unwrap()
}

} // verus!
