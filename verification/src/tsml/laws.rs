//! Properties of the tsml parser that hold for every input.
use vstd::prelude::*;

use crate::tsml::groups_map::{keys_sorted, lemma_key_lower_bound, lemma_merge_group_sorted, merge_group, key_lower_bound};
use crate::tsml::lexer::LexModel;
use crate::tsml::model::Node;
use crate::tsml::parser::{
    initial_state, inherit_groups, main_group, parse_outcome, parse_run, parse_step,
    POutcome, PState, PStep,
};

verus! {

/// What the parser keeps of its state: `main` first in the group order, no name twice in
/// it, the filed groups in name order and each of them, and the current group, named in it.
pub open spec fn order_ok(st: PState) -> bool {
    &&& st.order.len() >= 1
    &&& st.order[0] == main_group()
    &&& st.order.no_duplicates()
    &&& keys_sorted(st.map)
    &&& forall|k: int| 0 <= k < st.map.len() ==> st.order.contains(#[trigger] st.map[k].0)
    &&& st.order.contains(st.group)
}

/// Every group name of `merge_group(ps, g, files)` is named in `order` when those of `ps`
/// and `g` are.
pub proof fn lemma_merge_group_keys(
    ps: Seq<(Seq<char>, Seq<Node>)>,
    g: Seq<char>,
    files: Seq<Node>,
    order: Seq<Seq<char>>,
)
    requires
        keys_sorted(ps),
        forall|k: int| 0 <= k < ps.len() ==> order.contains(#[trigger] ps[k].0),
        order.contains(g),
    ensures
        forall|k: int|
            0 <= k < merge_group(ps, g, files).len() ==> order.contains(
                #[trigger] merge_group(ps, g, files)[k].0,
            ),
{
    lemma_key_lower_bound(ps, g);
    let p = key_lower_bound(ps, g);
    let r = merge_group(ps, g, files);
    assert forall|k: int| 0 <= k < r.len() implies order.contains(#[trigger] r[k].0) by {
        if p < ps.len() && ps[p].0 == g {
            assert(r[k].0 == ps[k].0);
        } else if k < p {
            assert(r[k] == ps[k]);
        } else if k > p {
            assert(r[k] == ps[k - 1]);
        }
    }
}

/// A step keeps `order_ok`.
pub proof fn lemma_step_keeps_order(toks: Seq<(LexModel, nat, nat)>, i: int, st: PState)
    requires
        order_ok(st),
        0 <= i < toks.len(),
    ensures
        parse_step(toks, i, st) matches PStep::Go(next, _) ==> order_ok(next),
{
    if toks[i].1 >= st.line_start {
        if let LexModel::Group(g) = toks[i].0 {
            let order2 = if st.order.contains(g) {
                st.order
            } else {
                st.order.push(g)
            };
            assert(order2.contains(g)) by {
                if !st.order.contains(g) {
                    assert(order2[order2.len() - 1] == g);
                }
            }
            assert(order2[0] == main_group());
            assert(order2.no_duplicates()) by {
                if !st.order.contains(g) {
                    assert forall|a: int, b: int|
                        0 <= a < order2.len() && 0 <= b < order2.len() && a != b implies order2[a]
                        != order2[b] by {
                        if b == order2.len() - 1 && a < b {
                            assert(st.order[a] == order2[a]);
                        } else if a == order2.len() - 1 && b < a {
                            assert(st.order[b] == order2[b]);
                        }
                    }
                }
            }
            assert forall|k: int| 0 <= k < st.map.len() implies order2.contains(
                #[trigger] st.map[k].0,
            ) by {
                let j = choose|j: int| 0 <= j < st.order.len() && st.order[j] == st.map[k].0;
                assert(order2[j] == st.order[j]);
            }
            assert(order2.contains(st.group)) by {
                let j = choose|j: int| 0 <= j < st.order.len() && st.order[j] == st.group;
                assert(order2[j] == st.order[j]);
            }
            lemma_merge_group_sorted(st.map, st.group, st.stack);
            lemma_merge_group_keys(st.map, st.group, st.stack, order2);
        }
    }
}

/// Parsing from any state that keeps `order_ok` ends, when it succeeds, with `main` first
/// in the group order, no name twice, and every group named in the order, in name order.
pub proof fn lemma_run_keeps_order(toks: Seq<(LexModel, nat, nat)>, i: int, st: PState)
    requires
        order_ok(st),
        0 <= i,
    ensures
        parse_run(toks, i, st) matches POutcome::Done(ps, order) ==> {
            &&& order.len() >= 1
            &&& order[0] == main_group()
            &&& order.no_duplicates()
            &&& keys_sorted(ps)
            &&& forall|k: int| 0 <= k < ps.len() ==> order.contains(#[trigger] ps[k].0)
        },
    decreases toks.len() - i,
{
    if i >= toks.len() {
        if st.depth == 0 {
            let merged = merge_group(st.map, st.group, st.stack);
            lemma_merge_group_sorted(st.map, st.group, st.stack);
            lemma_merge_group_keys(st.map, st.group, st.stack, st.order);
            let ps = inherit_groups(merged);
            assert forall|k: int| 0 <= k < ps.len() implies st.order.contains(#[trigger] ps[k].0) by {
                assert(ps[k].0 == merged[k].0);
            }
            assert(keys_sorted(ps)) by {
                assert forall|a: int, b: int| 0 <= a < b < ps.len() implies crate::text::chars_lt(
                    #[trigger] ps[a].0,
                    #[trigger] ps[b].0,
                ) by {
                    assert(ps[a].0 == merged[a].0 && ps[b].0 == merged[b].0);
                }
            }
        }
    } else {
        lemma_step_keeps_order(toks, i, st);
        match parse_step(toks, i, st) {
            PStep::Go(next, j) => {
                if j > i && j <= toks.len() {
                    lemma_run_keeps_order(toks, j, next);
                }
            },
            _ => {},
        }
    }
}

/// A successful parse names `main` first among the groups, names no group twice, and
/// names every group that holds trees; the groups come in name order.
pub proof fn law_parse_group_order(toks: Seq<(LexModel, nat, nat)>)
    ensures
        parse_outcome(toks) matches POutcome::Done(ps, order) ==> {
            &&& order.len() >= 1
            &&& order[0] == main_group()
            &&& order.no_duplicates()
            &&& keys_sorted(ps)
            &&& forall|k: int| 0 <= k < ps.len() ==> order.contains(#[trigger] ps[k].0)
        },
{
    let st = initial_state();
    assert(st.order.contains(main_group())) by {
        assert(st.order[0] == main_group());
    }
    assert(st.order.no_duplicates());
    lemma_run_keeps_order(toks, 0, st);
}

/// A quoted value is read whole: for any text `w` of at least one character and without a
/// double quote (spaces, tabs, commas, brackets and the like included), the text `"w"`
/// lexes to the one token `Value(w)`, spanning all of its bytes.
pub proof fn law_quoted_value_token(w: Seq<char>)
    requires
        w.len() > 0,
        forall|i: int| 0 <= i < w.len() ==> #[trigger] w[i] != '"',
    ensures
        ({
            let s = seq!['"'] + w + seq!['"'];
            crate::tsml::lexer::lex(s) == seq![
                (LexModel::Value(w), 0nat, crate::text::utf8_len_seq(s)),
            ]
        }),
{
    let s = seq!['"'] + w + seq!['"'];
    let n: int = w.len() as int + 1;
    crate::scan::lemma_quoted_text(w);
    assert(crate::tsml::lexer::scan_at(s, 0) == (Some(LexModel::Value(w)), n + 1));
    assert(s.take(0) =~= Seq::<char>::empty());
    assert(s.take(s.len() as int) =~= s);
    assert(crate::tsml::lexer::lex_from(s, n + 1) == Seq::<(LexModel, nat, nat)>::empty());
    assert(crate::tsml::lexer::lex_from(s, 0) =~= seq![
        (LexModel::Value(w), 0nat, crate::text::utf8_len_seq(s)),
    ]);
}

/// A tag list belongs to the one value that follows it. When a value is read, the node it
/// starts gets exactly the pending tag list as its direct tags, and no tag list is pending
/// afterwards: a value read next gets no direct tags, and a tag list read next is taken
/// for the value after it (it is no tag list after a tag list).
pub proof fn law_tag_list_goes_to_next_value_only(
    toks: Seq<(LexModel, nat, nat)>,
    i: int,
    st: PState,
)
    requires
        0 <= i < toks.len(),
        toks[i].0 is Value,
        parse_step(toks, i, st) is Go,
    ensures
        parse_step(toks, i, st) matches PStep::Go(st1, j) && {
            &&& st1.stack.len() == st.stack.len() + 1
            &&& st1.stack.last().tags_of() matches Some(t) && t.direct == st.last_tags.to_set()
            &&& st1.last_tags.len() == 0
            &&& (0 <= j < toks.len() && toks[j].0 is Value && parse_step(toks, j, st1) is Go)
                ==> (parse_step(toks, j, st1) matches PStep::Go(st2, _)
                && st2.stack.last().tags_of() matches Some(t2) && t2.direct
                =~= Set::<Seq<char>>::empty())
            &&& (0 <= j < toks.len() && toks[j].1 >= st.line_start && toks[j].0 is Tags) ==> (
            parse_step(toks, j, st1) matches PStep::Go(st2, _) && st2.last_tags
                == toks[j].0->Tags_0)
        },
{
    let st1 = parse_step(toks, i, st)->Go_0;
    assert(st1.line_start == st.line_start);
    assert(st1.last_tags =~= Seq::<Seq<char>>::empty());
    assert(st1.last_tags.to_set() =~= Set::<Seq<char>>::empty());
}

/// Inside brackets a comma separates values just as a line break does: reading a `,`
/// leaves the parser in the state that reading a line break in its place would, but for
/// the line count, so a value read right after the comma is read as the next value.
pub proof fn law_comma_in_brackets_is_a_line_break(
    toks: Seq<(LexModel, nat, nat)>,
    i: int,
    st: PState,
)
    requires
        0 <= i < toks.len(),
        toks[i].0 == LexModel::Separator(','),
        toks[i].1 >= st.line_start,
        st.depth > 0,
        st.line < usize::MAX,
    ensures
        ({
            let nl = toks.update(i, (LexModel::Separator('\n'), toks[i].1, toks[i].2));
            &&& parse_step(toks, i, st) matches PStep::Go(a, ja)
            &&& parse_step(nl, i, st) matches PStep::Go(b, jb)
            &&& ja == jb
            &&& a == PState { line: st.line, line_start: st.line_start, ..b }
            &&& !a.busy
        }),
{
    let nl = toks.update(i, (LexModel::Separator('\n'), toks[i].1, toks[i].2));
    assert(nl[i].0 == LexModel::Separator('\n'));
    assert(nl[i].1 == toks[i].1);
}

} // verus!
