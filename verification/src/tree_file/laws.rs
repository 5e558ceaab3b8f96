//! Properties of the tree file parser that hold for every input.
use vstd::prelude::*;

use crate::tree_file::groups_map::{append_group, lemma_append_group_sorted};
use crate::tree_file::model::FNode;
use crate::tree_file::parser::{
    initial_state, main_group, parse_outcome, parse_run, parse_step, pass_down_groups, POutcome,
    PState, PStep,
};
use crate::tsml::groups_map::{key_lower_bound, keys_sorted, lemma_key_lower_bound};
use crate::tsml::lexer::LexModel;

verus! {

/// What the parser keeps of its state: `main` first in the group order, no name twice in
/// it, the filed groups in name order and each of them, and the current group, named in it.
pub open spec fn tree_order_ok(st: PState) -> bool {
    &&& st.order.len() >= 1
    &&& st.order[0] == main_group()
    &&& st.order.no_duplicates()
    &&& keys_sorted(st.map)
    &&& forall|k: int| 0 <= k < st.map.len() ==> st.order.contains(#[trigger] st.map[k].0)
    &&& st.order.contains(st.group)
}

/// Every group name of `append_group(ps, g, files)` is named in `order` when those of `ps`
/// and `g` are.
pub proof fn lemma_append_group_keys(
    ps: Seq<(Seq<char>, Seq<FNode>)>,
    g: Seq<char>,
    files: Seq<FNode>,
    order: Seq<Seq<char>>,
)
    requires
        keys_sorted(ps),
        forall|k: int| 0 <= k < ps.len() ==> order.contains(#[trigger] ps[k].0),
        order.contains(g),
    ensures
        forall|k: int|
            0 <= k < append_group(ps, g, files).len() ==> order.contains(
                #[trigger] append_group(ps, g, files)[k].0,
            ),
{
    lemma_key_lower_bound(ps, g);
    let p = key_lower_bound(ps, g);
    let r = append_group(ps, g, files);
    assert forall|k: int| 0 <= k < r.len() implies order.contains(#[trigger] r[k].0) by {
        if p < ps.len() && ps[p].0 == g {
            assert(r[k].0 == ps[k].0);
        } else if k < p {
            assert(r[k] == ps[k]);
        } else if k > p {
            assert(r[k] == ps[k - 1]);
        }
    }
}

/// A step keeps `tree_order_ok`.
pub proof fn lemma_tree_step_keeps_order(toks: Seq<(LexModel, nat, nat)>, i: int, st: PState)
    requires
        tree_order_ok(st),
        0 <= i < toks.len(),
    ensures
        parse_step(toks, i, st) matches PStep::Go(next, _) ==> tree_order_ok(next),
{
    if toks[i].1 >= st.line_start {
        if let LexModel::Group(g) = toks[i].0 {
            let order2 = if st.order.contains(g) {
                st.order
            } else {
                st.order.push(g)
            };
            assert(order2.contains(g)) by {
                if !st.order.contains(g) {
                    assert(order2[order2.len() - 1] == g);
                }
            }
            assert(order2[0] == main_group());
            assert(order2.no_duplicates()) by {
                if !st.order.contains(g) {
                    assert forall|a: int, b: int|
                        0 <= a < order2.len() && 0 <= b < order2.len() && a != b implies order2[a]
                        != order2[b] by {
                        if b == order2.len() - 1 && a < b {
                            assert(st.order[a] == order2[a]);
                        } else if a == order2.len() - 1 && b < a {
                            assert(st.order[b] == order2[b]);
                        }
                    }
                }
            }
            assert forall|k: int| 0 <= k < st.map.len() implies order2.contains(
                #[trigger] st.map[k].0,
            ) by {
                let j = choose|j: int| 0 <= j < st.order.len() && st.order[j] == st.map[k].0;
                assert(order2[j] == st.order[j]);
            }
            assert(order2.contains(st.group)) by {
                let j = choose|j: int| 0 <= j < st.order.len() && st.order[j] == st.group;
                assert(order2[j] == st.order[j]);
            }
            lemma_append_group_sorted(st.map, st.group, st.stack);
            lemma_append_group_keys(st.map, st.group, st.stack, order2);
        }
    }
}

/// Parsing from any state that keeps `tree_order_ok` ends, when it succeeds, with `main` first
/// in the group order, no name twice, and every group named in the order, in name order.
pub proof fn lemma_tree_run_keeps_order(toks: Seq<(LexModel, nat, nat)>, i: int, st: PState)
    requires
        tree_order_ok(st),
        0 <= i,
    ensures
        parse_run(toks, i, st) matches POutcome::Done(ps, order) ==> {
            &&& order.len() >= 1
            &&& order[0] == main_group()
            &&& order.no_duplicates()
            &&& keys_sorted(ps)
            &&& forall|k: int| 0 <= k < ps.len() ==> order.contains(#[trigger] ps[k].0)
        },
    decreases toks.len() - i,
{
    if i >= toks.len() {
        if st.depth == 0 {
            let merged = append_group(st.map, st.group, st.stack);
            lemma_append_group_sorted(st.map, st.group, st.stack);
            lemma_append_group_keys(st.map, st.group, st.stack, st.order);
            let ps = pass_down_groups(merged);
            assert forall|k: int| 0 <= k < ps.len() implies st.order.contains(#[trigger] ps[k].0) by {
                assert(ps[k].0 == merged[k].0);
            }
            assert(keys_sorted(ps)) by {
                assert forall|a: int, b: int| 0 <= a < b < ps.len() implies crate::text::chars_lt(
                    #[trigger] ps[a].0,
                    #[trigger] ps[b].0,
                ) by {
                    assert(ps[a].0 == merged[a].0 && ps[b].0 == merged[b].0);
                }
            }
        }
    } else {
        lemma_tree_step_keeps_order(toks, i, st);
        match parse_step(toks, i, st) {
            PStep::Go(next, j) => {
                if j > i && j <= toks.len() {
                    lemma_tree_run_keeps_order(toks, j, next);
                }
            },
            _ => {},
        }
    }
}

/// A successful parse names `main` first among the groups, names no group twice, and
/// names every group that holds trees; the groups come in name order.
pub proof fn law_tree_file_group_order(toks: Seq<(LexModel, nat, nat)>)
    ensures
        parse_outcome(toks) matches POutcome::Done(ps, order) ==> {
            &&& order.len() >= 1
            &&& order[0] == main_group()
            &&& order.no_duplicates()
            &&& keys_sorted(ps)
            &&& forall|k: int| 0 <= k < ps.len() ==> order.contains(#[trigger] ps[k].0)
        },
{
    let st = initial_state();
    assert(st.order.contains(main_group())) by {
        assert(st.order[0] == main_group());
    }
    assert(st.order.no_duplicates());
    lemma_tree_run_keeps_order(toks, 0, st);
}

/// Inside brackets a comma separates values just as a line break does: reading a `,`
/// leaves the parser in the state that reading a line break in its place would, but for
/// the line count. In particular, a value read right after the comma is read as the next
/// value, not refused as a second value in a row.
pub proof fn law_comma_in_brackets_is_a_line_break(
    toks: Seq<(LexModel, nat, nat)>,
    i: int,
    st: PState,
)
    requires
        0 <= i < toks.len(),
        toks[i].0 == LexModel::Separator(','),
        toks[i].1 >= st.line_start,
        st.depth > 0,
        st.line < usize::MAX,
    ensures
        ({
            let nl = toks.update(i, (LexModel::Separator('\n'), toks[i].1, toks[i].2));
            &&& parse_step(toks, i, st) matches PStep::Go(a, ja)
            &&& parse_step(nl, i, st) matches PStep::Go(b, jb)
            &&& ja == jb
            &&& a == PState { line: st.line, line_start: st.line_start, ..b }
            &&& !a.busy
        }),
{
    let nl = toks.update(i, (LexModel::Separator('\n'), toks[i].1, toks[i].2));
    assert(nl[i].0 == LexModel::Separator('\n'));
    assert(nl[i].1 == toks[i].1);
}

/// A quoted value is read whole by the tree file lexer: for any text `w` of at least one
/// character and without a double quote, the text `"w"` lexes to the one token `Value(w)`,
/// spanning all of its bytes.
pub proof fn law_tree_file_quoted_value_token(w: Seq<char>)
    requires
        w.len() > 0,
        forall|i: int| 0 <= i < w.len() ==> #[trigger] w[i] != '"',
    ensures
        ({
            let s = seq!['"'] + w + seq!['"'];
            crate::tree_file::lexer::lex(s) == seq![
                (LexModel::Value(w), 0nat, crate::text::utf8_len_seq(s)),
            ]
        }),
{
    let s = seq!['"'] + w + seq!['"'];
    let n: int = w.len() as int + 1;
    crate::scan::lemma_quoted_text(w);
    assert(crate::tree_file::lexer::scan_at(s, 0) == (Some(LexModel::Value(w)), n + 1));
    assert(s.take(0) =~= Seq::<char>::empty());
    assert(s.take(s.len() as int) =~= s);
    assert(crate::tree_file::lexer::lex_from(s, n + 1) == Seq::<(LexModel, nat, nat)>::empty());
    assert(crate::tree_file::lexer::lex_from(s, 0) =~= seq![
        (LexModel::Value(w), 0nat, crate::text::utf8_len_seq(s)),
    ]);
}

} // verus!
