//! The SLR engine: a deterministic bottom-up parse driven by a state stack
//! and a parallel node stack.
//!
//! At each step the engine looks up the action for the top state and the
//! lookahead's terminal name (exact entry first, then the `"ANY"` wildcard).
//! Shift pushes a leaf and a state and consumes the lookahead; reduce pops,
//! attaches the popped nodes to a new internal node, and takes a goto
//! transition without consuming; accept returns the node stack as the
//! finished forest. Any missing entry rejects the input at once — the
//! engine does no recovery and reports no positional detail.
//!
//! The engine runs under a step budget generous enough for any run that
//! does not cycle, so a malformed table that would drive the original
//! algorithm forever manifests as rejection instead.

use vstd::prelude::*;

use crate::table::{
    find_assoc, find_row, find_with_wildcard, goto_inner_view, goto_target, Action, ActionV,
    ParsingTable, TableView,
};
use crate::token::{tokens_view, Token, TokenView};
use crate::tree::{forest_view, lemma_forest_view_index, node_view, NodeView, SyntaxTreeNode};

verus! {

/// What a run of the engine yields: the accepted forest, a rejection, or
/// an exhausted step budget (only a table that cycles can exhaust it).
pub ghost enum RunOutcome {
    Accepted(Seq<NodeView>),
    Rejected,
    OutOfFuel,
}

/// The leaf pushed when a token is shifted.
pub open spec fn leaf_view(t: TokenView) -> NodeView {
    NodeView { token: t, children: Seq::empty() }
}

/// The internal node built when a reduction attaches `children` under a
/// nonterminal name; its synthetic token has an empty lexeme and no
/// position.
pub open spec fn reduce_view(nt: Seq<char>, children: Seq<NodeView>) -> NodeView {
    NodeView {
        token: TokenView { kind: nt, lexeme: ""@, line: 0, start: 0, end: 0 },
        children: children,
    }
}

/// One run of the engine from an intermediate configuration: `stack` is the
/// state stack (bottom first), `nodes` the parallel node stack, `i` the
/// index of the lookahead, and `fuel` the remaining step budget.
pub open spec fn parse_run(
    t: TableView,
    toks: Seq<TokenView>,
    stack: Seq<int>,
    nodes: Seq<NodeView>,
    i: int,
    fuel: nat,
) -> RunOutcome
    decreases fuel,
{
    if fuel == 0 {
        RunOutcome::OutOfFuel
    } else if !(0 <= i < toks.len()) {
        RunOutcome::Rejected
    } else if stack.len() == 0 {
        RunOutcome::Rejected
    } else {
        match find_row(t, stack.last()) {
            None => RunOutcome::Rejected,
            Some(row) => match find_with_wildcard(row.actions, toks[i].kind) {
                None => RunOutcome::Rejected,
                Some(a) => match a {
                    ActionV::Shift(s) => parse_run(
                        t,
                        toks,
                        stack.push(s),
                        nodes.push(leaf_view(toks[i])),
                        i + 1,
                        (fuel - 1) as nat,
                    ),
                    ActionV::Reduce(c, nt) => if c < 0 || c >= stack.len() || c > nodes.len() {
                        RunOutcome::Rejected
                    } else {
                        let rest = stack.take(stack.len() - c);
                        match find_row(t, rest.last()) {
                            None => RunOutcome::Rejected,
                            Some(row2) => match find_assoc(row2.gotos, nt) {
                                None => RunOutcome::Rejected,
                                Some(inner) => match find_with_wildcard(inner, toks[i].kind) {
                                    None => RunOutcome::Rejected,
                                    Some(g) => parse_run(
                                        t,
                                        toks,
                                        rest.push(g),
                                        nodes.take(nodes.len() - c).push(
                                            reduce_view(nt, nodes.skip(nodes.len() - c)),
                                        ),
                                        i,
                                        (fuel - 1) as nat,
                                    ),
                                },
                            },
                        }
                    },
                    ActionV::Accept => RunOutcome::Accepted(nodes),
                },
            },
        }
    }
}

/// The step budget: generous enough that only a cycling run exhausts it.
pub open spec fn parse_fuel(t: TableView, toks: Seq<TokenView>) -> nat {
    (toks.len() + 2) * (t.rows.len() + 2) * (t.rows.len() + 2)
}

/// The outcome of the engine on a token sequence: a run from state 0 with
/// empty node stack and the full step budget.
pub open spec fn parse_outcome(t: TableView, toks: Seq<TokenView>) -> RunOutcome {
    parse_run(t, toks, seq![0int], Seq::empty(), 0, parse_fuel(t, toks))
}

/// The state stack as mathematical integers.
pub open spec fn stack_view(s: Seq<usize>) -> Seq<int> {
    Seq::new(s.len(), |i: int| s[i] as int)
}

fn compute_fuel(n_toks: usize, n_rows: usize) -> (f: u64)
    requires
        n_toks <= 0x8000_0000,
        n_rows <= 0x8000,
    ensures
        f as nat == (n_toks + 2) * (n_rows + 2) * (n_rows + 2),
{
    let a: u64 = n_toks as u64 + 2;
    let b: u64 = n_rows as u64 + 2;
    assert(a * b <= 0x8000_0002u64 * 0x8002u64) by (nonlinear_arith)
        requires
            a <= 0x8000_0002u64,
            b <= 0x8002u64,
    ;
    let ab: u64 = a * b;
    assert(ab * b <= 0x8000_0002u64 * 0x8002u64 * 0x8002u64) by (nonlinear_arith)
        requires
            ab <= 0x8000_0002u64 * 0x8002u64,
            b <= 0x8002u64,
    ;
    ab * b
}

/// Drives the SLR engine over the whole token sequence.
///
/// Returns `(true, Some(forest))` exactly when the run accepts, in which
/// case the forest is the finished node stack (normally a single root);
/// returns `(false, None)` when some step has no table entry, when the
/// tokens run out before an accept action, or when the step budget is
/// exhausted. The two length bounds are far beyond any real input and only
/// keep the budget arithmetic within the machine.
#[verifier::loop_isolation(false)]
pub fn syntax_parse(tokens: &Vec<Token>, table: &ParsingTable) -> (r: (
    bool,
    Option<Vec<SyntaxTreeNode>>,
))
    requires
        tokens@.len() <= 0x8000_0000,
        table.rows@.len() <= 0x8000,
    ensures
        r.0 == (parse_outcome(table@, tokens_view(tokens@)) is Accepted),
        match r.1 {
            Some(forest) => r.0 && parse_outcome(table@, tokens_view(tokens@))
                == RunOutcome::Accepted(forest_view(forest@)),
            None => !r.0,
        },
{
    let ghost t = table@;
    let ghost toks = tokens_view(tokens@);
    let mut stack: Vec<usize> = Vec::new();
    stack.push(0);
    let mut nodes: Vec<SyntaxTreeNode> = Vec::new();
    let mut i: usize = 0;
    let mut fuel: u64 = compute_fuel(tokens.len(), table.rows.len());
    proof {
        assert(stack_view(stack@) =~= seq![0int]);
        assert(forest_view(nodes@) =~= Seq::<NodeView>::empty());
    }
    loop
        invariant
            stack@.len() >= 1,
            parse_outcome(t, toks) == parse_run(
                t,
                toks,
                stack_view(stack@),
                forest_view(nodes@),
                i as int,
                fuel as nat,
            ),
        decreases fuel,
    {
        if fuel == 0 {
            return (false, None);
        }
        if i >= tokens.len() {
            return (false, None);
        }
        let top = stack[stack.len() - 1];
        assert(stack_view(stack@).last() == top as int);
        let tok_kind = &tokens[i].value;
        assert(tok_kind@ == toks[i as int].kind);
        match table.state_row(top) {
            None => {
                return (false, None);
            },
            Some(row) => match row.action_for(tok_kind) {
                None => {
                    return (false, None);
                },
                Some(a) => match a {
                    Action::Shift(s) => {
                        let s = *s;
                        let leaf = SyntaxTreeNode {
                            token: tokens[i].duplicate(),
                            children: Vec::new(),
                        };
                        proof {
                            assert(forest_view(leaf.children@) =~= Seq::<NodeView>::empty());
                            assert(node_view(leaf) == leaf_view(toks[i as int]));
                            let ghost old_nodes = nodes@;
                            assert(old_nodes.push(leaf).drop_last() =~= old_nodes);
                            assert(forest_view(old_nodes.push(leaf)) == forest_view(
                                old_nodes,
                            ).push(node_view(leaf)));
                            assert(stack_view(stack@.push(s)) =~= stack_view(stack@).push(
                                s as int,
                            ));
                        }
                        nodes.push(leaf);
                        stack.push(s);
                        i = i + 1;
                        fuel = fuel - 1;
                    },
                    Action::Reduce(c, nt) => {
                        let c = *c;
                        proof {
                            lemma_forest_view_index(nodes@);
                        }
                        if c >= stack.len() || c > nodes.len() {
                            return (false, None);
                        }
                        let new_len = stack.len() - c;
                        let rest_top = stack[new_len - 1];
                        proof {
                            assert(stack_view(stack@).take(new_len as int) =~= stack_view(
                                stack@.subrange(0, new_len as int),
                            ));
                            assert(stack_view(stack@).take(new_len as int).last() == rest_top as int);
                        }
                        match table.state_row(rest_top) {
                            None => {
                                return (false, None);
                            },
                            Some(row2) => match row2.goto_row(nt) {
                                None => {
                                    return (false, None);
                                },
                                Some(inner) => match goto_target(inner, tok_kind) {
                                    None => {
                                        return (false, None);
                                    },
                                    Some(g) => {
                                        let nt_name = nt.clone();
                                        let ghost old_nodes = nodes@;
                                        let ghost old_stack = stack@;
                                        let children = nodes.split_off(nodes.len() - c);
                                        let node = SyntaxTreeNode {
                                            token: Token {
                                                value: nt_name,
                                                lexeme: "".to_owned(),
                                                line: 0,
                                                initial_position: 0,
                                                final_position: 0,
                                            },
                                            children: children,
                                        };
                                        proof {
                                            let ghost fv = forest_view(old_nodes);
                                            lemma_forest_view_index(old_nodes);
                                            lemma_forest_view_index(node.children@);
                                            lemma_forest_view_index(nodes@);
                                            assert(forest_view(node.children@) =~= fv.skip(
                                                fv.len() - c,
                                            ));
                                            assert(node_view(node) == reduce_view(
                                                nt@,
                                                fv.skip(fv.len() - c),
                                            ));
                                            assert(forest_view(nodes@) =~= fv.take(fv.len() - c));
                                            assert(nodes@.push(node).drop_last() =~= nodes@);
                                            assert(forest_view(nodes@.push(node))
                                                == forest_view(nodes@).push(node_view(node)));
                                        }
                                        nodes.push(node);
                                        stack.truncate(new_len);
                                        stack.push(g);
                                        fuel = fuel - 1;
                                        proof {
                                            assert(stack_view(stack@) =~= stack_view(
                                                old_stack,
                                            ).take(new_len as int).push(g as int));
                                        }
                                    },
                                },
                            },
                        }
                    },
                    Action::Accept => {
                        return (true, Some(nodes));
                    },
                },
            },
        }
    }
}

} // verus!
