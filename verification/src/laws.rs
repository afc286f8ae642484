//! Laws of the front end, stated and proved against the specifications the
//! executable functions are verified against.

use vstd::prelude::*;

use crate::lexer::{lex, sentinel_view};
use crate::parser::{leaf_view, parse_fuel, parse_outcome, parse_run, reduce_view, RunOutcome};
use crate::semantic::{traverse_children, traverse_spec, TokenType};
use crate::table::{find_assoc, find_row, find_with_wildcard, ActionV, StateView, TableView};
use crate::token::TokenView;
use crate::tree::NodeView;

verus! {

/// Tokenizing is a pure function of the source text: the contract of
/// `tokenize_code` pins every successful result to `lex` of the input
/// followed by the sentinel, so any two runs on the same text yield token
/// sequences with identical views.
pub proof fn lemma_tokenize_deterministic(
    code: Seq<char>,
    ts1: Seq<TokenView>,
    ts2: Seq<TokenView>,
)
    requires
        lex(code) is Toks,
        ts1 == lex(code)->Toks_0.push(sentinel_view()),
        ts2 == lex(code)->Toks_0.push(sentinel_view()),
    ensures
        ts1 == ts2,
{
}

/// The brace events a node contributes to the scope walk, in walk order:
/// `1` for a `{` leaf, `-1` for a `}` leaf; wrapper nonterminals contribute
/// their children's events; every other node contributes none, because the
/// walk does not descend into it.
pub open spec fn brace_events(n: NodeView) -> Seq<int>
    decreases n,
{
    if n.token.kind == "LEFT_CURLY_BRACE"@ {
        seq![1int]
    } else if n.token.kind == "RIGHT_CURLY_BRACE"@ {
        seq![-1int]
    } else if n.token.kind == "program-nt"@ || n.token.kind == "command-nt"@ || n.token.kind
        == "command-list-nt"@ {
        brace_events_children(n.children)
    } else {
        Seq::empty()
    }
}

/// The brace events of a node sequence, in order.
pub open spec fn brace_events_children(cs: Seq<NodeView>) -> Seq<int>
    decreases cs,
{
    if cs.len() == 0 {
        Seq::empty()
    } else {
        brace_events(cs[0]) + brace_events_children(cs.drop_first())
    }
}

/// The sum of an integer sequence.
pub open spec fn sum(s: Seq<int>) -> int
    decreases s.len(),
{
    if s.len() == 0 {
        0
    } else {
        s[0] + sum(s.drop_first())
    }
}

/// A brace sequence is well nested when no prefix closes more scopes than
/// it has opened and the whole sequence closes every scope it opens.
pub open spec fn well_nested(s: Seq<int>) -> bool {
    (forall|j: int| 0 <= j <= s.len() ==> sum(#[trigger] s.take(j)) >= 0) && sum(s) == 0
}

proof fn lemma_sum_append(a: Seq<int>, b: Seq<int>)
    ensures
        sum(a + b) == sum(a) + sum(b),
    decreases a.len(),
{
    if a.len() == 0 {
        assert(a + b =~= b);
    } else {
        assert((a + b).drop_first() =~= a.drop_first() + b);
        lemma_sum_append(a.drop_first(), b);
    }
}

proof fn lemma_labels_distinct()
    ensures
        "assign-nt"@ != "LEFT_CURLY_BRACE"@,
        "assign-nt"@ != "RIGHT_CURLY_BRACE"@,
        "assign-nt"@ != "program-nt"@,
        "assign-nt"@ != "command-nt"@,
        "assign-nt"@ != "command-list-nt"@,
        "declare-nt"@ != "LEFT_CURLY_BRACE"@,
        "declare-nt"@ != "RIGHT_CURLY_BRACE"@,
        "declare-nt"@ != "program-nt"@,
        "declare-nt"@ != "command-nt"@,
        "declare-nt"@ != "command-list-nt"@,
        "LEFT_CURLY_BRACE"@ != "RIGHT_CURLY_BRACE"@,
        "LEFT_CURLY_BRACE"@ != "program-nt"@,
        "LEFT_CURLY_BRACE"@ != "command-nt"@,
        "LEFT_CURLY_BRACE"@ != "command-list-nt"@,
        "RIGHT_CURLY_BRACE"@ != "program-nt"@,
        "RIGHT_CURLY_BRACE"@ != "command-nt"@,
        "RIGHT_CURLY_BRACE"@ != "command-list-nt"@,
{
    reveal_strlit("assign-nt");
    reveal_strlit("declare-nt");
    reveal_strlit("LEFT_CURLY_BRACE");
    reveal_strlit("RIGHT_CURLY_BRACE");
    reveal_strlit("program-nt");
    reveal_strlit("command-nt");
    reveal_strlit("command-list-nt");
    assert("assign-nt"@.len() == 9);
    assert("declare-nt"@.len() == 10);
    assert("LEFT_CURLY_BRACE"@.len() == 16);
    assert("RIGHT_CURLY_BRACE"@.len() == 17);
    assert("program-nt"@.len() == 10);
    assert("command-nt"@.len() == 10);
    assert("command-list-nt"@.len() == 15);
    assert("declare-nt"@[0] == 'd' && "program-nt"@[0] == 'p' && "command-nt"@[0] == 'c');
}

proof fn lemma_traverse_depth(n: NodeView, scopes: Seq<Seq<(Seq<char>, TokenType)>>)
    requires
        scopes.len() >= 1,
        forall|j: int| 0 <= j <= brace_events(n).len() ==> scopes.len() + sum(
            #[trigger] brace_events(n).take(j),
        ) >= 1,
    ensures
        traverse_spec(n, scopes) is Ok ==> traverse_spec(n, scopes)->Ok_0.len() == scopes.len()
            + sum(brace_events(n)),
    decreases n,
{
    lemma_labels_distinct();
    reveal_with_fuel(brace_events, 2);
    let ev = brace_events(n);
    if n.token.kind == "assign-nt"@ {
        assert(ev =~= Seq::<int>::empty());
    } else if n.token.kind == "declare-nt"@ {
        assert(ev =~= Seq::<int>::empty());
    } else if n.token.kind == "LEFT_CURLY_BRACE"@ {
        assert(sum(seq![1int].drop_first()) == 0);
        assert(sum(ev) == 1);
    } else if n.token.kind == "RIGHT_CURLY_BRACE"@ {
        assert(ev.take(1) =~= ev);
        assert(sum(seq![-1int].drop_first()) == 0);
        assert(sum(ev) == -1);
        assert(scopes.len() + sum(ev) >= 1);
        assert(scopes.len() > 1);
    } else if n.token.kind == "program-nt"@ || n.token.kind == "command-nt"@ || n.token.kind
        == "command-list-nt"@ {
        lemma_traverse_children_depth(n.children, scopes);
    } else {
        assert(ev =~= Seq::<int>::empty());
    }
}

proof fn lemma_traverse_children_depth(
    cs: Seq<NodeView>,
    scopes: Seq<Seq<(Seq<char>, TokenType)>>,
)
    requires
        scopes.len() >= 1,
        forall|j: int| 0 <= j <= brace_events_children(cs).len() ==> scopes.len() + sum(
            #[trigger] brace_events_children(cs).take(j),
        ) >= 1,
    ensures
        traverse_children(cs, scopes) is Ok ==> traverse_children(cs, scopes)->Ok_0.len()
            == scopes.len() + sum(brace_events_children(cs)),
    decreases cs,
{
    if cs.len() == 0 {
    } else {
        reveal_with_fuel(brace_events_children, 2);
        let ev = brace_events_children(cs);
        let e0 = brace_events(cs[0]);
        let rest = brace_events_children(cs.drop_first());
        assert(ev == e0 + rest);
        lemma_sum_append(e0, rest);
        assert(forall|j: int| 0 <= j <= e0.len() ==> (e0 + rest).take(j) =~= e0.take(j));
        lemma_traverse_depth(cs[0], scopes);
        if traverse_children(cs, scopes) is Ok {
            let s2 = traverse_spec(cs[0], scopes)->Ok_0;
            assert((e0 + rest).take(e0.len() as int) =~= e0);
            assert(s2.len() == scopes.len() + sum(e0));
            assert(s2.len() >= 1);
            assert forall|j: int| 0 <= j <= rest.len() implies s2.len() + sum(
                #[trigger] rest.take(j),
            ) >= 1 by {
                assert((e0 + rest).take(e0.len() + j) =~= e0 + rest.take(j));
                assert(scopes.len() + sum((e0 + rest).take(e0.len() + j)) >= 1);
                lemma_sum_append(e0, rest.take(j));
            }
            lemma_traverse_children_depth(cs.drop_first(), s2);
        }
    }
}

/// For every node whose brace events are well nested, a successful
/// semantic walk returns the scope stack to exactly the depth it started
/// at.
pub proof fn lemma_scope_balance(n: NodeView, scopes: Seq<Seq<(Seq<char>, TokenType)>>)
    requires
        scopes.len() >= 1,
        well_nested(brace_events(n)),
        traverse_spec(n, scopes) is Ok,
    ensures
        traverse_spec(n, scopes)->Ok_0.len() == scopes.len(),
{
    lemma_traverse_depth(n, scopes);
}

/// A left-parenthesis token as the lexer emits it.
pub open spec fn lp_tok() -> TokenView {
    TokenView { kind: "LEFT_PARENTHESIS"@, lexeme: "("@, line: 0, start: 0, end: 0 }
}

/// A right-parenthesis token as the lexer emits it.
pub open spec fn rp_tok() -> TokenView {
    TokenView { kind: "RIGHT_PARENTHESIS"@, lexeme: ")"@, line: 0, start: 0, end: 0 }
}

/// The end-of-input sentinel.
pub open spec fn end_tok() -> TokenView {
    TokenView { kind: "$"@, lexeme: "$"@, line: 0, start: 0, end: 0 }
}

/// `n` copies of one token.
pub open spec fn reps_tok(t: TokenView, n: nat) -> Seq<TokenView> {
    Seq::new(n, |i: int| t)
}

/// `n` matched parentheses followed by the end sentinel.
pub open spec fn paren_input(n: nat) -> Seq<TokenView> {
    reps_tok(lp_tok(), n) + reps_tok(rp_tok(), n) + seq![end_tok()]
}

/// State 0 of the parenthesis grammar's table: before any input; shift a
/// `(` or derive the empty nesting at the end of the input.
pub open spec fn paren_row0() -> StateView {
    StateView {
        actions: seq![
            ("LEFT_PARENTHESIS"@, ActionV::Shift(2)),
            ("$"@, ActionV::Reduce(0, "S"@)),
        ],
        gotos: seq![("S"@, seq![("ANY"@, 1int)])],
    }
}

/// State 1: the whole nesting is derived; accept at the end of the input.
pub open spec fn paren_row1() -> StateView {
    StateView { actions: seq![("$"@, ActionV::Accept)], gotos: Seq::empty() }
}

/// State 2: inside one or more open parentheses.
pub open spec fn paren_row2() -> StateView {
    StateView {
        actions: seq![
            ("LEFT_PARENTHESIS"@, ActionV::Shift(2)),
            ("RIGHT_PARENTHESIS"@, ActionV::Reduce(0, "S"@)),
        ],
        gotos: seq![("S"@, seq![("ANY"@, 3int)])],
    }
}

/// State 3: an inner nesting is complete; its closing `)` must follow.
pub open spec fn paren_row3() -> StateView {
    StateView { actions: seq![("RIGHT_PARENTHESIS"@, ActionV::Shift(4))], gotos: Seq::empty() }
}

/// State 4: a parenthesized nesting is complete; reduce it regardless of
/// the lookahead (a wildcard entry).
pub open spec fn paren_row4() -> StateView {
    StateView { actions: seq![("ANY"@, ActionV::Reduce(3, "S"@))], gotos: Seq::empty() }
}

/// A table for the grammar whose sentences are well-nested parentheses:
/// one nesting is either empty or one nesting between `(` and `)`.
pub open spec fn paren_table() -> TableView {
    TableView {
        rows: seq![
            (0int, paren_row0()),
            (1int, paren_row1()),
            (2int, paren_row2()),
            (3int, paren_row3()),
            (4int, paren_row4()),
        ],
    }
}

/// The tree of `n` nested parentheses: `n + 1` nesting nodes, the
/// innermost empty.
pub open spec fn s_tree(n: nat) -> NodeView
    decreases n,
{
    if n == 0 {
        reduce_view("S"@, Seq::empty())
    } else {
        reduce_view(
            "S"@,
            seq![leaf_view(lp_tok()), s_tree((n - 1) as nat), leaf_view(rp_tok())],
        )
    }
}

/// The state stack after shifting `j` opening parentheses.
pub open spec fn shift_stack(j: nat) -> Seq<int> {
    seq![0int] + Seq::new(j, |i: int| 2int)
}

/// The node stack after shifting `j` opening parentheses.
pub open spec fn shift_nodes(j: nat) -> Seq<NodeView> {
    Seq::new(j, |i: int| leaf_view(lp_tok()))
}

proof fn lemma_paren_literals()
    ensures
        "LEFT_PARENTHESIS"@ != "RIGHT_PARENTHESIS"@,
        "LEFT_PARENTHESIS"@ != "$"@,
        "LEFT_PARENTHESIS"@ != "ANY"@,
        "RIGHT_PARENTHESIS"@ != "$"@,
        "RIGHT_PARENTHESIS"@ != "ANY"@,
        "$"@ != "ANY"@,
        "$"@ != "S"@,
{
    reveal_strlit("LEFT_PARENTHESIS");
    reveal_strlit("RIGHT_PARENTHESIS");
    reveal_strlit("$");
    reveal_strlit("ANY");
    reveal_strlit("S");
    assert("LEFT_PARENTHESIS"@.len() == 16);
    assert("RIGHT_PARENTHESIS"@.len() == 17);
    assert("$"@.len() == 1);
    assert("ANY"@.len() == 3);
    assert("S"@.len() == 1);
    assert("$"@[0] == '$' && "S"@[0] == 'S');
}

proof fn lemma_paren_lookups()
    ensures
        find_row(paren_table(), 0) == Some(paren_row0()),
        find_row(paren_table(), 1) == Some(paren_row1()),
        find_row(paren_table(), 2) == Some(paren_row2()),
        find_row(paren_table(), 3) == Some(paren_row3()),
        find_row(paren_table(), 4) == Some(paren_row4()),
        find_with_wildcard(paren_row0().actions, "LEFT_PARENTHESIS"@) == Some(ActionV::Shift(2)),
        find_with_wildcard(paren_row0().actions, "$"@) == Some(ActionV::Reduce(0, "S"@)),
        find_with_wildcard(paren_row1().actions, "$"@) == Some(ActionV::Accept),
        find_with_wildcard(paren_row2().actions, "LEFT_PARENTHESIS"@) == Some(ActionV::Shift(2)),
        find_with_wildcard(paren_row2().actions, "RIGHT_PARENTHESIS"@) == Some(
            ActionV::Reduce(0, "S"@),
        ),
        find_with_wildcard(paren_row3().actions, "RIGHT_PARENTHESIS"@) == Some(ActionV::Shift(4)),
        find_with_wildcard(paren_row4().actions, "RIGHT_PARENTHESIS"@) == Some(
            ActionV::Reduce(3, "S"@),
        ),
        find_with_wildcard(paren_row4().actions, "$"@) == Some(ActionV::Reduce(3, "S"@)),
        find_assoc(paren_row0().gotos, "S"@) == Some(seq![("ANY"@, 1int)]),
        find_assoc(paren_row2().gotos, "S"@) == Some(seq![("ANY"@, 3int)]),
        find_with_wildcard(seq![("ANY"@, 1int)], "RIGHT_PARENTHESIS"@) == Some(1int),
        find_with_wildcard(seq![("ANY"@, 1int)], "$"@) == Some(1int),
        find_with_wildcard(seq![("ANY"@, 3int)], "RIGHT_PARENTHESIS"@) == Some(3int),
        find_with_wildcard(seq![("ANY"@, 3int)], "$"@) == Some(3int),
        find_with_wildcard(seq![("ANY"@, 1int)], "LEFT_PARENTHESIS"@) == Some(1int),
        find_with_wildcard(seq![("ANY"@, 3int)], "LEFT_PARENTHESIS"@) == Some(3int),
        find_with_wildcard(paren_row0().actions, "RIGHT_PARENTHESIS"@) is None,
        find_with_wildcard(paren_row1().actions, "LEFT_PARENTHESIS"@) is None,
        find_with_wildcard(paren_row1().actions, "RIGHT_PARENTHESIS"@) is None,
        find_with_wildcard(paren_row2().actions, "$"@) is None,
        find_with_wildcard(paren_row3().actions, "LEFT_PARENTHESIS"@) is None,
        find_with_wildcard(paren_row3().actions, "$"@) is None,
        find_with_wildcard(paren_row4().actions, "LEFT_PARENTHESIS"@) == Some(
            ActionV::Reduce(3, "S"@),
        ),
{
    lemma_paren_literals();
    reveal_with_fuel(find_row, 6);
    reveal_with_fuel(find_assoc, 4);
    assert(paren_table().rows.drop_first() =~= seq![
        (1int, paren_row1()),
        (2int, paren_row2()),
        (3int, paren_row3()),
        (4int, paren_row4()),
    ]);
    assert(find_row(paren_table(), 1) == Some(paren_row1())) by {
        reveal_with_fuel(find_row, 6);
        assert(TableView { rows: paren_table().rows.drop_first() }.rows[0].0 == 1);
    }
    assert(seq![
        ("LEFT_PARENTHESIS"@, ActionV::Shift(2)),
        ("$"@, ActionV::Reduce(0, "S"@)),
    ].drop_first() =~= seq![("$"@, ActionV::Reduce(0, "S"@))]);
    assert(seq![
        ("LEFT_PARENTHESIS"@, ActionV::Shift(2)),
        ("RIGHT_PARENTHESIS"@, ActionV::Reduce(0, "S"@)),
    ].drop_first() =~= seq![("RIGHT_PARENTHESIS"@, ActionV::Reduce(0, "S"@))]);
}

proof fn lemma_paren_input_index(n: nat)
    ensures
        paren_input(n).len() == 2 * n + 1,
        forall|j: int| 0 <= j < n ==> paren_input(n)[j] == lp_tok(),
        forall|j: int| n <= j < 2 * n ==> paren_input(n)[j] == rp_tok(),
        paren_input(n)[2 * n as int] == end_tok(),
{
    assert forall|j: int| 0 <= j < n implies paren_input(n)[j] == lp_tok() by {
        assert(paren_input(n)[j] == reps_tok(lp_tok(), n)[j]);
    }
    assert forall|j: int| n <= j < 2 * n implies paren_input(n)[j] == rp_tok() by {
        assert(paren_input(n)[j] == reps_tok(rp_tok(), n)[j - n]);
    }
}

proof fn lemma_paren_shifts(n: nat, j: nat, fuel: nat)
    requires
        j <= n,
        fuel >= n - j,
    ensures
        parse_run(paren_table(), paren_input(n), shift_stack(j), shift_nodes(j), j as int, fuel)
            == parse_run(
            paren_table(),
            paren_input(n),
            shift_stack(n),
            shift_nodes(n),
            n as int,
            (fuel - (n - j)) as nat,
        ),
    decreases n - j,
{
    if j < n {
        lemma_paren_lookups();
        lemma_paren_input_index(n);
        let toks = paren_input(n);
        let stack = shift_stack(j);
        assert(stack.len() == j + 1);
        assert(stack.last() == (if j == 0 {
            0int
        } else {
            2int
        }));
        assert(toks[j as int] == lp_tok());
        assert(stack.push(2) =~= shift_stack((j + 1) as nat));
        assert(shift_nodes(j).push(leaf_view(lp_tok())) =~= shift_nodes((j + 1) as nat));
        assert(parse_run(paren_table(), toks, stack, shift_nodes(j), j as int, fuel)
            == parse_run(
            paren_table(),
            toks,
            shift_stack((j + 1) as nat),
            shift_nodes((j + 1) as nat),
            (j + 1) as int,
            (fuel - 1) as nat,
        ));
        lemma_paren_shifts(n, (j + 1) as nat, (fuel - 1) as nat);
    }
}

proof fn lemma_paren_close(n: nat, j: nat, fuel: nat)
    requires
        1 <= n,
        j < n,
        fuel >= 2 * (n - j) + 1,
    ensures
        parse_run(
            paren_table(),
            paren_input(n),
            shift_stack((n - j) as nat).push(3),
            shift_nodes((n - j) as nat).push(s_tree(j)),
            (n + j) as int,
            fuel,
        ) == RunOutcome::Accepted(seq![s_tree(n)]),
    decreases n - j,
{
    lemma_paren_lookups();
    lemma_paren_input_index(n);
    let t = paren_table();
    let toks = paren_input(n);
    let m = (n - j) as nat;
    let stack1 = shift_stack(m).push(3);
    let nodes1 = shift_nodes(m).push(s_tree(j));
    assert(stack1.len() == m + 2);
    assert(nodes1.len() == m + 1);
    assert(toks[(n + j) as int] == rp_tok());
    // Shift the closing parenthesis in state 3.
    let stack2 = stack1.push(4);
    let nodes2 = nodes1.push(leaf_view(rp_tok()));
    assert(stack1.last() == 3);
    assert(parse_run(t, toks, stack1, nodes1, (n + j) as int, fuel) == parse_run(
        t,
        toks,
        stack2,
        nodes2,
        (n + j + 1) as int,
        (fuel - 1) as nat,
    ));
    // Reduce the completed parenthesized nesting in state 4.
    assert(stack2.last() == 4);
    let look = toks[(n + j + 1) as int];
    assert(if j + 1 < n {
        look == rp_tok()
    } else {
        look == end_tok()
    });
    assert(find_with_wildcard(paren_row4().actions, look.kind) == Some(
        ActionV::Reduce(3, "S"@),
    )) by {
        lemma_paren_lookups();
    }
    let rest = stack2.take(stack2.len() - 3);
    assert(rest =~= shift_stack((m - 1) as nat));
    assert(rest.last() == (if m == 1 {
        0int
    } else {
        2int
    }));
    let children = nodes2.skip(nodes2.len() - 3);
    assert(children =~= seq![leaf_view(lp_tok()), s_tree(j), leaf_view(rp_tok())]);
    assert(reduce_view("S"@, children) == s_tree((j + 1) as nat));
    let nodes3 = nodes2.take(nodes2.len() - 3).push(s_tree((j + 1) as nat));
    assert(nodes3 =~= shift_nodes((m - 1) as nat).push(s_tree((j + 1) as nat)));
    if j + 1 < n {
        assert(m >= 2);
        let stack3 = rest.push(3);
        assert(parse_run(t, toks, stack2, nodes2, (n + j + 1) as int, (fuel - 1) as nat)
            == parse_run(t, toks, stack3, nodes3, (n + j + 1) as int, (fuel - 2) as nat));
        assert(stack3 =~= shift_stack((n - (j + 1)) as nat).push(3));
        assert(nodes3 =~= shift_nodes((n - (j + 1)) as nat).push(s_tree((j + 1) as nat)));
        lemma_paren_close(n, (j + 1) as nat, (fuel - 2) as nat);
    } else {
        assert(m == 1);
        assert(rest =~= seq![0int]);
        let stack3 = rest.push(1);
        assert(parse_run(t, toks, stack2, nodes2, (n + j + 1) as int, (fuel - 1) as nat)
            == parse_run(t, toks, stack3, nodes3, (n + j + 1) as int, (fuel - 2) as nat));
        // Accept in state 1 at the end of the input.
        assert(stack3.last() == 1);
        assert(n + j + 1 == 2 * n);
        assert(toks[(n + j + 1) as int] == end_tok());
        assert(nodes3 =~= seq![s_tree(n)]);
        assert(parse_run(t, toks, stack3, nodes3, (n + j + 1) as int, (fuel - 2) as nat)
            == RunOutcome::Accepted(nodes3));
    }
}

/// Any `n` matched parentheses followed by the end sentinel are accepted
/// by the parenthesis-nesting table, and the finished forest is the single
/// tree of `n` nested parentheses.
pub proof fn lemma_paren_acceptance(n: nat)
    ensures
        parse_outcome(paren_table(), paren_input(n)) == RunOutcome::Accepted(seq![s_tree(n)]),
{
    lemma_paren_lookups();
    lemma_paren_input_index(n);
    let t = paren_table();
    let toks = paren_input(n);
    let fuel = parse_fuel(t, toks);
    assert(t.rows.len() == 5);
    assert(fuel == (2 * n + 3) * 7 * 7);
    assert(fuel >= 3 * n + 3);
    assert(shift_stack(0) =~= seq![0int]);
    assert(shift_nodes(0) =~= Seq::<NodeView>::empty());
    lemma_paren_shifts(n, 0, fuel);
    let f1 = (fuel - n) as nat;
    if n == 0 {
        // Derive the empty nesting in state 0, then accept in state 1.
        let stack = shift_stack(0);
        let nodes = shift_nodes(0);
        assert(toks[0] == end_tok());
        assert(stack.last() == 0);
        let rest = stack.take(stack.len() - 0);
        assert(rest =~= stack);
        let children = nodes.skip(nodes.len() - 0);
        assert(children =~= Seq::<NodeView>::empty());
        assert(reduce_view("S"@, children) == s_tree(0));
        let nodes2 = nodes.take(nodes.len() - 0).push(s_tree(0));
        assert(nodes2 =~= seq![s_tree(0)]);
        let stack2 = rest.push(1);
        assert(parse_run(t, toks, stack, nodes, 0, f1) == parse_run(
            t,
            toks,
            stack2,
            nodes2,
            0,
            (f1 - 1) as nat,
        ));
        assert(stack2.last() == 1);
        assert(parse_run(t, toks, stack2, nodes2, 0, (f1 - 1) as nat) == RunOutcome::Accepted(
            nodes2,
        ));
    } else {
        // Derive the innermost empty nesting in state 2, then close the
        // parentheses pair by pair.
        let stack = shift_stack(n);
        let nodes = shift_nodes(n);
        assert(toks[n as int] == rp_tok());
        assert(stack.len() == n + 1);
        assert(stack.last() == 2);
        let rest = stack.take(stack.len() - 0);
        assert(rest =~= stack);
        let children = nodes.skip(nodes.len() - 0);
        assert(children =~= Seq::<NodeView>::empty());
        assert(reduce_view("S"@, children) == s_tree(0));
        let nodes2 = nodes.take(nodes.len() - 0).push(s_tree(0));
        assert(nodes2 =~= shift_nodes(n).push(s_tree(0)));
        let stack2 = rest.push(3);
        assert(parse_run(t, toks, stack, nodes, n as int, f1) == parse_run(
            t,
            toks,
            stack2,
            nodes2,
            n as int,
            (f1 - 1) as nat,
        ));
        assert(stack2 =~= shift_stack(n).push(3));
        lemma_paren_close(n, 0, (f1 - 1) as nat);
    }
}

/// A prefix of `x` opening then `y` closing parentheses.
pub open spec fn paren_prefix(x: nat, y: nat) -> Seq<TokenView> {
    reps_tok(lp_tok(), x) + reps_tok(rp_tok(), y)
}

/// Whether every token of `w` is a parenthesis.
pub open spec fn all_parens(w: Seq<TokenView>) -> bool {
    forall|i: int| 0 <= i < w.len() ==> #[trigger] w[i] == lp_tok() || w[i] == rp_tok()
}

proof fn lemma_prefix_extend(w: Seq<TokenView>, x: nat, y: nat, i: int)
    requires
        0 <= i < w.len(),
        i == x + y,
        w.take(i) == paren_prefix(x, y),
    ensures
        w[i] == lp_tok() && y == 0 ==> w.take(i + 1) == paren_prefix((x + 1) as nat, 0),
        w[i] == rp_tok() ==> w.take(i + 1) == paren_prefix(x, (y + 1) as nat),
{
    if w[i] == lp_tok() && y == 0 {
        assert(w.take(i + 1) =~= paren_prefix((x + 1) as nat, 0));
    }
    if w[i] == rp_tok() {
        assert(w.take(i + 1) =~= paren_prefix(x, (y + 1) as nat));
    }
}

proof fn lemma_paren_sound_a(
    w: Seq<TokenView>,
    nodes: Seq<NodeView>,
    a: nat,
    fuel: nat,
)
    requires
        all_parens(w),
        a <= w.len(),
        w.take(a as int) == paren_prefix(a, 0),
        parse_run(
            paren_table(),
            w + seq![end_tok()],
            shift_stack(a),
            nodes,
            a as int,
            fuel,
        ) is Accepted,
    ensures
        exists|n: nat| w == paren_prefix(n, n),
    decreases fuel,
{
    lemma_paren_lookups();
    lemma_paren_literals();
    let t = paren_table();
    let toks = w + seq![end_tok()];
    let stack = shift_stack(a);
    assert(stack.len() == a + 1);
    assert(stack.last() == (if a == 0 {
        0int
    } else {
        2int
    }));
    if fuel == 0 {
        assert(false);
    } else if a == w.len() {
        assert(toks[a as int] == end_tok());
        if a == 0 {
            let rest = stack.take(stack.len() - 0);
            assert(rest =~= stack);
            let nodes2 = nodes.take(nodes.len() - 0).push(
                reduce_view("S"@, nodes.skip(nodes.len() - 0)),
            );
            let stack2 = rest.push(1);
            assert(parse_run(t, toks, stack, nodes, a as int, fuel) == parse_run(
                t,
                toks,
                stack2,
                nodes2,
                a as int,
                (fuel - 1) as nat,
            ));
            assert(stack2 =~= seq![0int, 1int]);
            lemma_paren_sound_d(w, nodes2, 0, (fuel - 1) as nat);
        } else {
            assert(false);
        }
    } else {
        assert(toks[a as int] == w[a as int]);
        if w[a as int] == lp_tok() {
            lemma_prefix_extend(w, a, 0, a as int);
            assert(stack.push(2) =~= shift_stack((a + 1) as nat));
            lemma_paren_sound_a(
                w,
                nodes.push(leaf_view(lp_tok())),
                (a + 1) as nat,
                (fuel - 1) as nat,
            );
        } else {
            assert(w[a as int] == rp_tok());
            if a == 0 {
                assert(false);
            } else {
                let rest = stack.take(stack.len() - 0);
                assert(rest =~= stack);
                let nodes2 = nodes.take(nodes.len() - 0).push(
                    reduce_view("S"@, nodes.skip(nodes.len() - 0)),
                );
                let stack2 = rest.push(3);
                assert(parse_run(t, toks, stack, nodes, a as int, fuel) == parse_run(
                    t,
                    toks,
                    stack2,
                    nodes2,
                    a as int,
                    (fuel - 1) as nat,
                ));
                assert(stack2 =~= shift_stack(a).push(3));
                assert(w.take(a as int) =~= paren_prefix(a, 0));
                lemma_paren_sound_b(w, nodes2, a, 0, (fuel - 1) as nat);
            }
        }
    }
}

proof fn lemma_paren_sound_b(
    w: Seq<TokenView>,
    nodes: Seq<NodeView>,
    a: nat,
    j: nat,
    fuel: nat,
)
    requires
        all_parens(w),
        a >= 1,
        a + 2 * j <= w.len(),
        w.take((a + 2 * j) as int) == paren_prefix((a + j) as nat, j),
        parse_run(
            paren_table(),
            w + seq![end_tok()],
            shift_stack(a).push(3),
            nodes,
            (a + 2 * j) as int,
            fuel,
        ) is Accepted,
    ensures
        exists|n: nat| w == paren_prefix(n, n),
    decreases fuel,
{
    lemma_paren_lookups();
    lemma_paren_literals();
    let t = paren_table();
    let toks = w + seq![end_tok()];
    let stack = shift_stack(a).push(3);
    let i = (a + 2 * j) as int;
    assert(stack.last() == 3);
    if fuel == 0 {
        assert(false);
    } else if i == w.len() {
        assert(toks[i] == end_tok());
        assert(false);
    } else {
        assert(toks[i] == w[i]);
        if w[i] == lp_tok() {
            assert(false);
        } else {
            assert(w[i] == rp_tok());
            lemma_prefix_extend(w, (a + j) as nat, j, i);
            let stack2 = stack.push(4);
            let nodes2 = nodes.push(leaf_view(rp_tok()));
            assert(parse_run(t, toks, stack, nodes, i, fuel) == parse_run(
                t,
                toks,
                stack2,
                nodes2,
                i + 1,
                (fuel - 1) as nat,
            ));
            assert(stack2 =~= shift_stack(a) + seq![3int, 4int]);
            lemma_paren_sound_c(w, nodes2, a, j, (fuel - 1) as nat);
        }
    }
}

proof fn lemma_paren_sound_c(
    w: Seq<TokenView>,
    nodes: Seq<NodeView>,
    a: nat,
    j: nat,
    fuel: nat,
)
    requires
        all_parens(w),
        a >= 1,
        a + 2 * j + 1 <= w.len(),
        w.take((a + 2 * j + 1) as int) == paren_prefix((a + j) as nat, (j + 1) as nat),
        parse_run(
            paren_table(),
            w + seq![end_tok()],
            shift_stack(a) + seq![3int, 4int],
            nodes,
            (a + 2 * j + 1) as int,
            fuel,
        ) is Accepted,
    ensures
        exists|n: nat| w == paren_prefix(n, n),
    decreases fuel,
{
    lemma_paren_lookups();
    lemma_paren_literals();
    let t = paren_table();
    let toks = w + seq![end_tok()];
    let stack = shift_stack(a) + seq![3int, 4int];
    let i = (a + 2 * j + 1) as int;
    assert(stack.len() == a + 3);
    assert(stack.last() == 4);
    if fuel == 0 {
        assert(false);
    } else {
        let look = toks[i];
        assert(look == end_tok() || look == lp_tok() || look == rp_tok());
        assert(find_with_wildcard(paren_row4().actions, look.kind) == Some(
            ActionV::Reduce(3, "S"@),
        ));
        if 3 > nodes.len() {
            assert(false);
        } else {
            let rest = stack.take(stack.len() - 3);
            assert(rest =~= shift_stack((a - 1) as nat));
            assert(rest.last() == (if a == 1 {
                0int
            } else {
                2int
            }));
            let nodes2 = nodes.take(nodes.len() - 3).push(
                reduce_view("S"@, nodes.skip(nodes.len() - 3)),
            );
            if a == 1 {
                let stack2 = rest.push(1);
                assert(parse_run(t, toks, stack, nodes, i, fuel) == parse_run(
                    t,
                    toks,
                    stack2,
                    nodes2,
                    i,
                    (fuel - 1) as nat,
                ));
                assert(stack2 =~= seq![0int, 1int]);
                assert(i == 2 * (j + 1));
                assert(w.take(i) == paren_prefix((j + 1) as nat, (j + 1) as nat));
                lemma_paren_sound_d(w, nodes2, (j + 1) as nat, (fuel - 1) as nat);
            } else {
                let stack2 = rest.push(3);
                assert(parse_run(t, toks, stack, nodes, i, fuel) == parse_run(
                    t,
                    toks,
                    stack2,
                    nodes2,
                    i,
                    (fuel - 1) as nat,
                ));
                assert(stack2 =~= shift_stack((a - 1) as nat).push(3));
                assert(i == (a - 1) + 2 * (j + 1));
                assert(w.take(i) == paren_prefix(((a - 1) + (j + 1)) as nat, (j + 1) as nat));
                lemma_paren_sound_b(w, nodes2, (a - 1) as nat, (j + 1) as nat, (fuel - 1) as nat);
            }
        }
    }
}

proof fn lemma_paren_sound_d(
    w: Seq<TokenView>,
    nodes: Seq<NodeView>,
    n: nat,
    fuel: nat,
)
    requires
        all_parens(w),
        2 * n <= w.len(),
        w.take((2 * n) as int) == paren_prefix(n, n),
        parse_run(
            paren_table(),
            w + seq![end_tok()],
            seq![0int, 1int],
            nodes,
            (2 * n) as int,
            fuel,
        ) is Accepted,
    ensures
        exists|m: nat| w == paren_prefix(m, m),
    decreases fuel,
{
    lemma_paren_lookups();
    lemma_paren_literals();
    let toks = w + seq![end_tok()];
    let i = (2 * n) as int;
    if fuel == 0 {
        assert(false);
    } else if i == w.len() {
        assert(w.take(i) =~= w);
        assert(w == paren_prefix(n, n));
    } else {
        assert(toks[i] == w[i]);
        assert(false);
    }
}

/// Any parenthesis sequence that is not `n` openings followed by the same
/// number of closings is rejected by the parenthesis-nesting table: the
/// engine never accepts it.
pub proof fn lemma_paren_rejection(w: Seq<TokenView>)
    requires
        all_parens(w),
        !(exists|n: nat| w == paren_prefix(n, n)),
    ensures
        !(parse_outcome(paren_table(), w + seq![end_tok()]) is Accepted),
{
    if parse_outcome(paren_table(), w + seq![end_tok()]) is Accepted {
        let fuel = parse_fuel(paren_table(), w + seq![end_tok()]);
        assert(shift_stack(0) =~= seq![0int]);
        assert(w.take(0) =~= paren_prefix(0, 0));
        lemma_paren_sound_a(w, Seq::empty(), 0, fuel);
    }
}

/// The same balance law over a whole forest: a successful analysis of a
/// well-nested forest leaves the scope stack at its starting depth.
pub proof fn lemma_scope_balance_forest(
    cs: Seq<NodeView>,
    scopes: Seq<Seq<(Seq<char>, TokenType)>>,
)
    requires
        scopes.len() >= 1,
        well_nested(brace_events_children(cs)),
        traverse_children(cs, scopes) is Ok,
    ensures
        traverse_children(cs, scopes)->Ok_0.len() == scopes.len(),
{
    lemma_traverse_children_depth(cs, scopes);
}

} // verus!
