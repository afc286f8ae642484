//! The semantic analyzer: a depth-first walk of the syntax tree with a
//! scope stack, checking declaration, scoping and type consistency of
//! assignments.
//!
//! The walk is keyed on each node's label. A `{` leaf pushes a fresh scope
//! and the matching `}` pops it (the outermost scope, present from program
//! start, is never popped). Declaration and assignment nodes gather their
//! terminal tokens through a generic filtered collection that descends only
//! through an allow-list of wrapper labels and skips a block-list of
//! operator and equals wrappers. Name resolution uses the nearest enclosing
//! scope that contains the identifier, consistently for both the
//! presence check and the declared-type lookup.
//!
//! Analysis stops at the first violation and reports it with the position
//! of the offending token.

use vstd::prelude::*;

use crate::table::find_assoc;
use crate::token::{tokens_view, Token, TokenView};
use crate::tree::{forest_view, lemma_forest_view_index, node_view, NodeView, SyntaxTreeNode};

verus! {

/// The two primitive types of the language.
#[derive(Clone, Copy, Debug, PartialEq, Eq, Structural)]
pub enum TokenType {
    String,
    Integer,
}

/// The violation a semantic error reports.
#[derive(Debug, PartialEq, Eq)]
pub enum SemanticErrorKind {
    /// The identifier is already present in the innermost scope.
    AlreadyDeclared { identifier: String },
    /// The identifier is not present in any open scope.
    NotDeclared { identifier: String },
    /// An assignment's inferred type differs from the declared type.
    TypeMismatch { identifier: String, expected: TokenType, found: TokenType },
    /// The terminals of one expression do not all share one token kind.
    ExpressionTypeMismatch,
    /// A literal or declared-type keyword outside the supported vocabulary,
    /// or a declaration or assignment with no terminals to read.
    UnsupportedType,
}

/// A structured semantic diagnostic: the violation and the source position
/// of the token it was detected at.
#[derive(Debug, PartialEq, Eq)]
pub struct SemanticError {
    pub kind: SemanticErrorKind,
    pub line: i32,
    pub initial_position: i32,
    pub final_position: i32,
}

/// The mathematical content of a [`SemanticErrorKind`].
pub ghost enum ErrorKindView {
    AlreadyDeclared { identifier: Seq<char> },
    NotDeclared { identifier: Seq<char> },
    TypeMismatch { identifier: Seq<char>, expected: TokenType, found: TokenType },
    ExpressionTypeMismatch,
    UnsupportedType,
}

/// The mathematical content of a [`SemanticError`].
pub ghost struct ErrorView {
    pub kind: ErrorKindView,
    pub line: int,
    pub start: int,
    pub end: int,
}

impl View for SemanticErrorKind {
    type V = ErrorKindView;

    open spec fn view(&self) -> ErrorKindView {
        match self {
            SemanticErrorKind::AlreadyDeclared { identifier } => ErrorKindView::AlreadyDeclared {
                identifier: identifier@,
            },
            SemanticErrorKind::NotDeclared { identifier } => ErrorKindView::NotDeclared {
                identifier: identifier@,
            },
            SemanticErrorKind::TypeMismatch { identifier, expected, found } => ErrorKindView::TypeMismatch {
                identifier: identifier@,
                expected: *expected,
                found: *found,
            },
            SemanticErrorKind::ExpressionTypeMismatch => ErrorKindView::ExpressionTypeMismatch,
            SemanticErrorKind::UnsupportedType => ErrorKindView::UnsupportedType,
        }
    }
}

impl View for SemanticError {
    type V = ErrorView;

    open spec fn view(&self) -> ErrorView {
        ErrorView {
            kind: self.kind@,
            line: self.line as int,
            start: self.initial_position as int,
            end: self.final_position as int,
        }
    }
}

/// One scope: the identifiers declared in one block, with their types.
/// Entries are unique because a declaration checks for presence first.
pub type Scope = Vec<(String, TokenType)>;

/// The view of one scope.
pub open spec fn scope_view(s: Seq<(String, TokenType)>) -> Seq<(Seq<char>, TokenType)> {
    Seq::new(s.len(), |i: int| (s[i].0@, s[i].1))
}

/// The view of the scope stack, outermost first.
pub open spec fn scopes_view(s: Seq<Scope>) -> Seq<Seq<(Seq<char>, TokenType)>> {
    Seq::new(s.len(), |i: int| scope_view(s[i]@))
}

/// The views of a list of label strings.
pub open spec fn strings_view(s: Seq<String>) -> Seq<Seq<char>> {
    Seq::new(s.len(), |i: int| s[i]@)
}

/// Nearest-enclosing-scope lookup: the innermost scope that contains the
/// name decides, outer scopes are consulted only when inner ones miss.
pub open spec fn stack_find(
    scopes: Seq<Seq<(Seq<char>, TokenType)>>,
    name: Seq<char>,
) -> Option<TokenType>
    decreases scopes.len(),
{
    if scopes.len() == 0 {
        None
    } else {
        match find_assoc(scopes.last(), name) {
            Some(t) => Some(t),
            None => stack_find(scopes.drop_last(), name),
        }
    }
}

/// Whether a label list contains a label.
pub open spec fn contains_name(l: Seq<Seq<char>>, k: Seq<char>) -> bool {
    exists|i: int| 0 <= i < l.len() && l[i] == k
}

/// The filtered terminal collection: walking the children in order, a
/// child whose label is in the block-list is skipped entirely, one whose
/// label is in the allow-list is descended into, and any other child
/// contributes its own token.
pub open spec fn collect_terms(
    cs: Seq<NodeView>,
    inc: Seq<Seq<char>>,
    exc: Seq<Seq<char>>,
) -> Seq<TokenView>
    decreases cs,
{
    if cs.len() == 0 {
        Seq::empty()
    } else {
        (if contains_name(exc, cs[0].token.kind) {
            Seq::<TokenView>::empty()
        } else if contains_name(inc, cs[0].token.kind) {
            collect_terms(cs[0].children, inc, exc)
        } else {
            seq![cs[0].token]
        }) + collect_terms(cs.drop_first(), inc, exc)
    }
}

/// Allow-list used when reading an expression's terminals.
pub open spec fn exp_include() -> Seq<Seq<char>> {
    seq!["exp1-nt"@, "exp2-nt"@, "exp-nt"@]
}

/// Block-list used when reading an expression's terminals.
pub open spec fn exp_exclude() -> Seq<Seq<char>> {
    seq!["operator-nt"@, "EQUAL"@, "variable-nt"@]
}

/// Allow-list used when reading a declaration's or assignment's tokens.
pub open spec fn target_include() -> Seq<Seq<char>> {
    seq!["exp1-nt"@, "exp2-nt"@, "variable-nt"@]
}

/// Block-list used when reading a declaration's or assignment's tokens.
pub open spec fn target_exclude() -> Seq<Seq<char>> {
    seq!["operator-nt"@]
}

/// An error of the given kind at the position a token reports.
pub open spec fn error_at(kind: ErrorKindView, t: TokenView) -> ErrorView {
    ErrorView { kind: kind, line: t.line, start: t.start, end: t.end }
}

/// Whether all collected terminals share one token kind.
pub open spec fn all_same_kind(ts: Seq<TokenView>) -> bool {
    forall|i: int| 0 <= i < ts.len() ==> (#[trigger] ts[i].kind) == ts[0].kind
}

/// The type of an expression node: its terminal leaves (operators, equals
/// and variable wrappers excluded) must all share one kind, and that kind
/// must name a supported literal.
pub open spec fn infer_expression_type(n: NodeView) -> Result<TokenType, ErrorView> {
    let ts = collect_terms(n.children, exp_include(), exp_exclude());
    if ts.len() == 0 {
        Err(error_at(ErrorKindView::UnsupportedType, n.token))
    } else if !all_same_kind(ts) {
        Err(error_at(ErrorKindView::ExpressionTypeMismatch, n.token))
    } else if ts[0].kind == "NUMBER"@ {
        Ok(TokenType::Integer)
    } else if ts[0].kind == "STRING"@ {
        Ok(TokenType::String)
    } else {
        Err(error_at(ErrorKindView::UnsupportedType, ts.last()))
    }
}

/// What a declaration node does to the scope stack: the declared identifier
/// (the first collected terminal) must be absent from the innermost scope,
/// and the declared-type keyword (the last collected terminal) must be a
/// supported type; the identifier is then recorded in the innermost scope.
pub open spec fn declare_spec(
    n: NodeView,
    scopes: Seq<Seq<(Seq<char>, TokenType)>>,
) -> Result<Seq<Seq<(Seq<char>, TokenType)>>, ErrorView> {
    let ts = collect_terms(n.children, target_include(), target_exclude());
    if ts.len() == 0 {
        Err(error_at(ErrorKindView::UnsupportedType, n.token))
    } else {
        let v = ts[0];
        if find_assoc(scopes.last(), v.lexeme) is Some {
            Err(error_at(ErrorKindView::AlreadyDeclared { identifier: v.lexeme }, v))
        } else if ts.last().kind == "INTEGER_TYPE"@ {
            Ok(
                scopes.update(
                    scopes.len() - 1,
                    scopes.last().push((v.lexeme, TokenType::Integer)),
                ),
            )
        } else if ts.last().kind == "STRING_TYPE"@ {
            Ok(
                scopes.update(
                    scopes.len() - 1,
                    scopes.last().push((v.lexeme, TokenType::String)),
                ),
            )
        } else {
            Err(error_at(ErrorKindView::UnsupportedType, ts.last()))
        }
    }
}

/// What an assignment node requires of the scope stack: the target
/// identifier (the first collected terminal) must be declared in some open
/// scope, and the expression's inferred type must equal the identifier's
/// declared type in the nearest enclosing scope that has it.
pub open spec fn assign_spec(
    n: NodeView,
    scopes: Seq<Seq<(Seq<char>, TokenType)>>,
) -> Result<(), ErrorView> {
    let ts = collect_terms(n.children, target_include(), target_exclude());
    if ts.len() == 0 {
        Err(error_at(ErrorKindView::UnsupportedType, n.token))
    } else {
        let v = ts[0];
        match stack_find(scopes, v.lexeme) {
            None => Err(error_at(ErrorKindView::NotDeclared { identifier: v.lexeme }, v)),
            Some(expected) => match infer_expression_type(n) {
                Err(e) => Err(e),
                Ok(found) => if expected != found {
                    Err(
                        error_at(
                            ErrorKindView::TypeMismatch {
                                identifier: v.lexeme,
                                expected: expected,
                                found: found,
                            },
                            v,
                        ),
                    )
                } else {
                    Ok(())
                },
            },
        }
    }
}

/// The walk over one node: how it transforms the scope stack, or the first
/// violation underneath it.
pub open spec fn traverse_spec(
    n: NodeView,
    scopes: Seq<Seq<(Seq<char>, TokenType)>>,
) -> Result<Seq<Seq<(Seq<char>, TokenType)>>, ErrorView>
    decreases n,
{
    if n.token.kind == "assign-nt"@ {
        match assign_spec(n, scopes) {
            Ok(u) => Ok(scopes),
            Err(e) => Err(e),
        }
    } else if n.token.kind == "declare-nt"@ {
        declare_spec(n, scopes)
    } else if n.token.kind == "LEFT_CURLY_BRACE"@ {
        Ok(scopes.push(Seq::empty()))
    } else if n.token.kind == "RIGHT_CURLY_BRACE"@ {
        Ok(
            if scopes.len() > 1 {
                scopes.drop_last()
            } else {
                scopes
            },
        )
    } else if n.token.kind == "program-nt"@ || n.token.kind == "command-nt"@ || n.token.kind
        == "command-list-nt"@ {
        traverse_children(n.children, scopes)
    } else {
        Ok(scopes)
    }
}

/// The walk over a node sequence, threading the scope stack left to right.
pub open spec fn traverse_children(
    cs: Seq<NodeView>,
    scopes: Seq<Seq<(Seq<char>, TokenType)>>,
) -> Result<Seq<Seq<(Seq<char>, TokenType)>>, ErrorView>
    decreases cs,
{
    if cs.len() == 0 {
        Ok(scopes)
    } else {
        match traverse_spec(cs[0], scopes) {
            Err(e) => Err(e),
            Ok(s2) => traverse_children(cs.drop_first(), s2),
        }
    }
}

/// What analyzing a forest yields: the walk starts with the single
/// implicit outermost scope.
pub open spec fn analyze_spec(forest: Seq<NodeView>) -> Result<(), ErrorView> {
    match traverse_children(forest, seq![Seq::<(Seq<char>, TokenType)>::empty()]) {
        Ok(s) => Ok(()),
        Err(e) => Err(e),
    }
}

fn contains_string(l: &Vec<String>, k: &String) -> (b: bool)
    ensures
        b == contains_name(strings_view(l@), k@),
{
    let mut i: usize = 0;
    while i < l.len()
        invariant
            i <= l@.len(),
            forall|j: int| 0 <= j < i ==> l@[j]@ != k@,
        decreases l@.len() - i,
    {
        if l[i] == *k {
            assert(strings_view(l@)[i as int] == k@);
            return true;
        }
        i = i + 1;
    }
    assert(forall|j: int| 0 <= j < l@.len() ==> strings_view(l@)[j] != k@);
    false
}

fn scope_lookup(scope: &Scope, name: &String) -> (r: Option<TokenType>)
    ensures
        r == find_assoc(scope_view(scope@), name@),
{
    let mut i: usize = 0;
    assert(scope_view(scope@).skip(0) =~= scope_view(scope@));
    while i < scope.len()
        invariant
            i <= scope@.len(),
            find_assoc(scope_view(scope@), name@) == find_assoc(
                scope_view(scope@).skip(i as int),
                name@,
            ),
        decreases scope@.len() - i,
    {
        let p = &scope[i];
        assert(scope_view(scope@).skip(i as int)[0] == (p.0@, p.1));
        if p.0 == *name {
            return Some(p.1);
        }
        assert(scope_view(scope@).skip(i as int).drop_first() =~= scope_view(scope@).skip(i + 1));
        i = i + 1;
    }
    assert(scope_view(scope@).skip(i as int) =~= Seq::<(Seq<char>, TokenType)>::empty());
    None
}

fn stack_lookup(scopes: &Vec<Scope>, name: &String) -> (r: Option<TokenType>)
    ensures
        r == stack_find(scopes_view(scopes@), name@),
{
    let mut j: usize = scopes.len();
    assert(scopes_view(scopes@).take(j as int) =~= scopes_view(scopes@));
    while j > 0
        invariant
            j <= scopes@.len(),
            stack_find(scopes_view(scopes@), name@) == stack_find(
                scopes_view(scopes@).take(j as int),
                name@,
            ),
        decreases j,
    {
        j = j - 1;
        assert(scopes_view(scopes@).take(j + 1).last() == scope_view(scopes@[j as int]@));
        match scope_lookup(&scopes[j], name) {
            Some(t) => {
                return Some(t);
            },
            None => {
                assert(scopes_view(scopes@).take(j + 1).drop_last() =~= scopes_view(
                    scopes@,
                ).take(j as int));
            },
        }
    }
    assert(scopes_view(scopes@).take(0) =~= Seq::<Seq<(Seq<char>, TokenType)>>::empty());
    None
}

/// Collects, in order, the terminal tokens reachable from `node`'s
/// children: a child labeled by an `exclude_terms` entry is skipped, one
/// labeled by an `include_terms` entry is descended into, and any other
/// child contributes its token. The collected tokens are appended to
/// `terminal_tokens`.
#[verifier::loop_isolation(false)]
pub fn find_terminal_nodes_with_terms(
    node: &SyntaxTreeNode,
    terminal_tokens: &mut Vec<Token>,
    include_terms: &Vec<String>,
    exclude_terms: &Vec<String>,
)
    ensures
        tokens_view(final(terminal_tokens)@) == tokens_view(old(terminal_tokens)@) + collect_terms(
            node@.children,
            strings_view(include_terms@),
            strings_view(exclude_terms@),
        ),
    decreases *node,
{
    let ghost inc = strings_view(include_terms@);
    let ghost exc = strings_view(exclude_terms@);
    let ghost cs = node@.children;
    let ghost goal = tokens_view(old(terminal_tokens)@) + collect_terms(cs, inc, exc);
    proof {
        lemma_forest_view_index(node.children@);
        assert(cs.skip(0) =~= cs);
    }
    let mut j: usize = 0;
    while j < node.children.len()
        invariant
            j <= node.children@.len(),
            cs == node@.children,
            cs.len() == node.children@.len(),
            forall|k: int| 0 <= k < cs.len() ==> cs[k] == node_view(node.children@[k]),
            goal == tokens_view(terminal_tokens@) + collect_terms(cs.skip(j as int), inc, exc),
        decreases node.children@.len() - j,
    {
        let child = &node.children[j];
        assert(cs.skip(j as int)[0] == node_view(*child));
        assert(cs.skip(j as int).drop_first() =~= cs.skip(j + 1));
        if contains_string(exclude_terms, &child.token.value) {
            proof {
                assert(collect_terms(cs.skip(j as int), inc, exc) == Seq::<TokenView>::empty()
                    + collect_terms(cs.skip(j + 1), inc, exc));
                assert(Seq::<TokenView>::empty() + collect_terms(cs.skip(j + 1), inc, exc)
                    =~= collect_terms(cs.skip(j + 1), inc, exc));
            }
        } else if contains_string(include_terms, &child.token.value) {
            let ghost before = tokens_view(terminal_tokens@);
            find_terminal_nodes_with_terms(child, terminal_tokens, include_terms, exclude_terms);
            proof {
                assert(collect_terms(cs.skip(j as int), inc, exc) == collect_terms(
                    node_view(*child).children,
                    inc,
                    exc,
                ) + collect_terms(cs.skip(j + 1), inc, exc));
                assert(before + (collect_terms(node_view(*child).children, inc, exc)
                    + collect_terms(cs.skip(j + 1), inc, exc)) =~= (before + collect_terms(
                    node_view(*child).children,
                    inc,
                    exc,
                )) + collect_terms(cs.skip(j + 1), inc, exc));
            }
        } else {
            let ghost before = tokens_view(terminal_tokens@);
            terminal_tokens.push(child.token.duplicate());
            proof {
                assert(collect_terms(cs.skip(j as int), inc, exc) == seq![node_view(*child).token]
                    + collect_terms(cs.skip(j + 1), inc, exc));
                assert(tokens_view(terminal_tokens@) =~= before.push(node_view(*child).token));
                assert(before + (seq![node_view(*child).token] + collect_terms(
                    cs.skip(j + 1),
                    inc,
                    exc,
                )) =~= before.push(node_view(*child).token) + collect_terms(
                    cs.skip(j + 1),
                    inc,
                    exc,
                ));
            }
        }
        j = j + 1;
    }
    proof {
        assert(cs.skip(cs.len() as int) =~= Seq::<NodeView>::empty());
        assert(tokens_view(terminal_tokens@) + Seq::<TokenView>::empty() =~= tokens_view(
            terminal_tokens@,
        ));
    }
}

fn exp_include_terms() -> (v: Vec<String>)
    ensures
        strings_view(v@) == exp_include(),
{
    let mut v: Vec<String> = Vec::new();
    v.push("exp1-nt".to_owned());
    v.push("exp2-nt".to_owned());
    v.push("exp-nt".to_owned());
    assert(strings_view(v@) =~= exp_include());
    v
}

fn exp_exclude_terms() -> (v: Vec<String>)
    ensures
        strings_view(v@) == exp_exclude(),
{
    let mut v: Vec<String> = Vec::new();
    v.push("operator-nt".to_owned());
    v.push("EQUAL".to_owned());
    v.push("variable-nt".to_owned());
    assert(strings_view(v@) =~= exp_exclude());
    v
}

fn target_include_terms() -> (v: Vec<String>)
    ensures
        strings_view(v@) == target_include(),
{
    let mut v: Vec<String> = Vec::new();
    v.push("exp1-nt".to_owned());
    v.push("exp2-nt".to_owned());
    v.push("variable-nt".to_owned());
    assert(strings_view(v@) =~= target_include());
    v
}

fn target_exclude_terms() -> (v: Vec<String>)
    ensures
        strings_view(v@) == target_exclude(),
{
    let mut v: Vec<String> = Vec::new();
    v.push("operator-nt".to_owned());
    assert(strings_view(v@) =~= target_exclude());
    v
}

fn error_from(kind: SemanticErrorKind, t: &Token) -> (e: SemanticError)
    ensures
        e@ == error_at(kind@, t@),
{
    SemanticError {
        kind: kind,
        line: t.line,
        initial_position: t.initial_position,
        final_position: t.final_position,
    }
}

/// Checks that all terminal leaves of an expression node share one token
/// kind and maps that kind to a type: `NUMBER` to Integer, `STRING` to
/// String.
#[verifier::loop_isolation(false)]
pub fn check_types_exp(exp_node: &SyntaxTreeNode) -> (r: Result<TokenType, SemanticError>)
    ensures
        match r {
            Ok(t) => infer_expression_type(exp_node@) == Result::<TokenType, ErrorView>::Ok(t),
            Err(e) => infer_expression_type(exp_node@) == Result::<TokenType, ErrorView>::Err(e@),
        },
{
    let include_terms = exp_include_terms();
    let exclude_terms = exp_exclude_terms();
    let mut terminal_tokens: Vec<Token> = Vec::new();
    proof {
        assert(tokens_view(Seq::<Token>::empty()) =~= Seq::<TokenView>::empty());
    }
    find_terminal_nodes_with_terms(exp_node, &mut terminal_tokens, &include_terms, &exclude_terms);
    let ghost ts = collect_terms(exp_node@.children, exp_include(), exp_exclude());
    proof {
        assert(Seq::<TokenView>::empty() + ts =~= ts);
        assert(tokens_view(terminal_tokens@) == ts);
    }
    if terminal_tokens.len() == 0 {
        return Err(error_from(SemanticErrorKind::UnsupportedType, &exp_node.token));
    }
    let first = &terminal_tokens[0];
    let mut i: usize = 1;
    while i < terminal_tokens.len()
        invariant
            1 <= i,
            i <= terminal_tokens@.len(),
            terminal_tokens@.len() == ts.len(),
            ts.len() > 0,
            tokens_view(terminal_tokens@) == ts,
            first@ == terminal_tokens@[0]@,
            forall|k: int| 0 <= k < i ==> (#[trigger] ts[k].kind) == ts[0].kind,
        decreases terminal_tokens@.len() - i,
    {
        if !(terminal_tokens[i].value == first.value) {
            assert(ts[i as int].kind != ts[0].kind);
            assert(!all_same_kind(ts));
            return Err(error_from(SemanticErrorKind::ExpressionTypeMismatch, &exp_node.token));
        }
        i = i + 1;
    }
    assert(all_same_kind(ts));
    let number_kind = "NUMBER".to_owned();
    let string_kind = "STRING".to_owned();
    if first.value == number_kind {
        Ok(TokenType::Integer)
    } else if first.value == string_kind {
        Ok(TokenType::String)
    } else {
        let last = &terminal_tokens[terminal_tokens.len() - 1];
        assert(last@ == ts.last());
        Err(error_from(SemanticErrorKind::UnsupportedType, last))
    }
}

/// Processes a declaration node: reads the declared identifier and its
/// type keyword, rejects a redeclaration in the innermost scope, and
/// records the identifier there.
pub fn parse_declare(node: &SyntaxTreeNode, scopes: &mut Vec<Scope>) -> (r: Result<
    (),
    SemanticError,
>)
    requires
        old(scopes)@.len() >= 1,
    ensures
        match r {
            Ok(u) => declare_spec(node@, scopes_view(old(scopes)@)) == Result::<
                Seq<Seq<(Seq<char>, TokenType)>>,
                ErrorView,
            >::Ok(scopes_view(final(scopes)@)),
            Err(e) => declare_spec(node@, scopes_view(old(scopes)@)) == Result::<
                Seq<Seq<(Seq<char>, TokenType)>>,
                ErrorView,
            >::Err(e@) && final(scopes)@ == old(scopes)@,
        },
        final(scopes)@.len() == old(scopes)@.len(),
{
    let include_terms = target_include_terms();
    let exclude_terms = target_exclude_terms();
    let mut terminal_tokens: Vec<Token> = Vec::new();
    proof {
        assert(tokens_view(Seq::<Token>::empty()) =~= Seq::<TokenView>::empty());
    }
    find_terminal_nodes_with_terms(node, &mut terminal_tokens, &include_terms, &exclude_terms);
    let ghost ts = collect_terms(node@.children, target_include(), target_exclude());
    proof {
        assert(Seq::<TokenView>::empty() + ts =~= ts);
        assert(tokens_view(terminal_tokens@) == ts);
    }
    if terminal_tokens.len() == 0 {
        return Err(error_from(SemanticErrorKind::UnsupportedType, &node.token));
    }
    let ghost old_scopes = scopes_view(scopes@);
    assert(old_scopes.last() == scope_view(scopes@.last()@));
    let top_index = scopes.len() - 1;
    let declared = scope_lookup(&scopes[top_index], &terminal_tokens[0].lexeme);
    if declared.is_some() {
        let v = &terminal_tokens[0];
        return Err(
            error_from(
                SemanticErrorKind::AlreadyDeclared { identifier: v.lexeme.clone() },
                v,
            ),
        );
    }
    let last_index = terminal_tokens.len() - 1;
    let integer_kind = "INTEGER_TYPE".to_owned();
    let string_kind = "STRING_TYPE".to_owned();
    let ty: TokenType;
    if terminal_tokens[last_index].value == integer_kind {
        ty = TokenType::Integer;
    } else if terminal_tokens[last_index].value == string_kind {
        ty = TokenType::String;
    } else {
        assert(terminal_tokens@[last_index as int]@ == ts.last());
        return Err(error_from(SemanticErrorKind::UnsupportedType, &terminal_tokens[last_index]));
    }
    let name = terminal_tokens[0].lexeme.clone();
    let mut top = match scopes.pop() {
        Some(s) => s,
        None => {
            return Err(error_from(SemanticErrorKind::UnsupportedType, &node.token));
        },
    };
    top.push((name, ty));
    scopes.push(top);
    proof {
        assert(scope_view(scopes@.last()@) =~= old_scopes.last().push(
            (ts[0].lexeme, ty),
        ));
        assert(scopes_view(scopes@) =~= old_scopes.update(
            old_scopes.len() - 1,
            old_scopes.last().push((ts[0].lexeme, ty)),
        ));
    }
    Ok(())
}

/// Processes an assignment node: the target identifier must be declared in
/// some open scope, and the expression's type must match its declared type
/// in the nearest enclosing scope that has it.
pub fn parse_assign(node: &SyntaxTreeNode, scopes: &Vec<Scope>) -> (r: Result<(), SemanticError>)
    ensures
        match r {
            Ok(u) => assign_spec(node@, scopes_view(scopes@)) == Result::<(), ErrorView>::Ok(()),
            Err(e) => assign_spec(node@, scopes_view(scopes@)) == Result::<(), ErrorView>::Err(e@),
        },
{
    let include_terms = target_include_terms();
    let exclude_terms = target_exclude_terms();
    let mut terminal_tokens: Vec<Token> = Vec::new();
    proof {
        assert(tokens_view(Seq::<Token>::empty()) =~= Seq::<TokenView>::empty());
    }
    find_terminal_nodes_with_terms(node, &mut terminal_tokens, &include_terms, &exclude_terms);
    let ghost ts = collect_terms(node@.children, target_include(), target_exclude());
    proof {
        assert(Seq::<TokenView>::empty() + ts =~= ts);
        assert(tokens_view(terminal_tokens@) == ts);
    }
    if terminal_tokens.len() == 0 {
        return Err(error_from(SemanticErrorKind::UnsupportedType, &node.token));
    }
    let v = &terminal_tokens[0];
    let expected = match stack_lookup(scopes, &v.lexeme) {
        None => {
            return Err(
                error_from(
                    SemanticErrorKind::NotDeclared { identifier: v.lexeme.clone() },
                    v,
                ),
            );
        },
        Some(t) => t,
    };
    let found = match check_types_exp(node) {
        Err(e) => {
            return Err(e);
        },
        Ok(t) => t,
    };
    if expected != found {
        return Err(
            error_from(
                SemanticErrorKind::TypeMismatch {
                    identifier: v.lexeme.clone(),
                    expected: expected,
                    found: found,
                },
                v,
            ),
        );
    }
    Ok(())
}

/// Walks one node: assignments and declarations are checked, braces push
/// and pop scopes (the outermost scope is never popped), wrapper
/// nonterminals recurse into their children, and any other node ends its
/// subtree.
#[verifier::loop_isolation(false)]
pub fn traverse(node: &SyntaxTreeNode, scopes: &mut Vec<Scope>) -> (r: Result<(), SemanticError>)
    requires
        old(scopes)@.len() >= 1,
    ensures
        match r {
            Ok(u) => traverse_spec(node@, scopes_view(old(scopes)@)) == Result::<
                Seq<Seq<(Seq<char>, TokenType)>>,
                ErrorView,
            >::Ok(scopes_view(final(scopes)@)) && final(scopes)@.len() >= 1,
            Err(e) => traverse_spec(node@, scopes_view(old(scopes)@)) == Result::<
                Seq<Seq<(Seq<char>, TokenType)>>,
                ErrorView,
            >::Err(e@),
        },
    decreases *node,
{
    let kind = &node.token.value;
    if *kind == "assign-nt".to_owned() {
        match parse_assign(node, scopes) {
            Ok(u) => Ok(()),
            Err(e) => Err(e),
        }
    } else if *kind == "declare-nt".to_owned() {
        parse_declare(node, scopes)
    } else if *kind == "LEFT_CURLY_BRACE".to_owned() {
        let ghost old_scopes = scopes_view(scopes@);
        scopes.push(Vec::new());
        proof {
            assert(scope_view(Seq::<(String, TokenType)>::empty()) =~= Seq::<
                (Seq<char>, TokenType),
            >::empty());
            assert(scopes_view(scopes@) =~= old_scopes.push(Seq::empty()));
        }
        Ok(())
    } else if *kind == "RIGHT_CURLY_BRACE".to_owned() {
        let ghost old_scopes = scopes_view(scopes@);
        if scopes.len() > 1 {
            scopes.pop();
            proof {
                assert(scopes_view(scopes@) =~= old_scopes.drop_last());
            }
        }
        Ok(())
    } else if *kind == "program-nt".to_owned() || *kind == "command-nt".to_owned() || *kind
        == "command-list-nt".to_owned() {
        let ghost cs = node@.children;
        let ghost scopes0 = scopes_view(scopes@);
        proof {
            lemma_forest_view_index(node.children@);
            assert(cs.skip(0) =~= cs);
        }
        let mut j: usize = 0;
        while j < node.children.len()
            invariant
                j <= node.children@.len(),
                scopes@.len() >= 1,
                cs == node@.children,
                cs.len() == node.children@.len(),
                forall|k: int| 0 <= k < cs.len() ==> cs[k] == node_view(node.children@[k]),
                traverse_children(cs, scopes0) == traverse_children(
                    cs.skip(j as int),
                    scopes_view(scopes@),
                ),
            decreases node.children@.len() - j,
        {
            let child = &node.children[j];
            let ghost cur = scopes_view(scopes@);
            assert(cs.skip(j as int)[0] == node_view(*child));
            assert(cs.skip(j as int).drop_first() =~= cs.skip(j + 1));
            match traverse(child, scopes) {
                Ok(u) => {
                    proof {
                        assert(traverse_children(cs.skip(j as int), cur) == traverse_children(
                            cs.skip(j + 1),
                            scopes_view(scopes@),
                        ));
                    }
                },
                Err(e) => {
                    proof {
                        assert(traverse_children(cs.skip(j as int), cur) == Result::<
                            Seq<Seq<(Seq<char>, TokenType)>>,
                            ErrorView,
                        >::Err(e@));
                    }
                    return Err(e);
                },
            }
            j = j + 1;
        }
        proof {
            assert(cs.skip(cs.len() as int) =~= Seq::<NodeView>::empty());
        }
        Ok(())
    } else {
        Ok(())
    }
}

/// Analyzes a parsed forest: walks every root with a scope stack holding
/// the single implicit outermost scope, and reports the first violation,
/// if any.
#[verifier::loop_isolation(false)]
pub fn semantic_analysis(syntax_tree: &Vec<SyntaxTreeNode>) -> (r: Result<(), SemanticError>)
    ensures
        match r {
            Ok(u) => analyze_spec(forest_view(syntax_tree@)) == Result::<(), ErrorView>::Ok(()),
            Err(e) => analyze_spec(forest_view(syntax_tree@)) == Result::<(), ErrorView>::Err(e@),
        },
{
    let mut scopes: Vec<Scope> = Vec::new();
    scopes.push(Vec::new());
    let ghost forest = forest_view(syntax_tree@);
    let ghost scopes0 = scopes_view(scopes@);
    proof {
        lemma_forest_view_index(syntax_tree@);
        assert(scope_view(Seq::<(String, TokenType)>::empty()) =~= Seq::<
            (Seq<char>, TokenType),
        >::empty());
        assert(scopes0 =~= seq![Seq::<(Seq<char>, TokenType)>::empty()]);
        assert(forest.skip(0) =~= forest);
    }
    let mut j: usize = 0;
    while j < syntax_tree.len()
        invariant
            j <= syntax_tree@.len(),
            scopes@.len() >= 1,
            forest == forest_view(syntax_tree@),
            forest.len() == syntax_tree@.len(),
            forall|k: int| 0 <= k < forest.len() ==> forest[k] == node_view(syntax_tree@[k]),
            traverse_children(forest, scopes0) == traverse_children(
                forest.skip(j as int),
                scopes_view(scopes@),
            ),
        decreases syntax_tree@.len() - j,
    {
        let root = &syntax_tree[j];
        let ghost cur = scopes_view(scopes@);
        assert(forest.skip(j as int)[0] == node_view(*root));
        assert(forest.skip(j as int).drop_first() =~= forest.skip(j + 1));
        match traverse(root, &mut scopes) {
            Ok(u) => {
                proof {
                    assert(traverse_children(forest.skip(j as int), cur) == traverse_children(
                        forest.skip(j + 1),
                        scopes_view(scopes@),
                    ));
                }
            },
            Err(e) => {
                proof {
                    assert(traverse_children(forest.skip(j as int), cur) == Result::<
                        Seq<Seq<(Seq<char>, TokenType)>>,
                        ErrorView,
                    >::Err(e@));
                }
                return Err(e);
            },
        }
        j = j + 1;
    }
    proof {
        assert(forest.skip(forest.len() as int) =~= Seq::<NodeView>::empty());
    }
    Ok(())
}

} // verus!
