use compiler_front::semantic::{
    check_types_exp, find_terminal_nodes_with_terms, parse_assign, parse_declare,
    semantic_analysis, traverse, Scope, SemanticErrorKind, TokenType,
};
use compiler_front::tree::SyntaxTreeNode;
use compiler_front::Token;

fn leaf(kind: &str, lexeme: &str) -> SyntaxTreeNode {
    SyntaxTreeNode { token: Token::new(kind, lexeme, 0, 0, 0), children: vec![] }
}

fn node(kind: &str, children: Vec<SyntaxTreeNode>) -> SyntaxTreeNode {
    SyntaxTreeNode { token: Token::new(kind, "", 0, 0, 0), children }
}

/// `var x: Integer;` as the grammar shapes it: the declared variable behind
/// a wrapper, the type keyword as a bare terminal.
fn declare_node(name: &str, type_kind: &str) -> SyntaxTreeNode {
    node(
        "declare-nt",
        vec![node("variable-nt", vec![leaf("VARIABLE", name)]), leaf(type_kind, type_kind)],
    )
}

/// `x = <literal>;` with a single literal on the right-hand side.
fn assign_node(name: &str, literal_kind: &str, literal: &str) -> SyntaxTreeNode {
    node(
        "assign-nt",
        vec![
            node("variable-nt", vec![leaf("VARIABLE", name)]),
            leaf("EQUAL", "="),
            node("exp1-nt", vec![leaf(literal_kind, literal)]),
        ],
    )
}

#[test]
fn redeclaration_in_the_same_block_is_reported() {
    let tree = vec![node(
        "program-nt",
        vec![declare_node("x", "INTEGER_TYPE"), declare_node("x", "INTEGER_TYPE")],
    )];
    let err = semantic_analysis(&tree).expect_err("the second declaration clashes");
    assert_eq!(
        err.kind,
        SemanticErrorKind::AlreadyDeclared { identifier: "x".to_string() }
    );
}

#[test]
fn assignment_to_an_undeclared_variable_is_reported() {
    let tree = vec![node("program-nt", vec![assign_node("y", "NUMBER", "1")])];
    let err = semantic_analysis(&tree).expect_err("y was never declared");
    assert_eq!(err.kind, SemanticErrorKind::NotDeclared { identifier: "y".to_string() });
}

#[test]
fn assigning_a_string_to_an_integer_is_reported() {
    let tree = vec![node(
        "program-nt",
        vec![declare_node("x", "INTEGER_TYPE"), assign_node("x", "STRING", "hi")],
    )];
    let err = semantic_analysis(&tree).expect_err("the types disagree");
    assert_eq!(
        err.kind,
        SemanticErrorKind::TypeMismatch {
            identifier: "x".to_string(),
            expected: TokenType::Integer,
            found: TokenType::String,
        }
    );
}

#[test]
fn matching_assignment_passes() {
    let tree = vec![node(
        "program-nt",
        vec![
            declare_node("x", "INTEGER_TYPE"),
            assign_node("x", "NUMBER", "10"),
            declare_node("s", "STRING_TYPE"),
            assign_node("s", "STRING", "hi"),
        ],
    )];
    assert!(semantic_analysis(&tree).is_ok());
}

#[test]
fn inner_scopes_see_outer_declarations() {
    let tree = vec![node(
        "program-nt",
        vec![
            declare_node("x", "INTEGER_TYPE"),
            leaf("LEFT_CURLY_BRACE", "{"),
            assign_node("x", "NUMBER", "3"),
            leaf("RIGHT_CURLY_BRACE", "}"),
        ],
    )];
    assert!(semantic_analysis(&tree).is_ok());
}

#[test]
fn declarations_do_not_escape_their_block() {
    let tree = vec![node(
        "program-nt",
        vec![
            leaf("LEFT_CURLY_BRACE", "{"),
            declare_node("x", "INTEGER_TYPE"),
            leaf("RIGHT_CURLY_BRACE", "}"),
            assign_node("x", "NUMBER", "3"),
        ],
    )];
    let err = semantic_analysis(&tree).expect_err("x's block is closed");
    assert_eq!(err.kind, SemanticErrorKind::NotDeclared { identifier: "x".to_string() });
}

#[test]
fn shadowing_in_an_inner_block_is_allowed() {
    let tree = vec![node(
        "program-nt",
        vec![
            declare_node("x", "INTEGER_TYPE"),
            leaf("LEFT_CURLY_BRACE", "{"),
            declare_node("x", "STRING_TYPE"),
            assign_node("x", "STRING", "hi"),
            leaf("RIGHT_CURLY_BRACE", "}"),
            assign_node("x", "NUMBER", "1"),
        ],
    )];
    assert!(semantic_analysis(&tree).is_ok());
}

#[test]
fn scope_stack_returns_to_its_starting_depth() {
    let tree = node(
        "program-nt",
        vec![
            leaf("LEFT_CURLY_BRACE", "{"),
            node(
                "command-nt",
                vec![
                    leaf("LEFT_CURLY_BRACE", "{"),
                    declare_node("x", "INTEGER_TYPE"),
                    leaf("RIGHT_CURLY_BRACE", "}"),
                ],
            ),
            leaf("RIGHT_CURLY_BRACE", "}"),
        ],
    );
    let mut scopes: Vec<Scope> = vec![Vec::new()];
    assert!(traverse(&tree, &mut scopes).is_ok());
    assert_eq!(scopes.len(), 1);
}

#[test]
fn mixed_literal_kinds_in_one_expression_are_reported() {
    let assign = node(
        "assign-nt",
        vec![
            node("variable-nt", vec![leaf("VARIABLE", "x")]),
            leaf("EQUAL", "="),
            node(
                "exp1-nt",
                vec![
                    leaf("NUMBER", "1"),
                    node("operator-nt", vec![leaf("PLUS", "+")]),
                    leaf("STRING", "hi"),
                ],
            ),
        ],
    );
    let tree = vec![node("program-nt", vec![declare_node("x", "INTEGER_TYPE"), assign])];
    let err = semantic_analysis(&tree).expect_err("the literals disagree");
    assert_eq!(err.kind, SemanticErrorKind::ExpressionTypeMismatch);
}

#[test]
fn unknown_type_keyword_is_reported() {
    let tree = vec![node("program-nt", vec![declare_node("x", "FLOAT_TYPE")])];
    let err = semantic_analysis(&tree).expect_err("the type keyword is unknown");
    assert_eq!(err.kind, SemanticErrorKind::UnsupportedType);
}

#[test]
fn collection_descends_and_skips_by_label() {
    let tree = node(
        "declare-nt",
        vec![
            node("variable-nt", vec![leaf("VARIABLE", "x")]),
            node("operator-nt", vec![leaf("PLUS", "+")]),
            leaf("INTEGER_TYPE", "INTEGER_TYPE"),
        ],
    );
    let descend_labels =
        vec!["exp1-nt".to_string(), "exp2-nt".to_string(), "variable-nt".to_string()];
    let skip_labels = vec!["operator-nt".to_string()];
    let mut collected: Vec<Token> = Vec::new();
    find_terminal_nodes_with_terms(&tree, &mut collected, &descend_labels, &skip_labels);
    let kinds: Vec<&str> = collected.iter().map(|t| t.value.as_str()).collect();
    assert_eq!(kinds, vec!["VARIABLE", "INTEGER_TYPE"]);
}

#[test]
fn expression_type_inference_maps_kinds_to_types() {
    let number_exp = node(
        "assign-nt",
        vec![
            node("variable-nt", vec![leaf("VARIABLE", "x")]),
            leaf("EQUAL", "="),
            node("exp1-nt", vec![leaf("NUMBER", "4"), leaf("NUMBER", "2")]),
        ],
    );
    assert_eq!(check_types_exp(&number_exp), Ok(TokenType::Integer));
    let string_exp = node(
        "assign-nt",
        vec![
            node("variable-nt", vec![leaf("VARIABLE", "x")]),
            leaf("EQUAL", "="),
            node("exp1-nt", vec![leaf("STRING", "hi")]),
        ],
    );
    assert_eq!(check_types_exp(&string_exp), Ok(TokenType::String));
}

#[test]
fn declare_and_assign_operate_on_the_scope_stack() {
    let mut scopes: Vec<Scope> = vec![Vec::new()];
    parse_declare(&declare_node("x", "STRING_TYPE"), &mut scopes).expect("x is new");
    assert_eq!(scopes.len(), 1);
    assert_eq!(scopes[0], vec![("x".to_string(), TokenType::String)]);
    parse_assign(&assign_node("x", "STRING", "hi"), &scopes).expect("the types match");
    let err = parse_assign(&assign_node("x", "NUMBER", "1"), &scopes)
        .expect_err("a number is not a string");
    assert_eq!(
        err.kind,
        SemanticErrorKind::TypeMismatch {
            identifier: "x".to_string(),
            expected: TokenType::String,
            found: TokenType::Integer,
        }
    );
}
