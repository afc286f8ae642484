use compiler_front::parser::syntax_parse;
use compiler_front::table::{
    load_table, parse_action_string, Action, ParsingTable, RawState, TableError,
};
use compiler_front::tree::SyntaxTreeNode;
use compiler_front::Token;

fn tok(kind: &str) -> Token {
    let lexeme = match kind {
        "LEFT_PARENTHESIS" => "(",
        "RIGHT_PARENTHESIS" => ")",
        _ => kind,
    };
    Token::new(kind, lexeme, 0, 0, 0)
}

fn pairs(entries: &[(&str, &str)]) -> Vec<(String, String)> {
    entries.iter().map(|(k, v)| (k.to_string(), v.to_string())).collect()
}

/// The table of the grammar whose sentences are well-nested parentheses:
/// a nesting is either empty or one nesting between `(` and `)`.
fn paren_table() -> ParsingTable {
    let rows = vec![
        RawState {
            state: "0".to_string(),
            actions: pairs(&[("LEFT_PARENTHESIS", "S 2"), ("$", "R 0 S")]),
            gotos: vec![("S".to_string(), pairs(&[("ANY", "1")]))],
        },
        RawState {
            state: "1".to_string(),
            actions: pairs(&[("$", "ACC")]),
            gotos: vec![],
        },
        RawState {
            state: "2".to_string(),
            actions: pairs(&[("LEFT_PARENTHESIS", "S 2"), ("RIGHT_PARENTHESIS", "R 0 S")]),
            gotos: vec![("S".to_string(), pairs(&[("ANY", "3")]))],
        },
        RawState {
            state: "3".to_string(),
            actions: pairs(&[("RIGHT_PARENTHESIS", "S 4")]),
            gotos: vec![],
        },
        RawState {
            state: "4".to_string(),
            actions: pairs(&[("ANY", "R 3 S")]),
            gotos: vec![],
        },
    ];
    load_table(&rows).expect("the table loads")
}

fn paren_tokens(n: usize) -> Vec<Token> {
    let mut tokens = Vec::new();
    for _ in 0..n {
        tokens.push(tok("LEFT_PARENTHESIS"));
    }
    for _ in 0..n {
        tokens.push(tok("RIGHT_PARENTHESIS"));
    }
    tokens.push(tok("$"));
    tokens
}

fn nesting_depth(node: &SyntaxTreeNode) -> usize {
    assert_eq!(node.token.value, "S");
    if node.children.is_empty() {
        0
    } else {
        assert_eq!(node.children.len(), 3);
        assert_eq!(node.children[0].token.value, "LEFT_PARENTHESIS");
        assert_eq!(node.children[2].token.value, "RIGHT_PARENTHESIS");
        1 + nesting_depth(&node.children[1])
    }
}

#[test]
fn accepts_the_empty_nesting() {
    let table = paren_table();
    let (accepted, forest) = syntax_parse(&paren_tokens(0), &table);
    assert!(accepted);
    let forest = forest.expect("a forest on acceptance");
    assert_eq!(forest.len(), 1);
    assert_eq!(nesting_depth(&forest[0]), 0);
}

#[test]
fn accepts_matched_parentheses_with_the_right_depth() {
    let table = paren_table();
    for n in 1..6usize {
        let (accepted, forest) = syntax_parse(&paren_tokens(n), &table);
        assert!(accepted);
        let forest = forest.expect("a forest on acceptance");
        assert_eq!(forest.len(), 1);
        assert_eq!(nesting_depth(&forest[0]), n);
    }
}

#[test]
fn rejects_unmatched_parentheses() {
    let table = paren_table();
    let cases: Vec<Vec<&str>> = vec![
        vec!["LEFT_PARENTHESIS", "$"],
        vec!["RIGHT_PARENTHESIS", "$"],
        vec!["LEFT_PARENTHESIS", "RIGHT_PARENTHESIS", "RIGHT_PARENTHESIS", "$"],
        vec!["LEFT_PARENTHESIS", "RIGHT_PARENTHESIS", "LEFT_PARENTHESIS", "$"],
        vec![
            "LEFT_PARENTHESIS",
            "LEFT_PARENTHESIS",
            "RIGHT_PARENTHESIS",
            "LEFT_PARENTHESIS",
            "RIGHT_PARENTHESIS",
            "RIGHT_PARENTHESIS",
            "$",
        ],
    ];
    for kinds in cases {
        let tokens: Vec<Token> = kinds.iter().map(|k| tok(k)).collect();
        let (accepted, forest) = syntax_parse(&tokens, &table);
        assert!(!accepted);
        assert!(forest.is_none());
    }
}

#[test]
fn rejects_input_without_the_sentinel() {
    let table = paren_table();
    let tokens = vec![tok("LEFT_PARENTHESIS"), tok("RIGHT_PARENTHESIS")];
    let (accepted, forest) = syntax_parse(&tokens, &table);
    assert!(!accepted);
    assert!(forest.is_none());
}

#[test]
fn rejects_unknown_tokens() {
    let table = paren_table();
    let tokens = vec![tok("NUMBER"), tok("$")];
    let (accepted, forest) = syntax_parse(&tokens, &table);
    assert!(!accepted);
    assert!(forest.is_none());
}

#[test]
fn shift_leaves_carry_the_shifted_tokens() {
    let table = paren_table();
    let mut tokens = Vec::new();
    tokens.push(Token::new("LEFT_PARENTHESIS", "(", 0, 0, 0));
    tokens.push(Token::new("RIGHT_PARENTHESIS", ")", 0, 0, 0));
    tokens.push(tok("$"));
    let (accepted, forest) = syntax_parse(&tokens, &table);
    assert!(accepted);
    let forest = forest.expect("a forest on acceptance");
    let root = &forest[0];
    assert_eq!(root.token.lexeme, "");
    assert_eq!(root.children[0].token.lexeme, "(");
    assert_eq!(root.children[2].token.lexeme, ")");
}

#[test]
fn parses_action_strings() {
    assert_eq!(parse_action_string("ACC"), Some(Action::Accept));
    assert_eq!(parse_action_string("S 5"), Some(Action::Shift(5)));
    assert_eq!(
        parse_action_string("R 2 exp-nt"),
        Some(Action::Reduce(2, "exp-nt".to_string()))
    );
    assert_eq!(parse_action_string("R 0 S"), Some(Action::Reduce(0, "S".to_string())));
    assert_eq!(parse_action_string(""), None);
    assert_eq!(parse_action_string("S"), None);
    assert_eq!(parse_action_string("S x"), None);
    assert_eq!(parse_action_string("R 2"), None);
    assert_eq!(parse_action_string("R 2 "), None);
    assert_eq!(parse_action_string("R 2 exp extra"), None);
    assert_eq!(parse_action_string("X 1"), None);
    assert_eq!(parse_action_string("ACCEPT"), None);
}

#[test]
fn load_rejects_malformed_cells() {
    let bad_action = vec![RawState {
        state: "0".to_string(),
        actions: pairs(&[("$", "HOP")]),
        gotos: vec![],
    }];
    assert_eq!(load_table(&bad_action), Err(TableError::InvalidAction));

    let bad_state = vec![RawState {
        state: "zero".to_string(),
        actions: vec![],
        gotos: vec![],
    }];
    assert_eq!(load_table(&bad_state), Err(TableError::InvalidStateId));

    let bad_goto = vec![RawState {
        state: "0".to_string(),
        actions: pairs(&[("$", "ACC")]),
        gotos: vec![("S".to_string(), pairs(&[("ANY", "one")]))],
    }];
    assert_eq!(load_table(&bad_goto), Err(TableError::InvalidGotoTarget));
}
