use compiler_front::lexer::{tokenize_code, LexError};
use compiler_front::Token;

fn kinds_and_lexemes(tokens: &[Token]) -> Vec<(String, String)> {
    tokens.iter().map(|t| (t.value.clone(), t.lexeme.clone())).collect()
}

#[test]
fn lexes_while_program() {
    let source = "fn program(){while(x<=10){x=10;print(x);}}";
    let tokens = tokenize_code(source).expect("lexes cleanly");
    let expected: Vec<(&str, &str)> = vec![
        // Whitespace is stripped before scanning, so the space between
        // `fn` and `program` vanishes and maximal munch reads one
        // identifier.
        ("VARIABLE", "fnprogram"),
        ("LEFT_PARENTHESIS", "("),
        ("RIGHT_PARENTHESIS", ")"),
        ("LEFT_CURLY_BRACE", "{"),
        ("WHILE", "while"),
        ("LEFT_PARENTHESIS", "("),
        ("VARIABLE", "x"),
        ("LESS_THAN_OR_EQUAL", "<="),
        ("NUMBER", "10"),
        ("RIGHT_PARENTHESIS", ")"),
        ("LEFT_CURLY_BRACE", "{"),
        ("VARIABLE", "x"),
        ("EQUAL", "="),
        ("NUMBER", "10"),
        ("SEMICOLON", ";"),
        ("PRINT", "print"),
        ("LEFT_PARENTHESIS", "("),
        ("VARIABLE", "x"),
        ("RIGHT_PARENTHESIS", ")"),
        ("SEMICOLON", ";"),
        ("RIGHT_CURLY_BRACE", "}"),
        ("RIGHT_CURLY_BRACE", "}"),
        ("$", "$"),
    ];
    let actual = kinds_and_lexemes(&tokens);
    assert_eq!(actual.len(), expected.len());
    for (got, want) in actual.iter().zip(expected.iter()) {
        assert_eq!(got.0, want.0);
        assert_eq!(got.1, want.1);
    }
}

#[test]
fn tokenize_is_idempotent() {
    let source = "fn(){while(x<=10){x=10;print(x);}}";
    let first = tokenize_code(source).expect("lexes cleanly");
    let second = tokenize_code(source).expect("lexes cleanly");
    assert_eq!(first, second);
}

#[test]
fn keywords_next_to_punctuation() {
    let tokens = tokenize_code("if(for;while{print}main").expect("lexes cleanly");
    let kinds: Vec<&str> = tokens.iter().map(|t| t.value.as_str()).collect();
    assert_eq!(
        kinds,
        vec![
            "IF",
            "LEFT_PARENTHESIS",
            "FOR",
            "SEMICOLON",
            "WHILE",
            "LEFT_CURLY_BRACE",
            "PRINT",
            "RIGHT_CURLY_BRACE",
            "MAIN_PROGRAM",
            "$",
        ]
    );
}

#[test]
fn keyword_prefixes_fall_back_to_identifiers() {
    let tokens = tokenize_code("ifx;whiley;fo;printer;ma").expect("lexes cleanly");
    let words: Vec<(String, String)> = kinds_and_lexemes(&tokens);
    assert_eq!(words[0], ("VARIABLE".to_string(), "ifx".to_string()));
    assert_eq!(words[2], ("VARIABLE".to_string(), "whiley".to_string()));
    assert_eq!(words[4], ("VARIABLE".to_string(), "fo".to_string()));
    assert_eq!(words[6], ("VARIABLE".to_string(), "printer".to_string()));
    assert_eq!(words[8], ("VARIABLE".to_string(), "ma".to_string()));
}

#[test]
fn operators_use_maximal_munch() {
    let tokens = tokenize_code("a<=b>=c==d=e<f>g").expect("lexes cleanly");
    let kinds: Vec<&str> = tokens.iter().map(|t| t.value.as_str()).collect();
    assert_eq!(
        kinds,
        vec![
            "VARIABLE",
            "LESS_THAN_OR_EQUAL",
            "VARIABLE",
            "GREATER_THAN_OR_EQUAL",
            "VARIABLE",
            "EQUAL_EQUAL",
            "VARIABLE",
            "EQUAL",
            "VARIABLE",
            "LESS_THAN",
            "VARIABLE",
            "GREATER_THAN",
            "VARIABLE",
            "$",
        ]
    );
}

#[test]
fn number_then_letter_splits() {
    let tokens = tokenize_code("10x+3%4^2-1*5/6[]").expect("lexes cleanly");
    let kinds: Vec<&str> = tokens.iter().map(|t| t.value.as_str()).collect();
    assert_eq!(
        kinds,
        vec![
            "NUMBER",
            "VARIABLE",
            "PLUS",
            "NUMBER",
            "MODULUS",
            "NUMBER",
            "EXPONENT",
            "NUMBER",
            "SUBTRACT",
            "NUMBER",
            "MULTIPLY",
            "NUMBER",
            "DIVIDE",
            "NUMBER",
            "LEFT_SQUARE_BRACKET",
            "RIGHT_SQUARE_BRACKET",
            "$",
        ]
    );
}

#[test]
fn whitespace_is_stripped() {
    let tokens = tokenize_code("x  =\n\t10 ;\r").expect("lexes cleanly");
    let pairs = kinds_and_lexemes(&tokens);
    assert_eq!(
        pairs,
        vec![
            ("VARIABLE".to_string(), "x".to_string()),
            ("EQUAL".to_string(), "=".to_string()),
            ("NUMBER".to_string(), "10".to_string()),
            ("SEMICOLON".to_string(), ";".to_string()),
            ("$".to_string(), "$".to_string()),
        ]
    );
}

#[test]
fn empty_source_yields_only_the_sentinel() {
    let tokens = tokenize_code("").expect("lexes cleanly");
    assert_eq!(tokens, vec![Token::new("$", "$", 0, 0, 0)]);
}

#[test]
fn unrecognized_character_is_an_error() {
    assert_eq!(tokenize_code("@"), Err(LexError::UnrecognizedCharacter('@')));
    assert_eq!(tokenize_code("x = !"), Err(LexError::UnrecognizedCharacter('!')));
}

#[test]
fn tokens_report_no_positions() {
    let tokens = tokenize_code("while(x)").expect("lexes cleanly");
    for t in &tokens {
        assert_eq!(t.line, 0);
        assert_eq!(t.initial_position, 0);
        assert_eq!(t.final_position, 0);
    }
}
