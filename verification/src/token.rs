//! Tokens produced by the lexer and consumed by the parser.

use vstd::prelude::*;

verus! {

/// The mathematical content of a [`Token`]: the terminal-symbol name, the
/// matched text, and the source position the token reports.
pub ghost struct TokenView {
    pub kind: Seq<char>,
    pub lexeme: Seq<char>,
    pub line: int,
    pub start: int,
    pub end: int,
}

/// One lexical unit. `value` names the terminal symbol (for example
/// `"WHILE"` or `"VARIABLE"`), `lexeme` is the matched text, and the three
/// position fields report where the lexeme stood in the source.
///
/// This lexer variant strips whitespace before scanning and therefore does
/// not compute positions: every token it emits carries `line == 0`,
/// `initial_position == 0` and `final_position == 0`.
#[derive(Debug, PartialEq, Eq)]
pub struct Token {
    pub value: String,
    pub lexeme: String,
    pub line: i32,
    pub initial_position: i32,
    pub final_position: i32,
}

impl View for Token {
    type V = TokenView;

    open spec fn view(&self) -> TokenView {
        TokenView {
            kind: self.value@,
            lexeme: self.lexeme@,
            line: self.line as int,
            start: self.initial_position as int,
            end: self.final_position as int,
        }
    }
}

/// The views of a token sequence, in order.
pub open spec fn tokens_view(ts: Seq<Token>) -> Seq<TokenView> {
    Seq::new(ts.len(), |i: int| ts[i]@)
}

impl Token {
    /// Builds a token from its parts.
    pub fn new(value: &str, lexeme: &str, line: i32, initial_position: i32, final_position: i32) -> (t: Token)
        ensures
            t@ == (TokenView {
                kind: value@,
                lexeme: lexeme@,
                line: line as int,
                start: initial_position as int,
                end: final_position as int,
            }),
    {
        Token {
            value: value.to_owned(),
            lexeme: lexeme.to_owned(),
            line,
            initial_position,
            final_position,
        }
    }

    /// Copies the token; the copy has the same view as the original.
    pub fn duplicate(&self) -> (t: Token)
        ensures
            t@ == self@,
    {
        Token {
            value: self.value.clone(),
            lexeme: self.lexeme.clone(),
            line: self.line,
            initial_position: self.initial_position,
            final_position: self.final_position,
        }
    }
}

} // verus!
