//! The lexer: a finite-state automaton with maximal-munch matching.
//!
//! Whitespace is stripped from the source before scanning, so tokens carry no
//! position information (`line`, `initial_position` and `final_position` are
//! all zero). The automaton extends the current match as long as a transition
//! exists; when none applies, it emits a token named after the state it
//! stopped in and retries the same character from the start state. Keywords
//! are recognized by dedicated prefix chains of states that fall back to the
//! generic identifier state as soon as a mismatching word character appears.
//! A character with no transition from the start state is a lexical error.

use vstd::prelude::*;

use crate::strutil::{chars_to_string, str_to_chars};
use crate::token::{tokens_view, Token, TokenView};

verus! {

/// A state of the lexing automaton. Every state except `Start` doubles as a
/// terminal symbol: the name emitted when no further transition applies.
#[derive(Clone, Copy, Debug, PartialEq, Eq, Structural)]
pub enum LexState {
    /// Initial state, reentered after each emission.
    Start,
    /// Generic identifier.
    Ident,
    /// Integer literal.
    Num,
    /// Prefixes of the keyword `fn` (which shares its first letter with `for`).
    KwF,
    KwFn,
    KwFo,
    KwFor,
    /// Prefixes of the keyword `main`.
    KwM,
    KwMa,
    KwMai,
    KwMain,
    /// Prefixes of the keyword `if`.
    KwI,
    KwIf,
    /// Prefixes of the keyword `while`.
    KwW,
    KwWh,
    KwWhi,
    KwWhil,
    KwWhile,
    /// Prefixes of the keyword `print`.
    KwP,
    KwPr,
    KwPri,
    KwPrin,
    KwPrint,
    /// Operators and punctuation.
    OpLess,
    OpLessEq,
    OpGreater,
    OpGreaterEq,
    OpEq,
    OpEqEq,
    OpPlus,
    OpMinus,
    OpStar,
    OpSlash,
    OpPercent,
    OpCaret,
    OpSemi,
    OpLParen,
    OpRParen,
    OpLBracket,
    OpRBracket,
    OpLBrace,
    OpRBrace,
}

/// Letters, in the sense of the identifier grammar.
pub open spec fn is_letter(c: char) -> bool {
    ('a' as u32 <= c as u32 && c as u32 <= 'z' as u32) || ('A' as u32 <= c as u32 && c as u32
        <= 'Z' as u32)
}

/// Decimal digits.
pub open spec fn is_digit(c: char) -> bool {
    '0' as u32 <= c as u32 && c as u32 <= '9' as u32
}

/// Characters that may continue an identifier: letters, digits, underscore.
pub open spec fn is_word_char(c: char) -> bool {
    is_letter(c) || is_digit(c) || c == '_'
}

/// Whitespace stripped before scanning.
pub open spec fn is_space(c: char) -> bool {
    c == ' ' || c == '\n' || c == '\t' || c == '\r'
}

fn letter(c: char) -> (b: bool)
    ensures
        b == is_letter(c),
{
    let u = c as u32;
    ('a' as u32 <= u && u <= 'z' as u32) || ('A' as u32 <= u && u <= 'Z' as u32)
}

fn digit(c: char) -> (b: bool)
    ensures
        b == is_digit(c),
{
    let u = c as u32;
    '0' as u32 <= u && u <= '9' as u32
}

fn word_char(c: char) -> (b: bool)
    ensures
        b == is_word_char(c),
{
    letter(c) || digit(c) || c == '_'
}

fn space(c: char) -> (b: bool)
    ensures
        b == is_space(c),
{
    c == ' ' || c == '\n' || c == '\t' || c == '\r'
}

/// The transition function of the automaton: the next state on reading `c`
/// in state `st`, or `None` when no transition applies. Literal-character
/// transitions take precedence over the letter and digit classes.
pub open spec fn step(st: LexState, c: char) -> Option<LexState> {
    match st {
        LexState::Start => if c == 'f' {
            Some(LexState::KwF)
        } else if c == 'm' {
            Some(LexState::KwM)
        } else if c == 'i' {
            Some(LexState::KwI)
        } else if c == 'w' {
            Some(LexState::KwW)
        } else if c == 'p' {
            Some(LexState::KwP)
        } else if is_letter(c) || c == '_' {
            Some(LexState::Ident)
        } else if is_digit(c) {
            Some(LexState::Num)
        } else if c == '<' {
            Some(LexState::OpLess)
        } else if c == '>' {
            Some(LexState::OpGreater)
        } else if c == '=' {
            Some(LexState::OpEq)
        } else if c == '+' {
            Some(LexState::OpPlus)
        } else if c == '-' {
            Some(LexState::OpMinus)
        } else if c == '*' {
            Some(LexState::OpStar)
        } else if c == '/' {
            Some(LexState::OpSlash)
        } else if c == '%' {
            Some(LexState::OpPercent)
        } else if c == '^' {
            Some(LexState::OpCaret)
        } else if c == ';' {
            Some(LexState::OpSemi)
        } else if c == '(' {
            Some(LexState::OpLParen)
        } else if c == ')' {
            Some(LexState::OpRParen)
        } else if c == '[' {
            Some(LexState::OpLBracket)
        } else if c == ']' {
            Some(LexState::OpRBracket)
        } else if c == '{' {
            Some(LexState::OpLBrace)
        } else if c == '}' {
            Some(LexState::OpRBrace)
        } else {
            None
        },
        LexState::Ident => if is_word_char(c) {
            Some(LexState::Ident)
        } else {
            None
        },
        LexState::Num => if is_digit(c) {
            Some(LexState::Num)
        } else {
            None
        },
        LexState::KwF => if c == 'n' {
            Some(LexState::KwFn)
        } else if c == 'o' {
            Some(LexState::KwFo)
        } else if is_word_char(c) {
            Some(LexState::Ident)
        } else {
            None
        },
        LexState::KwFn => if is_word_char(c) {
            Some(LexState::Ident)
        } else {
            None
        },
        LexState::KwFo => if c == 'r' {
            Some(LexState::KwFor)
        } else if is_word_char(c) {
            Some(LexState::Ident)
        } else {
            None
        },
        LexState::KwFor => if is_word_char(c) {
            Some(LexState::Ident)
        } else {
            None
        },
        LexState::KwM => if c == 'a' {
            Some(LexState::KwMa)
        } else if is_word_char(c) {
            Some(LexState::Ident)
        } else {
            None
        },
        LexState::KwMa => if c == 'i' {
            Some(LexState::KwMai)
        } else if is_word_char(c) {
            Some(LexState::Ident)
        } else {
            None
        },
        LexState::KwMai => if c == 'n' {
            Some(LexState::KwMain)
        } else if is_word_char(c) {
            Some(LexState::Ident)
        } else {
            None
        },
        LexState::KwMain => if is_word_char(c) {
            Some(LexState::Ident)
        } else {
            None
        },
        LexState::KwI => if c == 'f' {
            Some(LexState::KwIf)
        } else if is_word_char(c) {
            Some(LexState::Ident)
        } else {
            None
        },
        LexState::KwIf => if is_word_char(c) {
            Some(LexState::Ident)
        } else {
            None
        },
        LexState::KwW => if c == 'h' {
            Some(LexState::KwWh)
        } else if is_word_char(c) {
            Some(LexState::Ident)
        } else {
            None
        },
        LexState::KwWh => if c == 'i' {
            Some(LexState::KwWhi)
        } else if is_word_char(c) {
            Some(LexState::Ident)
        } else {
            None
        },
        LexState::KwWhi => if c == 'l' {
            Some(LexState::KwWhil)
        } else if is_word_char(c) {
            Some(LexState::Ident)
        } else {
            None
        },
        LexState::KwWhil => if c == 'e' {
            Some(LexState::KwWhile)
        } else if is_word_char(c) {
            Some(LexState::Ident)
        } else {
            None
        },
        LexState::KwWhile => if is_word_char(c) {
            Some(LexState::Ident)
        } else {
            None
        },
        LexState::KwP => if c == 'r' {
            Some(LexState::KwPr)
        } else if is_word_char(c) {
            Some(LexState::Ident)
        } else {
            None
        },
        LexState::KwPr => if c == 'i' {
            Some(LexState::KwPri)
        } else if is_word_char(c) {
            Some(LexState::Ident)
        } else {
            None
        },
        LexState::KwPri => if c == 'n' {
            Some(LexState::KwPrin)
        } else if is_word_char(c) {
            Some(LexState::Ident)
        } else {
            None
        },
        LexState::KwPrin => if c == 't' {
            Some(LexState::KwPrint)
        } else if is_word_char(c) {
            Some(LexState::Ident)
        } else {
            None
        },
        LexState::KwPrint => if is_word_char(c) {
            Some(LexState::Ident)
        } else {
            None
        },
        LexState::OpLess => if c == '=' {
            Some(LexState::OpLessEq)
        } else {
            None
        },
        LexState::OpGreater => if c == '=' {
            Some(LexState::OpGreaterEq)
        } else {
            None
        },
        LexState::OpEq => if c == '=' {
            Some(LexState::OpEqEq)
        } else {
            None
        },
        _ => None,
    }
}

/// The terminal-symbol name a state emits when no further transition
/// applies. Incomplete keyword prefixes are ordinary identifiers. `Start`
/// emits nothing; its name is empty and never reaches a token.
pub open spec fn kind_of(st: LexState) -> Seq<char> {
    match st {
        LexState::Start => ""@,
        LexState::Ident => "VARIABLE"@,
        LexState::Num => "NUMBER"@,
        LexState::KwF => "VARIABLE"@,
        LexState::KwFn => "FN_PROGRAM"@,
        LexState::KwFo => "VARIABLE"@,
        LexState::KwFor => "FOR"@,
        LexState::KwM => "VARIABLE"@,
        LexState::KwMa => "VARIABLE"@,
        LexState::KwMai => "VARIABLE"@,
        LexState::KwMain => "MAIN_PROGRAM"@,
        LexState::KwI => "VARIABLE"@,
        LexState::KwIf => "IF"@,
        LexState::KwW => "VARIABLE"@,
        LexState::KwWh => "VARIABLE"@,
        LexState::KwWhi => "VARIABLE"@,
        LexState::KwWhil => "VARIABLE"@,
        LexState::KwWhile => "WHILE"@,
        LexState::KwP => "VARIABLE"@,
        LexState::KwPr => "VARIABLE"@,
        LexState::KwPri => "VARIABLE"@,
        LexState::KwPrin => "VARIABLE"@,
        LexState::KwPrint => "PRINT"@,
        LexState::OpLess => "LESS_THAN"@,
        LexState::OpLessEq => "LESS_THAN_OR_EQUAL"@,
        LexState::OpGreater => "GREATER_THAN"@,
        LexState::OpGreaterEq => "GREATER_THAN_OR_EQUAL"@,
        LexState::OpEq => "EQUAL"@,
        LexState::OpEqEq => "EQUAL_EQUAL"@,
        LexState::OpPlus => "PLUS"@,
        LexState::OpMinus => "SUBTRACT"@,
        LexState::OpStar => "MULTIPLY"@,
        LexState::OpSlash => "DIVIDE"@,
        LexState::OpPercent => "MODULUS"@,
        LexState::OpCaret => "EXPONENT"@,
        LexState::OpSemi => "SEMICOLON"@,
        LexState::OpLParen => "LEFT_PARENTHESIS"@,
        LexState::OpRParen => "RIGHT_PARENTHESIS"@,
        LexState::OpLBracket => "LEFT_SQUARE_BRACKET"@,
        LexState::OpRBracket => "RIGHT_SQUARE_BRACKET"@,
        LexState::OpLBrace => "LEFT_CURLY_BRACE"@,
        LexState::OpRBrace => "RIGHT_CURLY_BRACE"@,
    }
}

fn step_exec(st: LexState, c: char) -> (r: Option<LexState>)
    ensures
        r == step(st, c),
{
    match st {
        LexState::Start => if c == 'f' {
            Some(LexState::KwF)
        } else if c == 'm' {
            Some(LexState::KwM)
        } else if c == 'i' {
            Some(LexState::KwI)
        } else if c == 'w' {
            Some(LexState::KwW)
        } else if c == 'p' {
            Some(LexState::KwP)
        } else if letter(c) || c == '_' {
            Some(LexState::Ident)
        } else if digit(c) {
            Some(LexState::Num)
        } else if c == '<' {
            Some(LexState::OpLess)
        } else if c == '>' {
            Some(LexState::OpGreater)
        } else if c == '=' {
            Some(LexState::OpEq)
        } else if c == '+' {
            Some(LexState::OpPlus)
        } else if c == '-' {
            Some(LexState::OpMinus)
        } else if c == '*' {
            Some(LexState::OpStar)
        } else if c == '/' {
            Some(LexState::OpSlash)
        } else if c == '%' {
            Some(LexState::OpPercent)
        } else if c == '^' {
            Some(LexState::OpCaret)
        } else if c == ';' {
            Some(LexState::OpSemi)
        } else if c == '(' {
            Some(LexState::OpLParen)
        } else if c == ')' {
            Some(LexState::OpRParen)
        } else if c == '[' {
            Some(LexState::OpLBracket)
        } else if c == ']' {
            Some(LexState::OpRBracket)
        } else if c == '{' {
            Some(LexState::OpLBrace)
        } else if c == '}' {
            Some(LexState::OpRBrace)
        } else {
            None
        },
        LexState::Ident => if word_char(c) {
            Some(LexState::Ident)
        } else {
            None
        },
        LexState::Num => if digit(c) {
            Some(LexState::Num)
        } else {
            None
        },
        LexState::KwF => if c == 'n' {
            Some(LexState::KwFn)
        } else if c == 'o' {
            Some(LexState::KwFo)
        } else if word_char(c) {
            Some(LexState::Ident)
        } else {
            None
        },
        LexState::KwFn => if word_char(c) {
            Some(LexState::Ident)
        } else {
            None
        },
        LexState::KwFo => if c == 'r' {
            Some(LexState::KwFor)
        } else if word_char(c) {
            Some(LexState::Ident)
        } else {
            None
        },
        LexState::KwFor => if word_char(c) {
            Some(LexState::Ident)
        } else {
            None
        },
        LexState::KwM => if c == 'a' {
            Some(LexState::KwMa)
        } else if word_char(c) {
            Some(LexState::Ident)
        } else {
            None
        },
        LexState::KwMa => if c == 'i' {
            Some(LexState::KwMai)
        } else if word_char(c) {
            Some(LexState::Ident)
        } else {
            None
        },
        LexState::KwMai => if c == 'n' {
            Some(LexState::KwMain)
        } else if word_char(c) {
            Some(LexState::Ident)
        } else {
            None
        },
        LexState::KwMain => if word_char(c) {
            Some(LexState::Ident)
        } else {
            None
        },
        LexState::KwI => if c == 'f' {
            Some(LexState::KwIf)
        } else if word_char(c) {
            Some(LexState::Ident)
        } else {
            None
        },
        LexState::KwIf => if word_char(c) {
            Some(LexState::Ident)
        } else {
            None
        },
        LexState::KwW => if c == 'h' {
            Some(LexState::KwWh)
        } else if word_char(c) {
            Some(LexState::Ident)
        } else {
            None
        },
        LexState::KwWh => if c == 'i' {
            Some(LexState::KwWhi)
        } else if word_char(c) {
            Some(LexState::Ident)
        } else {
            None
        },
        LexState::KwWhi => if c == 'l' {
            Some(LexState::KwWhil)
        } else if word_char(c) {
            Some(LexState::Ident)
        } else {
            None
        },
        LexState::KwWhil => if c == 'e' {
            Some(LexState::KwWhile)
        } else if word_char(c) {
            Some(LexState::Ident)
        } else {
            None
        },
        LexState::KwWhile => if word_char(c) {
            Some(LexState::Ident)
        } else {
            None
        },
        LexState::KwP => if c == 'r' {
            Some(LexState::KwPr)
        } else if word_char(c) {
            Some(LexState::Ident)
        } else {
            None
        },
        LexState::KwPr => if c == 'i' {
            Some(LexState::KwPri)
        } else if word_char(c) {
            Some(LexState::Ident)
        } else {
            None
        },
        LexState::KwPri => if c == 'n' {
            Some(LexState::KwPrin)
        } else if word_char(c) {
            Some(LexState::Ident)
        } else {
            None
        },
        LexState::KwPrin => if c == 't' {
            Some(LexState::KwPrint)
        } else if word_char(c) {
            Some(LexState::Ident)
        } else {
            None
        },
        LexState::KwPrint => if word_char(c) {
            Some(LexState::Ident)
        } else {
            None
        },
        LexState::OpLess => if c == '=' {
            Some(LexState::OpLessEq)
        } else {
            None
        },
        LexState::OpGreater => if c == '=' {
            Some(LexState::OpGreaterEq)
        } else {
            None
        },
        LexState::OpEq => if c == '=' {
            Some(LexState::OpEqEq)
        } else {
            None
        },
        _ => None,
    }
}

fn kind_string(st: LexState) -> (s: String)
    ensures
        s@ == kind_of(st),
{
    match st {
        LexState::Start => "".to_owned(),
        LexState::Ident => "VARIABLE".to_owned(),
        LexState::Num => "NUMBER".to_owned(),
        LexState::KwF => "VARIABLE".to_owned(),
        LexState::KwFn => "FN_PROGRAM".to_owned(),
        LexState::KwFo => "VARIABLE".to_owned(),
        LexState::KwFor => "FOR".to_owned(),
        LexState::KwM => "VARIABLE".to_owned(),
        LexState::KwMa => "VARIABLE".to_owned(),
        LexState::KwMai => "VARIABLE".to_owned(),
        LexState::KwMain => "MAIN_PROGRAM".to_owned(),
        LexState::KwI => "VARIABLE".to_owned(),
        LexState::KwIf => "IF".to_owned(),
        LexState::KwW => "VARIABLE".to_owned(),
        LexState::KwWh => "VARIABLE".to_owned(),
        LexState::KwWhi => "VARIABLE".to_owned(),
        LexState::KwWhil => "VARIABLE".to_owned(),
        LexState::KwWhile => "WHILE".to_owned(),
        LexState::KwP => "VARIABLE".to_owned(),
        LexState::KwPr => "VARIABLE".to_owned(),
        LexState::KwPri => "VARIABLE".to_owned(),
        LexState::KwPrin => "VARIABLE".to_owned(),
        LexState::KwPrint => "PRINT".to_owned(),
        LexState::OpLess => "LESS_THAN".to_owned(),
        LexState::OpLessEq => "LESS_THAN_OR_EQUAL".to_owned(),
        LexState::OpGreater => "GREATER_THAN".to_owned(),
        LexState::OpGreaterEq => "GREATER_THAN_OR_EQUAL".to_owned(),
        LexState::OpEq => "EQUAL".to_owned(),
        LexState::OpEqEq => "EQUAL_EQUAL".to_owned(),
        LexState::OpPlus => "PLUS".to_owned(),
        LexState::OpMinus => "SUBTRACT".to_owned(),
        LexState::OpStar => "MULTIPLY".to_owned(),
        LexState::OpSlash => "DIVIDE".to_owned(),
        LexState::OpPercent => "MODULUS".to_owned(),
        LexState::OpCaret => "EXPONENT".to_owned(),
        LexState::OpSemi => "SEMICOLON".to_owned(),
        LexState::OpLParen => "LEFT_PARENTHESIS".to_owned(),
        LexState::OpRParen => "RIGHT_PARENTHESIS".to_owned(),
        LexState::OpLBracket => "LEFT_SQUARE_BRACKET".to_owned(),
        LexState::OpRBracket => "RIGHT_SQUARE_BRACKET".to_owned(),
        LexState::OpLBrace => "LEFT_CURLY_BRACE".to_owned(),
        LexState::OpRBrace => "RIGHT_CURLY_BRACE".to_owned(),
    }
}

/// A lexical failure: the offending character has no transition from the
/// start state.
#[derive(Clone, Copy, Debug, PartialEq, Eq)]
pub enum LexError {
    UnrecognizedCharacter(char),
}

/// What lexing a (whitespace-free) character sequence yields: either the
/// emitted tokens, in order, or the first character that has no transition
/// from the start state.
pub ghost enum LexOutcome {
    Toks(Seq<TokenView>),
    NoRule(char),
}

/// The token a state emits for an accumulated lexeme.
pub open spec fn token_of(st: LexState, lexeme: Seq<char>) -> TokenView {
    TokenView { kind: kind_of(st), lexeme: lexeme, line: 0, start: 0, end: 0 }
}

/// Lexing from an intermediate configuration: `cs` is the unconsumed input,
/// `st` the current state and `buf` the accumulated lexeme. On a dead end
/// in a non-start state the buffered lexeme is emitted and the same
/// character is retried from `Start`; at the end of the input any residue
/// is emitted as one final token.
pub open spec fn lex_from(cs: Seq<char>, st: LexState, buf: Seq<char>) -> LexOutcome
    decreases cs.len(), (if st == LexState::Start { 0int } else { 1int }),
{
    if cs.len() == 0 {
        if st == LexState::Start {
            LexOutcome::Toks(Seq::empty())
        } else {
            LexOutcome::Toks(seq![token_of(st, buf)])
        }
    } else {
        match step(st, cs[0]) {
            Some(ns) => lex_from(cs.drop_first(), ns, buf.push(cs[0])),
            None => if st == LexState::Start {
                LexOutcome::NoRule(cs[0])
            } else {
                match lex_from(cs, LexState::Start, Seq::empty()) {
                    LexOutcome::Toks(rest) => LexOutcome::Toks(
                        seq![token_of(st, buf)] + rest,
                    ),
                    LexOutcome::NoRule(c) => LexOutcome::NoRule(c),
                }
            },
        }
    }
}

/// The whitespace-free projection of a character sequence.
pub open spec fn strip_spec(cs: Seq<char>) -> Seq<char>
    decreases cs.len(),
{
    if cs.len() == 0 {
        Seq::empty()
    } else {
        strip_spec(cs.drop_last()) + (if is_space(cs.last()) {
            Seq::<char>::empty()
        } else {
            seq![cs.last()]
        })
    }
}

/// What the lexer yields on a source text: whitespace is stripped, then the
/// automaton runs from the start state.
pub open spec fn lex(cs: Seq<char>) -> LexOutcome {
    lex_from(strip_spec(cs), LexState::Start, Seq::empty())
}

/// The end-of-input sentinel appended after the last lexeme.
pub open spec fn sentinel_view() -> TokenView {
    TokenView { kind: "$"@, lexeme: "$"@, line: 0, start: 0, end: 0 }
}

/// Prefixing already-emitted tokens onto the outcome of the rest of a run.
pub open spec fn prepend_outcome(pre: Seq<TokenView>, o: LexOutcome) -> LexOutcome {
    match o {
        LexOutcome::Toks(ts) => LexOutcome::Toks(pre + ts),
        LexOutcome::NoRule(c) => LexOutcome::NoRule(c),
    }
}

/// Removes whitespace, keeping all other characters in order.
fn strip_spaces(cs: &Vec<char>) -> (w: Vec<char>)
    ensures
        w@ == strip_spec(cs@),
{
    let mut w: Vec<char> = Vec::new();
    let mut i: usize = 0;
    while i < cs.len()
        invariant
            i <= cs.len(),
            w@ == strip_spec(cs@.take(i as int)),
        decreases cs.len() - i,
    {
        let c = cs[i];
        if !space(c) {
            w.push(c);
        }
        i = i + 1;
        assert(cs@.take(i as int).drop_last() =~= cs@.take(i - 1));
    }
    assert(cs@.take(cs@.len() as int) =~= cs@);
    w
}

/// Runs the automaton over a whitespace-free character sequence.
fn lex_chars(w: &Vec<char>) -> (r: Result<Vec<Token>, LexError>)
    ensures
        match r {
            Ok(ts) => lex_from(w@, LexState::Start, Seq::empty()) == LexOutcome::Toks(
                tokens_view(ts@),
            ),
            Err(LexError::UnrecognizedCharacter(c)) => lex_from(w@, LexState::Start, Seq::empty())
                == LexOutcome::NoRule(c),
        },
{
    let mut out: Vec<Token> = Vec::new();
    let mut st = LexState::Start;
    let mut buf: Vec<char> = Vec::new();
    let mut i: usize = 0;
    proof {
        assert(w@.skip(0) =~= w@);
        assert(tokens_view(out@) =~= Seq::<TokenView>::empty());
        match lex_from(w@, LexState::Start, Seq::<char>::empty()) {
            LexOutcome::Toks(ts0) => {
                assert(Seq::<TokenView>::empty() + ts0 =~= ts0);
            },
            LexOutcome::NoRule(_) => {},
        }
    }
    loop
        invariant
            i <= w.len(),
            st == LexState::Start ==> buf@ == Seq::<char>::empty(),
            lex_from(w@, LexState::Start, Seq::empty()) == prepend_outcome(
                tokens_view(out@),
                lex_from(w@.skip(i as int), st, buf@),
            ),
        decreases w.len() - i, (if st == LexState::Start { 0int } else { 1int }),
    {
        if i == w.len() {
            assert(w@.skip(i as int) =~= Seq::<char>::empty());
            if st == LexState::Start {
                assert(tokens_view(out@) + Seq::<TokenView>::empty() =~= tokens_view(out@));
                return Ok(out);
            } else {
                let t = Token {
                    value: kind_string(st),
                    lexeme: chars_to_string(&buf),
                    line: 0,
                    initial_position: 0,
                    final_position: 0,
                };
                let ghost old_out = out@;
                assert(t@ == token_of(st, buf@));
                out.push(t);
                assert(tokens_view(out@) =~= tokens_view(old_out) + seq![token_of(st, buf@)]);
                return Ok(out);
            }
        } else {
            let c = w[i];
            assert(w@.skip(i as int)[0] == c);
            match step_exec(st, c) {
                Some(ns) => {
                    assert(w@.skip(i as int).drop_first() =~= w@.skip(i + 1));
                    st = ns;
                    buf.push(c);
                    i = i + 1;
                },
                None => {
                    if st == LexState::Start {
                        return Err(LexError::UnrecognizedCharacter(c));
                    } else {
                        let t = Token {
                            value: kind_string(st),
                            lexeme: chars_to_string(&buf),
                            line: 0,
                            initial_position: 0,
                            final_position: 0,
                        };
                        let ghost old_out = out@;
                        assert(t@ == token_of(st, buf@));
                        out.push(t);
                        assert(tokens_view(out@) =~= tokens_view(old_out) + seq![token_of(
                            st,
                            buf@,
                        )]);
                        proof {
                            lemma_prepend_shift(
                                tokens_view(old_out),
                                token_of(st, buf@),
                                lex_from(w@.skip(i as int), LexState::Start, Seq::empty()),
                            );
                        }
                        buf = Vec::new();
                        st = LexState::Start;
                    }
                },
            }
        }
    }
}

proof fn lemma_prepend_shift(pre: Seq<TokenView>, t: TokenView, o: LexOutcome)
    ensures
        prepend_outcome(pre, match o {
            LexOutcome::Toks(rest) => LexOutcome::Toks(seq![t] + rest),
            LexOutcome::NoRule(c) => LexOutcome::NoRule(c),
        }) == prepend_outcome(pre + seq![t], o),
{
    match o {
        LexOutcome::Toks(rest) => {
            assert(pre + (seq![t] + rest) =~= (pre + seq![t]) + rest);
        },
        LexOutcome::NoRule(_) => {},
    }
}

/// Tokenizes a source text: strips whitespace, runs the maximal-munch
/// automaton, and appends the `"$"` end-of-input sentinel that the parsing
/// table expects. A character with no transition from the start state is
/// reported as a lexical error.
pub fn tokenize_code(code_text: &str) -> (r: Result<Vec<Token>, LexError>)
    ensures
        match r {
            Ok(ts) => lex(code_text@) matches LexOutcome::Toks(emitted) && tokens_view(ts@)
                == emitted.push(sentinel_view()),
            Err(LexError::UnrecognizedCharacter(c)) => lex(code_text@) == LexOutcome::NoRule(c),
        },
{
    let cs = str_to_chars(code_text);
    let w = strip_spaces(&cs);
    match lex_chars(&w) {
        Ok(mut ts) => {
            let ghost emitted = tokens_view(ts@);
            ts.push(Token::new("$", "$", 0, 0, 0));
            assert(tokens_view(ts@) =~= emitted.push(sentinel_view()));
            Ok(ts)
        },
        Err(e) => Err(e),
    }
}

} // verus!
