//! Front end for a small imperative toy language: a finite-automaton lexer,
//! an SLR shift/reduce/goto parser driven by an externally supplied table,
//! and a semantic analyzer that checks declarations, scoping and assignment
//! types over the syntax tree.

pub mod laws;
pub mod lexer;
pub mod parser;
pub mod semantic;
pub mod strutil;
pub mod table;
pub mod token;
pub mod tree;

pub use lexer::tokenize_code;
pub use parser::syntax_parse;
pub use semantic::semantic_analysis;
pub use token::Token;
