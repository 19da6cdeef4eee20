//! Macro PEG: a parser for macro parsing-expression grammars and an evaluator
//! that matches inputs against them under three argument-passing strategies.
pub mod ast;
pub mod equality;
pub mod evaluator;
pub mod laws;
pub mod parser;
pub mod semantics;
pub mod syntax;
pub mod text;

pub use ast::{
    CharClassElement, EvaluationResult, EvaluationStrategy, Expr, Grammar, ParseError, Position,
    Rule,
};
pub use evaluator::{eval_grammar, Evaluator};
pub use parser::parse_macro_peg;
