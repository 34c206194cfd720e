//! The Lisp-like language: a span-tracking tokenizer over a closed token
//! set, a recursive-descent parser for expressions, symbols, numbers and
//! lists, and the report-producing evaluator shell around them.

pub mod ast;
pub mod evaluator;
pub mod parser;
pub mod tokenizer;

pub use evaluator::Lisp;
