//! An interactive evaluator pipeline for several small formal languages:
//! span-tracking tokenizers, recursive-descent parsers and, for the untyped
//! arithmetic language, a small-step evaluator with a proved-terminating
//! normalization loop.

pub mod evaluator;
pub mod lisp;
pub mod parsing_utils;
pub mod untyped_arithmetic;
pub mod untyped_lambda_calculus;
