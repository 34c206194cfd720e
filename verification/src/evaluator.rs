//! The capability every language variant offers the surrounding shell, and
//! the explicit selection among the available variants.

use crate::lisp::Lisp;
use crate::lisp::evaluator::spec_run_lisp;
use crate::untyped_arithmetic::UntypedArithmetic;
use crate::untyped_arithmetic::spec_run_arith;
use crate::untyped_lambda_calculus::UntypedLambdaCalculus;
use crate::untyped_lambda_calculus::spec_run_lambda;
use vstd::prelude::*;
use vstd::string::StringExecFns;

verus! {

/// What a language variant offers the shell: run one line of source text to
/// a complete report, and name itself for the selection menu.
pub trait Evaluator {
    /// Runs the language pipeline on one input line and renders the report.
    fn run(&self, input: &str) -> String;

    /// A short debugging tag for the variant.
    fn __debug__(&self) -> String;

    /// The display name of the variant.
    fn name(&self) -> String;
}

impl Evaluator for UntypedArithmetic {
    fn run(&self, input: &str) -> String {
        UntypedArithmetic::run(self, input)
    }

    fn __debug__(&self) -> String {
        UntypedArithmetic::__debug__(self)
    }

    fn name(&self) -> String {
        UntypedArithmetic::name(self)
    }
}

impl Evaluator for UntypedLambdaCalculus {
    fn run(&self, input: &str) -> String {
        UntypedLambdaCalculus::run(self, input)
    }

    fn __debug__(&self) -> String {
        UntypedLambdaCalculus::__debug__(self)
    }

    fn name(&self) -> String {
        UntypedLambdaCalculus::name(self)
    }
}

impl Evaluator for Lisp {
    fn run(&self, input: &str) -> String {
        Lisp::run(self, input)
    }

    fn __debug__(&self) -> String {
        Lisp::__debug__(self)
    }

    fn name(&self) -> String {
        Lisp::name(self)
    }
}

/// An explicit, tagged choice among the available language variants.
#[derive(Debug)]
pub enum Language {
    Arithmetic(UntypedArithmetic),
    LambdaCalculus(UntypedLambdaCalculus),
    Lisp(Lisp),
}

impl Language {
    /// Runs the chosen language's pipeline on one input line.
    pub fn run(&self, input: &str) -> (out: String)
        ensures
            self is Arithmetic ==> out@ == spec_run_arith(input@),
            self is LambdaCalculus ==> out@ == spec_run_lambda(input@),
            self is Lisp ==> out@ == spec_run_lisp(input@),
    {
        match self {
            Language::Arithmetic(e) => e.run(input),
            Language::LambdaCalculus(e) => e.run(input),
            Language::Lisp(e) => e.run(input),
        }
    }

    /// The display name of the chosen language.
    pub fn name(&self) -> (r: String)
        ensures
            self is Arithmetic ==> r@ == "Untyped Arithmetic"@,
            self is LambdaCalculus ==> r@ == "Untyped Lambda Calculus"@,
            self is Lisp ==> r@ == "Lisp"@,
    {
        match self {
            Language::Arithmetic(e) => e.name(),
            Language::LambdaCalculus(e) => e.name(),
            Language::Lisp(e) => e.name(),
        }
    }
}

/// The evaluators the shell offers, in menu order.
pub fn available_evaluators() -> (r: Vec<Language>)
    ensures
        r@.len() == 3,
        r@[0] is Arithmetic,
        r@[1] is LambdaCalculus,
        r@[2] is Lisp,
{
    let mut v: Vec<Language> = Vec::new();
    v.push(Language::Arithmetic(UntypedArithmetic));
    v.push(Language::LambdaCalculus(UntypedLambdaCalculus));
    v.push(Language::Lisp(Lisp));
    v
}

/// Picks an evaluator by its 1-based menu index; any other index is
/// rejected.
pub fn pick(index: usize) -> (r: Result<Language, String>)
    ensures
        index == 1 ==> (r matches Ok(l) && l is Arithmetic),
        index == 2 ==> (r matches Ok(l) && l is LambdaCalculus),
        index == 3 ==> (r matches Ok(l) && l is Lisp),
        index == 0 || index > 3 ==> (r matches Err(m) && m@ == "Invalid evaluator index"@),
{
    match index {
        1 => Ok(Language::Arithmetic(UntypedArithmetic)),
        2 => Ok(Language::LambdaCalculus(UntypedLambdaCalculus)),
        3 => Ok(Language::Lisp(Lisp)),
        _ => Err("Invalid evaluator index".to_owned()),
    }
}

} // verus!
