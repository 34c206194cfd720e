//! The abstract syntax of the Lisp-like language: span-annotated
//! expressions, and their mathematical model used in contracts.

use crate::parsing_utils::Spanned;
use vstd::prelude::*;

verus! {

/// A span-annotated expression.
pub type SExpr = Spanned<Expr>;

/// An expression of the Lisp-like language.
#[derive(Debug)]
pub enum Expr {
    Symbol(String),
    Number(i64),
    String(String),
    List(Vec<SExpr>),
    Quote(Box<SExpr>),
}

/// The mathematical model of an expression: the same shape over character
/// sequences and unbounded integers, without spans.
pub enum ExprModel {
    Symbol(Seq<char>),
    Number(int),
    Str(Seq<char>),
    List(Seq<ExprModel>),
    Quote(Box<ExprModel>),
}

/// The model of an expression.
pub open spec fn expr_model(e: Expr) -> ExprModel
    decreases e,
{
    match e {
        Expr::Symbol(s) => ExprModel::Symbol(s@),
        Expr::Number(n) => ExprModel::Number(n as int),
        Expr::String(s) => ExprModel::Str(s@),
        Expr::List(items) => {
            proof {
                assert(decreases_to!(e => items));
                assert(decreases_to!(items => items@));
            }
            ExprModel::List(expr_models(items@))
        },
        Expr::Quote(inner) => ExprModel::Quote(Box::new(expr_model_spanned(*inner))),
    }
}

/// The models of a list of span-annotated expressions, in order.
pub open spec fn expr_models(items: Seq<SExpr>) -> Seq<ExprModel>
    decreases items,
{
    if items.len() == 0 {
        Seq::empty()
    } else {
        proof {
            assert(decreases_to!(items => items[0]));
            assert(decreases_to!(items => items.subrange(1, items.len() as int)));
        }
        seq![expr_model_spanned(items[0])] + expr_models(items.subrange(1, items.len() as int))
    }
}

/// The model of a span-annotated expression, dropping the span.
pub open spec fn expr_model_spanned(e: SExpr) -> ExprModel
    decreases e,
{
    expr_model(e.item)
}

/// `expr_models` maps `expr_model_spanned` over the list.
pub proof fn lemma_expr_models(items: Seq<SExpr>)
    ensures
        expr_models(items).len() == items.len(),
        forall|i: int|
            0 <= i < items.len() ==> #[trigger] expr_models(items)[i] == expr_model_spanned(
                items[i],
            ),
    decreases items.len(),
{
    if items.len() > 0 {
        lemma_expr_models(items.subrange(1, items.len() as int));
        assert forall|i: int| 0 <= i < items.len() implies #[trigger] expr_models(items)[i]
            == expr_model_spanned(items[i]) by {
            if i > 0 {
                assert(expr_models(items)[i] == expr_models(
                    items.subrange(1, items.len() as int),
                )[i - 1]);
                assert(items.subrange(1, items.len() as int)[i - 1] == items[i]);
            }
        }
    }
}

} // verus!
