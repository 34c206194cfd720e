//! The report-producing shell of the Lisp-like language: tokenize one input
//! line, list the tokens, parse them, and print the expression tree — or
//! render the first error with its offending range underlined.

use super::ast::Expr;
use super::ast::ExprModel;
use super::ast::SExpr;
use super::ast::expr_model;
use super::ast::expr_model_spanned;
use super::ast::expr_models;
use super::parser::LPRes;
use super::parser::expr_fuel;
use super::parser::lemma_lp_fuel;
use super::parser::lemma_lp_progress;
use super::parser::parse;
use super::parser::parse_expr_at;
use super::parser::token_views;
use super::parser::tokens_bounded;
use super::tokenizer::Lex;
use super::tokenizer::Token;
use super::tokenizer::lemma_lisp_tokens_bounded;
use super::tokenizer::lex_debug;
use super::tokenizer::lisp_tokens_from;
use super::tokenizer::token_debug_string;
use super::tokenizer::token_view;
use super::tokenizer::tokenize;
use crate::parsing_utils::Span;
use crate::parsing_utils::Spanned;
use crate::parsing_utils::int_str;
use crate::parsing_utils::i64_to_string;
use crate::parsing_utils::parse_error_to_string;
use crate::parsing_utils::push_char;
use crate::parsing_utils::render_error;
use crate::parsing_utils::tokenize_error_to_string;
use vstd::prelude::*;
use vstd::string::StringExecFns;

verus! {

/// A language choice marker for the Lisp evaluator.
#[derive(Debug)]
pub struct Lisp;

/// The printed form of an expression model: the constructor tree, for
/// example `List([Symbol("f"), Number(1)])`.
pub open spec fn expr_model_str(em: ExprModel) -> Seq<char>
    decreases em,
{
    match em {
        ExprModel::Symbol(x) => "Symbol(\""@ + x + "\")"@,
        ExprModel::Number(v) => "Number("@ + int_str(v) + ")"@,
        ExprModel::Str(x) => "String(\""@ + x + "\")"@,
        ExprModel::List(items) => {
            proof {
                assert(decreases_to!(em => items));
            }
            "List(["@ + expr_models_str(items) + "])"@
        },
        ExprModel::Quote(inner) => "Quote("@ + expr_model_str(*inner) + ")"@,
    }
}

/// The printed forms of a list of expression models, comma-separated.
pub open spec fn expr_models_str(items: Seq<ExprModel>) -> Seq<char>
    decreases items,
{
    if items.len() == 0 {
        Seq::empty()
    } else if items.len() == 1 {
        proof {
            assert(decreases_to!(items => items[0]));
        }
        expr_model_str(items[0])
    } else {
        proof {
            assert(decreases_to!(items => items.subrange(0, items.len() - 1)));
            assert(decreases_to!(items => items[items.len() - 1]));
        }
        expr_models_str(items.subrange(0, items.len() - 1)) + ", "@ + expr_model_str(
            items.last(),
        )
    }
}

/// Prints an expression as its constructor tree.
pub fn expr_to_string(e: &Expr) -> (r: String)
    ensures
        r@ == expr_model_str(expr_model(*e)),
    decreases *e,
{
    match e {
        Expr::Symbol(x) => {
            let mut out = String::new();
            out.append("Symbol(\"");
            out.append(x.as_str());
            out.append("\")");
            proof {
                assert(out@ =~= expr_model_str(expr_model(*e)));
            }
            out
        },
        Expr::Number(v) => {
            let mut out = String::new();
            out.append("Number(");
            let ds = i64_to_string(*v);
            out.append(ds.as_str());
            out.append(")");
            proof {
                assert(out@ =~= expr_model_str(expr_model(*e)));
            }
            out
        },
        Expr::String(x) => {
            let mut out = String::new();
            out.append("String(\"");
            out.append(x.as_str());
            out.append("\")");
            proof {
                assert(out@ =~= expr_model_str(expr_model(*e)));
            }
            out
        },
        Expr::List(items) => {
            let ghost ms = expr_models(items@);
            proof {
                super::ast::lemma_expr_models(items@);
            }
            let mut out = String::new();
            out.append("List([");
            let mut k: usize = 0;
            proof {
                assert(ms.subrange(0, 0) =~= Seq::<ExprModel>::empty());
                assert(out@ =~= "List(["@ + expr_models_str(ms.subrange(0, 0)));
            }
            while k < items.len()
                invariant
                    *e == Expr::List(*items),
                    k <= items@.len(),
                    ms == expr_models(items@),
                    ms.len() == items@.len(),
                    forall|idx: int|
                        0 <= idx < items@.len() ==> #[trigger] ms[idx] == expr_model_spanned(
                            items@[idx],
                        ),
                    out@ == "List(["@ + expr_models_str(ms.subrange(0, k as int)),
                decreases items@.len() - k,
            {
                if k > 0 {
                    out.append(", ");
                }
                proof {
                    assert(decreases_to!(*e => (*e)->List_0));
                    assert((*e)->List_0 == *items);
                    assert(decreases_to!(*items => items@));
                    assert(decreases_to!(items@ => items@[k as int]));
                    assert(decreases_to!(items@[k as int] => items@[k as int].item));
                }
                let sub = expr_to_string(&items[k].item);
                out.append(sub.as_str());
                proof {
                    assert(ms.subrange(0, k + 1 as int).subrange(0, k as int) =~= ms.subrange(
                        0,
                        k as int,
                    ));
                    assert(ms.subrange(0, k + 1 as int).last() == ms[k as int]);
                    assert(ms.subrange(0, k + 1 as int)[0] == ms[0]);
                    assert(out@ =~= "List(["@ + expr_models_str(ms.subrange(0, k + 1 as int)));
                }
                k += 1;
            }
            out.append("])");
            proof {
                assert(ms.subrange(0, ms.len() as int) =~= ms);
                assert(out@ =~= expr_model_str(expr_model(*e)));
            }
            out
        },
        Expr::Quote(inner) => {
            let mut out = String::new();
            out.append("Quote(");
            let sub = expr_to_string(&inner.item);
            out.append(sub.as_str());
            out.append(")");
            proof {
                assert(out@ =~= expr_model_str(expr_model(*e)));
            }
            out
        },
    }
}

/// The token-list section of the report: one line per token.
pub open spec fn lex_list_str(lexes: Seq<(Lex, int, int)>) -> Seq<char>
    decreases lexes.len(),
{
    if lexes.len() == 0 {
        Seq::empty()
    } else {
        lex_list_str(lexes.drop_last()) + "\n\t"@ + lex_debug(lexes.last().0) + ", "@
    }
}

/// The full report `run` produces for an input line: the echoed input, the
/// token listing, and the parsed expression tree — or the first error,
/// rendered against the input.
pub open spec fn spec_run_lisp(input: Seq<char>) -> Seq<char> {
    let head = "input: "@ + input + "\n"@;
    match lisp_tokens_from(input, 0) {
        Err((m, st, l)) => head + render_error(
            m,
            Span { start: st as usize, length: l as usize },
            input,
        ),
        Ok(lexes) => {
            let head2 = head + "tokens: ["@ + lex_list_str(lexes) + "\n]\n"@;
            match parse_expr_at(lexes, 0, expr_fuel(lexes.len(), 0)) {
                LPRes::LPOk(em, st, l, n) => head2 + "parsed: "@ + expr_model_str(em) + "\n"@,
                LPRes::LPErr(m, st, l) => head2 + render_error(
                    m,
                    Span { start: st as usize, length: l as usize },
                    input,
                ),
                LPRes::LPOut => head2,
            }
        },
    }
}

impl Lisp {
    /// Runs the Lisp pipeline on one input line: echo the input, tokenize
    /// and list the tokens, then parse and print the expression tree,
    /// rendering the first error if a stage fails.
    pub fn run(&self, input: &str) -> (out: String)
        ensures
            out@ == spec_run_lisp(input@),
    {
        let ghost s = input@;
        let mut out = String::new();
        out.append("input: ");
        out.append(input);
        push_char(&mut out, '\n');
        let ghost head = "input: "@ + s + "\n"@;
        proof {
            reveal_strlit("\n");
            assert(out@ =~= head);
            lemma_lisp_tokens_bounded(s, 0);
        }
        let tokens = match tokenize(input) {
            Ok(t) => t,
            Err(e) => {
                let rendered = tokenize_error_to_string(e, input);
                out.append(rendered.as_str());
                proof {
                    assert(out@ =~= spec_run_lisp(s));
                }
                return out;
            },
        };
        let ghost lexes = token_views(tokens@);
        proof {
            assert(lexes =~= tokens@.map_values(|t: Spanned<Token>| token_view(t)));
        }
        out.append("tokens: [");
        let mut k: usize = 0;
        let ghost head2pre = head + "tokens: ["@;
        proof {
            assert(lexes.take(0) =~= Seq::<(Lex, int, int)>::empty());
            assert(out@ =~= head2pre + lex_list_str(lexes.take(0)));
        }
        while k < tokens.len()
            invariant
                k <= tokens@.len(),
                lexes == token_views(tokens@),
                head2pre == head + "tokens: ["@,
                out@ == head2pre + lex_list_str(lexes.take(k as int)),
            decreases tokens@.len() - k,
        {
            out.append("\n\t");
            let ds = token_debug_string(&tokens[k].item);
            out.append(ds.as_str());
            out.append(", ");
            proof {
                assert(lexes.take(k + 1 as int).drop_last() =~= lexes.take(k as int));
                assert(lexes.take(k + 1 as int).last() == lexes[k as int]);
                assert(out@ =~= head2pre + lex_list_str(lexes.take(k + 1 as int)));
            }
            k += 1;
        }
        out.append("\n]\n");
        let ghost head2 = head + "tokens: ["@ + lex_list_str(lexes) + "\n]\n"@;
        proof {
            assert(lexes.take(lexes.len() as int) =~= lexes);
            assert(out@ =~= head2);
            assert(tokens@.len() == tokens.len());
            lemma_lp_fuel(lexes, 0, expr_fuel(lexes.len(), 0), expr_fuel(lexes.len(), 0), s.len() as int);
            lemma_lp_progress(lexes, 0, expr_fuel(lexes.len(), 0), s.len() as int);
        }
        let expr = match parse(&tokens) {
            Ok(e) => e,
            Err(e) => {
                let rendered = parse_error_to_string(e, input);
                out.append(rendered.as_str());
                proof {
                    assert(out@ =~= spec_run_lisp(s));
                }
                return out;
            },
        };
        out.append("parsed: ");
        let es = expr_to_string(&expr.item);
        out.append(es.as_str());
        push_char(&mut out, '\n');
        proof {
            reveal_strlit("\n");
            assert(out@ =~= spec_run_lisp(s));
        }
        out
    }

    /// The display name of this language variant.
    pub fn name(&self) -> (r: String)
        ensures
            r@ == "Lisp"@,
    {
        "Lisp".to_owned()
    }

    /// A short debugging tag for this language variant.
    pub fn __debug__(&self) -> (r: String)
        ensures
            r@ == "Lisp"@,
    {
        "Lisp".to_owned()
    }
}

} // verus!
