//! The recursive-descent parser of the Lisp-like language: one function per
//! nonterminal over a lookahead-1 cursor into the token sequence, skipping
//! whitespace and comment tokens, producing span-annotated expressions and
//! failing with the span of the offending token.

use super::ast::Expr;
use super::ast::ExprModel;
use super::ast::SExpr;
use super::ast::expr_model_spanned;
use super::ast::expr_models;
use super::ast::lemma_expr_models;
use super::tokenizer::Lex;
use super::tokenizer::Token;
use super::tokenizer::lex_debug;
use super::tokenizer::lex_of;
use super::tokenizer::token_debug_string;
use super::tokenizer::token_view;
use crate::parsing_utils::ParseError;
use crate::parsing_utils::Span;
use crate::parsing_utils::Spanned;
use crate::parsing_utils::parse_err;
use crate::parsing_utils::span_end;
use crate::parsing_utils::str_eq;
use vstd::prelude::*;
use vstd::string::StringExecFns;

verus! {

/// The parser's view of a token list: each token's model and span.
pub open spec fn token_views(tokens: Seq<Spanned<Token>>) -> Seq<(Lex, int, int)> {
    tokens.map_values(|t: Spanned<Token>| token_view(t))
}

/// Every token span lies within offset bound `b`.
pub open spec fn tokens_bounded(toks: Seq<(Lex, int, int)>, b: int) -> bool {
    forall|k: int|
        0 <= k < toks.len() ==> 0 <= #[trigger] toks[k].1 && 0 <= toks[k].2 && toks[k].1
            + toks[k].2 <= b
}

/// Whether the parser skips this token kind.
pub open spec fn is_skippable(lex: Lex) -> bool {
    lex is Whitespace || lex is Comment
}

/// The first token index at or after `i` that the parser does not skip.
pub open spec fn skip_at(toks: Seq<(Lex, int, int)>, i: int) -> int
    decreases toks.len() - i when 0 <= i <= toks.len()
{
    if i >= toks.len() {
        toks.len() as int
    } else if is_skippable(toks[i].0) {
        skip_at(toks, i + 1)
    } else {
        i
    }
}

/// `skip_at` lands on the first unskippable token.
pub proof fn lemma_skip_at(toks: Seq<(Lex, int, int)>, i: int)
    requires
        0 <= i <= toks.len(),
    ensures
        i <= skip_at(toks, i) <= toks.len(),
        skip_at(toks, i) < toks.len() ==> !is_skippable(toks[skip_at(toks, i)].0),
        skip_at(toks, skip_at(toks, i)) == skip_at(toks, i),
    decreases toks.len() - i,
{
    if i < toks.len() && is_skippable(toks[i].0) {
        lemma_skip_at(toks, i + 1);
    }
}

/// The least span start in a non-empty span list.
pub open spec fn spans_min_start(sp: Seq<(int, int)>) -> int
    decreases sp.len(),
{
    if sp.len() <= 1 {
        sp[0].0
    } else {
        let prev = spans_min_start(sp.drop_last());
        if sp.last().0 < prev {
            sp.last().0
        } else {
            prev
        }
    }
}

/// The greatest span end in a non-empty span list.
pub open spec fn spans_max_end(sp: Seq<(int, int)>) -> int
    decreases sp.len(),
{
    if sp.len() <= 1 {
        sp[0].0 + sp[0].1
    } else {
        let prev = spans_max_end(sp.drop_last());
        if sp.last().0 + sp.last().1 > prev {
            sp.last().0 + sp.last().1
        } else {
            prev
        }
    }
}

/// `spans_min_start` and `spans_max_end` are the least start and greatest
/// end of the list.
pub proof fn lemma_spans_min_max(sp: Seq<(int, int)>)
    requires
        sp.len() > 0,
    ensures
        forall|k: int| 0 <= k < sp.len() ==> spans_min_start(sp) <= #[trigger] sp[k].0,
        exists|k: int| 0 <= k < sp.len() && spans_min_start(sp) == sp[k].0,
        forall|k: int| 0 <= k < sp.len() ==> #[trigger] sp[k].0 + sp[k].1 <= spans_max_end(sp),
        exists|k: int| 0 <= k < sp.len() && spans_max_end(sp) == sp[k].0 + sp[k].1,
    decreases sp.len(),
{
    if sp.len() > 1 {
        lemma_spans_min_max(sp.drop_last());
        assert forall|k: int| 0 <= k < sp.len() implies spans_min_start(sp) <= #[trigger] sp[k].0
            && sp[k].0 + sp[k].1 <= spans_max_end(sp) by {
            if k < sp.len() - 1 {
                assert(sp.drop_last()[k] == sp[k]);
            }
        }
        let ghost km = choose|k: int|
            0 <= k < sp.drop_last().len() && spans_min_start(sp.drop_last()) == sp.drop_last()[k].0;
        let ghost kx = choose|k: int|
            0 <= k < sp.drop_last().len() && spans_max_end(sp.drop_last()) == sp.drop_last()[k].0
                + sp.drop_last()[k].1;
        assert(sp.drop_last()[km] == sp[km]);
        assert(sp.drop_last()[kx] == sp[kx]);
        assert(sp.last() == sp[sp.len() - 1]);
    } else {
        assert(spans_min_start(sp) == sp[0].0);
        assert(spans_max_end(sp) == sp[0].0 + sp[0].1);
    }
}

/// The recursion budget that suffices to parse one expression from token
/// index `i`.
pub open spec fn expr_fuel(len: nat, i: int) -> nat {
    if i <= len {
        (3 * (len - i) + 1) as nat
    } else {
        1
    }
}

/// The recursion budget that suffices to parse a list form whose opening
/// parenthesis stands at token index `j`.
pub open spec fn list_fuel(len: nat, j: int) -> nat {
    if j <= len {
        (3 * (len - j)) as nat
    } else {
        0
    }
}

/// The recursion budget that suffices to parse list items from token index
/// `m` up to the closing parenthesis.
pub open spec fn items_fuel(len: nat, m: int) -> nat {
    if m <= len {
        (3 * (len - m) + 2) as nat
    } else {
        2
    }
}

/// Outcome of the specification-level expression parser: the expression
/// model with its span and the index after it, a parse error with its span,
/// or exhausted recursion budget.
pub enum LPRes {
    LPOk(ExprModel, int, int, int),
    LPErr(Seq<char>, int, int),
    LPOut,
}

/// Outcome of the specification-level list-items parser: the item models
/// with their spans plus the index of the closing parenthesis, an error, or
/// exhausted budget.
pub enum LIRes {
    IOk(Seq<(ExprModel, int, int)>, int),
    IErr(Seq<char>, int, int),
    IOut,
}

/// Specification of `parse_expression`: skip, then dispatch on the first
/// meaningful token.
pub open spec fn parse_expr_at(toks: Seq<(Lex, int, int)>, i: int, fuel: nat) -> LPRes
    decreases fuel,
{
    if i < 0 || i > toks.len() {
        LPRes::LPErr("Unexpected end of input"@, 0, 0)
    } else {
        let j = skip_at(toks, i);
        if j >= toks.len() {
            LPRes::LPErr("Unexpected end of input"@, 0, 0)
        } else if fuel == 0 {
            LPRes::LPOut
        } else {
            match toks[j].0 {
                Lex::OpenParen => parse_list_at(toks, j, (fuel - 1) as nat),
                Lex::Symbol(x) => LPRes::LPOk(ExprModel::Symbol(x), toks[j].1, toks[j].2, j + 1),
                Lex::Number(v) => LPRes::LPOk(ExprModel::Number(v), toks[j].1, toks[j].2, j + 1),
                lex => LPRes::LPErr("Unexpected token: "@ + lex_debug(lex), toks[j].1, toks[j].2),
            }
        }
    }
}

/// Specification of `parse_list`: the items between the parentheses, with
/// the covering span of the whole form.
pub open spec fn parse_list_at(toks: Seq<(Lex, int, int)>, j: int, fuel: nat) -> LPRes
    decreases fuel,
{
    if fuel == 0 {
        LPRes::LPOut
    } else {
        match parse_items_at(toks, j + 1, (fuel - 1) as nat) {
            LIRes::IOk(items, jc) => {
                let all_spans = seq![(toks[j].1, toks[j].2)] + items.map_values(
                    |it: (ExprModel, int, int)| (it.1, it.2),
                ) + seq![(toks[jc].1, toks[jc].2)];
                let mn = spans_min_start(all_spans);
                let mx = spans_max_end(all_spans);
                LPRes::LPOk(
                    ExprModel::List(items.map_values(|it: (ExprModel, int, int)| it.0)),
                    mn,
                    mx - mn,
                    jc + 1,
                )
            },
            LIRes::IErr(m, st, l) => LPRes::LPErr(m, st, l),
            LIRes::IOut => LPRes::LPOut,
        }
    }
}

/// Specification of the `parse_list` item loop: expressions up to, but not
/// including, the closing parenthesis.
pub open spec fn parse_items_at(toks: Seq<(Lex, int, int)>, m: int, fuel: nat) -> LIRes
    decreases fuel,
{
    if m < 0 || m > toks.len() {
        LIRes::IErr("Unexpected end of input"@, 0, 0)
    } else {
        let j = skip_at(toks, m);
        if j >= toks.len() {
            LIRes::IErr("Unexpected end of input"@, 0, 0)
        } else if fuel == 0 {
            LIRes::IOut
        } else if toks[j].0 is CloseParen {
            LIRes::IOk(Seq::empty(), j)
        } else {
            match parse_expr_at(toks, j, (fuel - 1) as nat) {
                LPRes::LPOk(em, st, l, n) => match parse_items_at(toks, n, (fuel - 1) as nat) {
                    LIRes::IOk(rest, jc) => LIRes::IOk(seq![(em, st, l)] + rest, jc),
                    other => other,
                },
                LPRes::LPErr(m2, st, l) => LIRes::IErr(m2, st, l),
                LPRes::LPOut => LIRes::IOut,
            }
        }
    }
}

/// A successful expression parse makes progress and stays within bounds,
/// and every reported span lies within the token spans' bound.
pub proof fn lemma_lp_progress(toks: Seq<(Lex, int, int)>, i: int, fuel: nat, b: int)
    requires
        tokens_bounded(toks, b),
        b >= 0,
    ensures
        parse_expr_at(toks, i, fuel) matches LPRes::LPOk(em, st, l, n) ==> i < n <= toks.len() && 0
            <= st && 0 <= l && st + l <= b,
        parse_expr_at(toks, i, fuel) matches LPRes::LPErr(m, st, l) ==> 0 <= st && 0 <= l && st + l
            <= b,
    decreases fuel, 1int,
{
    if 0 <= i <= toks.len() {
        lemma_skip_at(toks, i);
        let j = skip_at(toks, i);
        if j < toks.len() && fuel > 0 {
            if toks[j].0 is OpenParen {
                lemma_ll_progress(toks, j, (fuel - 1) as nat, b);
            }
        }
    }
}

/// A successful list parse makes progress past its closing parenthesis and
/// stays within bounds.
pub proof fn lemma_ll_progress(toks: Seq<(Lex, int, int)>, j: int, fuel: nat, b: int)
    requires
        tokens_bounded(toks, b),
        b >= 0,
        0 <= j < toks.len(),
    ensures
        parse_list_at(toks, j, fuel) matches LPRes::LPOk(em, st, l, n) ==> j < n <= toks.len() && 0
            <= st && 0 <= l && st + l <= b,
        parse_list_at(toks, j, fuel) matches LPRes::LPErr(m, st, l) ==> 0 <= st && 0 <= l && st + l
            <= b,
    decreases fuel, 0int,
{
    if fuel > 0 {
        lemma_li_progress(toks, j + 1, (fuel - 1) as nat, b);
        match parse_items_at(toks, j + 1, (fuel - 1) as nat) {
            LIRes::IOk(items, jc) => {
                let all_spans = seq![(toks[j].1, toks[j].2)] + items.map_values(
                    |it: (ExprModel, int, int)| (it.1, it.2),
                ) + seq![(toks[jc].1, toks[jc].2)];
                lemma_spans_min_max(all_spans);
                assert(all_spans[0] == (toks[j].1, toks[j].2));
                assert(all_spans.last() == (toks[jc].1, toks[jc].2));
                assert forall|k: int| 0 <= k < all_spans.len() implies 0 <= #[trigger] all_spans[
                    k
                ].0 && all_spans[k].0 + all_spans[k].1 <= b by {
                    if 0 < k < all_spans.len() - 1 {
                        assert(all_spans[k] == items.map_values(
                            |it: (ExprModel, int, int)| (it.1, it.2),
                        )[k - 1]);
                        assert(items.map_values(|it: (ExprModel, int, int)| (it.1, it.2))[k - 1]
                            == (items[k - 1].1, items[k - 1].2));
                    }
                }
                let km = choose|k: int|
                    0 <= k < all_spans.len() && spans_min_start(all_spans) == all_spans[k].0;
                let kx = choose|k: int|
                    0 <= k < all_spans.len() && spans_max_end(all_spans) == all_spans[k].0
                        + all_spans[k].1;
                assert(spans_min_start(all_spans) <= all_spans[0].0);
                assert(all_spans[0].0 + all_spans[0].1 <= spans_max_end(all_spans));
            },
            _ => {},
        }
    }
}

/// A successful item-list parse ends on a closing parenthesis, makes
/// progress, and stays within bounds; each item records its own span.
pub proof fn lemma_li_progress(toks: Seq<(Lex, int, int)>, m: int, fuel: nat, b: int)
    requires
        tokens_bounded(toks, b),
        b >= 0,
    ensures
        parse_items_at(toks, m, fuel) matches LIRes::IOk(items, jc) ==> m <= jc < toks.len()
            && toks[jc].0 is CloseParen && (forall|k: int|
            0 <= k < items.len() ==> 0 <= #[trigger] items[k].1 && 0 <= items[k].2 && items[k].1
                + items[k].2 <= b),
        parse_items_at(toks, m, fuel) matches LIRes::IErr(m2, st, l) ==> 0 <= st && 0 <= l && st + l
            <= b,
    decreases fuel, 2int,
{
    if 0 <= m <= toks.len() {
        lemma_skip_at(toks, m);
        let j = skip_at(toks, m);
        if j < toks.len() && fuel > 0 && !(toks[j].0 is CloseParen) {
            lemma_lp_progress(toks, j, (fuel - 1) as nat, b);
            match parse_expr_at(toks, j, (fuel - 1) as nat) {
                LPRes::LPOk(em, st, l, n) => {
                    lemma_li_progress(toks, n, (fuel - 1) as nat, b);
                    match parse_items_at(toks, n, (fuel - 1) as nat) {
                        LIRes::IOk(rest, jc) => {
                            assert forall|k: int|
                                0 <= k < (seq![(em, st, l)] + rest).len() implies 0 <= #[trigger] (
                                seq![(em, st, l)] + rest)[k].1 && 0 <= (seq![(em, st, l)]
                                + rest)[k].2 && (seq![(em, st, l)] + rest)[k].1 + (seq![(em, st, l)]
                                + rest)[k].2 <= b by {
                                if k > 0 {
                                    assert((seq![(em, st, l)] + rest)[k] == rest[k - 1]);
                                }
                            }
                        },
                        _ => {},
                    }
                },
                _ => {},
            }
        }
    }
}

/// With sufficient budgets the expression parser never runs out of fuel,
/// and any two sufficient budgets agree.
pub proof fn lemma_lp_fuel(toks: Seq<(Lex, int, int)>, i: int, f1: nat, f2: nat, b: int)
    requires
        tokens_bounded(toks, b),
        b >= 0,
        f1 >= expr_fuel(toks.len(), i),
        f2 >= expr_fuel(toks.len(), i),
    ensures
        parse_expr_at(toks, i, f1) == parse_expr_at(toks, i, f2),
        !(parse_expr_at(toks, i, f1) is LPOut),
    decreases f1, 1int,
{
    if 0 <= i <= toks.len() {
        lemma_skip_at(toks, i);
        let j = skip_at(toks, i);
        if j < toks.len() {
            if toks[j].0 is OpenParen {
                lemma_ll_fuel(toks, j, (f1 - 1) as nat, (f2 - 1) as nat, b);
            }
        }
    }
}

/// With sufficient budgets the list parser never runs out of fuel, and any
/// two sufficient budgets agree.
pub proof fn lemma_ll_fuel(toks: Seq<(Lex, int, int)>, j: int, f1: nat, f2: nat, b: int)
    requires
        tokens_bounded(toks, b),
        b >= 0,
        0 <= j < toks.len(),
        f1 >= list_fuel(toks.len(), j),
        f2 >= list_fuel(toks.len(), j),
    ensures
        parse_list_at(toks, j, f1) == parse_list_at(toks, j, f2),
        !(parse_list_at(toks, j, f1) is LPOut),
    decreases f1, 0int,
{
    lemma_li_fuel(toks, j + 1, (f1 - 1) as nat, (f2 - 1) as nat, b);
}

/// Advances past whitespace and comment tokens.
pub fn skip_whitespace(tokens: &Vec<Spanned<Token>>, i: usize) -> (r: usize)
    ensures
        i <= tokens@.len() ==> r == skip_at(token_views(tokens@), i as int),
        i > tokens@.len() ==> r == i,
        i <= r,
        r <= tokens@.len() || r == i,
    decreases tokens@.len() - i,
{
    if i >= tokens.len() {
        return i;
    }
    let skippable = match &tokens[i].item {
        Token::Whitespace(_) => true,
        Token::Comment(_) => true,
        _ => false,
    };
    if skippable {
        skip_whitespace(tokens, i + 1)
    } else {
        i
    }
}

/// Whether two tokens have the same classification and payload.
pub fn token_eq(a: &Token, b: &Token) -> (r: bool)
    ensures
        r == (lex_of(*a) == lex_of(*b)),
{
    match (a, b) {
        (Token::OpenParen, Token::OpenParen) => true,
        (Token::CloseParen, Token::CloseParen) => true,
        (Token::Symbol(x), Token::Symbol(y)) => str_eq(x.as_str(), y.as_str()),
        (Token::Number(x), Token::Number(y)) => x == y,
        (Token::String(x), Token::String(y)) => str_eq(x.as_str(), y.as_str()),
        (Token::Quote, Token::Quote) => true,
        (Token::Backquote, Token::Backquote) => true,
        (Token::Comma, Token::Comma) => true,
        (Token::True, Token::True) => true,
        (Token::False, Token::False) => true,
        (Token::Nil, Token::Nil) => true,
        (Token::Comment(x), Token::Comment(y)) => str_eq(x.as_str(), y.as_str()),
        (Token::Plus, Token::Plus) => true,
        (Token::Minus, Token::Minus) => true,
        (Token::Multiply, Token::Multiply) => true,
        (Token::Divide, Token::Divide) => true,
        (Token::Equal, Token::Equal) => true,
        (Token::LessThan, Token::LessThan) => true,
        (Token::GreaterThan, Token::GreaterThan) => true,
        (Token::Whitespace(x), Token::Whitespace(y)) => str_eq(x.as_str(), y.as_str()),
        _ => false,
    }
}

/// Consumes the token at index `i`, which must equal `expected`.
pub fn expect(tokens: &Vec<Spanned<Token>>, i: usize, expected: &Token, msg: &str) -> (r: Result<
    usize,
    ParseError,
>)
    ensures
        i < tokens@.len() && lex_of(tokens@[i as int].item) == lex_of(*expected) ==> (r matches Ok(
            j,
        ) && j == i + 1),
        i < tokens@.len() && lex_of(tokens@[i as int].item) != lex_of(*expected) ==> (r matches Err(
            e,
        ) && e.message@ == msg@ && e.span == tokens@[i as int].span),
        i >= tokens@.len() ==> (r matches Err(e) && e.message@ == msg@ && e.span == (Span {
            start: 0,
            length: 0,
        })),
{
    if i >= tokens.len() {
        return Err(parse_err(msg, Span { start: 0, length: 0 }));
    }
    if token_eq(&tokens[i].item, expected) {
        Ok(i + 1)
    } else {
        Err(parse_err(msg, tokens[i].span))
    }
}

/// Consumes the token at index `i`, which must be a symbol, and returns its
/// name.
pub fn expect_identifier(tokens: &Vec<Spanned<Token>>, i: usize) -> (r: Result<
    (String, usize),
    ParseError,
>)
    ensures
        ({
            let toks = token_views(tokens@);
            &&& (i < toks.len() ==> (toks[i as int].0 matches Lex::Symbol(x) ==> (r matches Ok(p)
                && p.0@ == x && p.1 == i + 1)))
            &&& (i < toks.len() && !(toks[i as int].0 is Symbol) ==> (r matches Err(e) && e.message@
                == "Expected identifier"@ && e.span == tokens@[i as int].span))
            &&& (i >= toks.len() ==> (r matches Err(e) && e.message@
                == "expected identifier, got end of input"@ && e.span == (Span {
                start: 0,
                length: 0,
            })))
        }),
{
    if i >= tokens.len() {
        return Err(
            parse_err("expected identifier, got end of input", Span { start: 0, length: 0 }),
        );
    }
    match &tokens[i].item {
        Token::Symbol(x) => Ok((x.clone(), i + 1)),
        _ => Err(parse_err("Expected identifier", tokens[i].span)),
    }
}

/// Consumes the symbol token at index `i` as a symbol expression carrying
/// that token's span.
pub fn parse_symbol(tokens: &Vec<Spanned<Token>>, i: usize) -> (r: Result<(SExpr, usize), ParseError>)
    ensures
        ({
            let toks = token_views(tokens@);
            &&& (i < toks.len() ==> (toks[i as int].0 matches Lex::Symbol(x) ==> (r matches Ok(p)
                && expr_model_spanned(p.0) == ExprModel::Symbol(x) && p.0.span
                == tokens@[i as int].span && p.1 == i + 1)))
            &&& (i < toks.len() && !(toks[i as int].0 is Symbol) ==> (r matches Err(e) && e.message@
                == "Expected symbol"@ && e.span == tokens@[i as int].span))
            &&& (i >= toks.len() ==> (r matches Err(e) && e.message@ == "Unexpected end of input"@
                && e.span == (Span { start: 0, length: 0 })))
        }),
{
    if i >= tokens.len() {
        return Err(parse_err("Unexpected end of input", Span { start: 0, length: 0 }));
    }
    match &tokens[i].item {
        Token::Symbol(x) => Ok((Spanned::new(Expr::Symbol(x.clone()), tokens[i].span), i + 1)),
        _ => Err(parse_err("Expected symbol", tokens[i].span)),
    }
}

/// Consumes the number token at index `i` as a number expression carrying
/// that token's span.
pub fn parse_number(tokens: &Vec<Spanned<Token>>, i: usize) -> (r: Result<(SExpr, usize), ParseError>)
    ensures
        ({
            let toks = token_views(tokens@);
            &&& (i < toks.len() ==> (toks[i as int].0 matches Lex::Number(v) ==> (r matches Ok(p)
                && expr_model_spanned(p.0) == ExprModel::Number(v) && p.0.span
                == tokens@[i as int].span && p.1 == i + 1)))
            &&& (i < toks.len() && !(toks[i as int].0 is Number) ==> (r matches Err(e) && e.message@
                == "Expected number"@ && e.span == tokens@[i as int].span))
            &&& (i >= toks.len() ==> (r matches Err(e) && e.message@ == "Unexpected end of input"@
                && e.span == (Span { start: 0, length: 0 })))
        }),
{
    if i >= tokens.len() {
        return Err(parse_err("Unexpected end of input", Span { start: 0, length: 0 }));
    }
    match &tokens[i].item {
        Token::Number(n) => Ok((Spanned::new(Expr::Number(*n), tokens[i].span), i + 1)),
        _ => Err(parse_err("Expected number", tokens[i].span)),
    }
}

/// With sufficient budgets the item-list parser never runs out of fuel, and
/// any two sufficient budgets agree.
pub proof fn lemma_li_fuel(toks: Seq<(Lex, int, int)>, m: int, f1: nat, f2: nat, b: int)
    requires
        tokens_bounded(toks, b),
        b >= 0,
        f1 >= items_fuel(toks.len(), m),
        f2 >= items_fuel(toks.len(), m),
    ensures
        parse_items_at(toks, m, f1) == parse_items_at(toks, m, f2),
        !(parse_items_at(toks, m, f1) is IOut),
    decreases f1, 2int,
{
    if 0 <= m <= toks.len() {
        lemma_skip_at(toks, m);
        let j = skip_at(toks, m);
        if j < toks.len() && !(toks[j].0 is CloseParen) {
            lemma_lp_fuel(toks, j, (f1 - 1) as nat, (f2 - 1) as nat, b);
            lemma_lp_progress(toks, j, (f1 - 1) as nat, b);
            match parse_expr_at(toks, j, (f1 - 1) as nat) {
                LPRes::LPOk(em, st, l, n) => {
                    lemma_li_fuel(toks, n, (f1 - 1) as nat, (f2 - 1) as nat, b);
                },
                _ => {},
            }
        }
    }
}

/// The model-and-span triples of a list of parsed expressions.
pub open spec fn item_triples(items: Seq<SExpr>) -> Seq<(ExprModel, int, int)> {
    Seq::new(
        items.len(),
        |k: int|
            (expr_model_spanned(items[k]), items[k].span.start as int, items[k].span.length as int),
    )
}

/// Spans as pairs of start and length.
pub open spec fn span_pairs(sp: Seq<Span>) -> Seq<(int, int)> {
    sp.map_values(|x: Span| (x.start as int, x.length as int))
}

/// Parses one expression starting at token index `i`, skipping leading
/// whitespace and comments, exactly as `parse_expr_at` specifies.
pub fn parse_expression(tokens: &Vec<Spanned<Token>>, i: usize) -> (r: Result<
    (SExpr, usize),
    ParseError,
>)
    requires
        tokens_bounded(token_views(tokens@), usize::MAX as int),
    ensures
        ({
            let toks = token_views(tokens@);
            match parse_expr_at(toks, i as int, expr_fuel(toks.len(), i as int)) {
                LPRes::LPOk(em, st, l, n) => r matches Ok(p) && expr_model_spanned(p.0) == em
                    && p.0.span.start == st && p.0.span.length == l && p.1 == n,
                LPRes::LPErr(m, st, l) => r matches Err(e) && e.message@ == m && e.span.start == st
                    && e.span.length == l,
                LPRes::LPOut => false,
            }
        }),
    decreases tokens@.len() - i, 1int,
{
    let ghost toks = token_views(tokens@);
    if i > tokens.len() {
        return Err(parse_err("Unexpected end of input", Span { start: 0, length: 0 }));
    }
    let j = skip_whitespace(tokens, i);
    proof {
        lemma_skip_at(toks, i as int);
    }
    if j >= tokens.len() {
        return Err(parse_err("Unexpected end of input", Span { start: 0, length: 0 }));
    }
    match &tokens[j].item {
        Token::OpenParen => {
            proof {
                lemma_ll_fuel(
                    toks,
                    j as int,
                    (expr_fuel(toks.len(), i as int) - 1) as nat,
                    list_fuel(toks.len(), j as int),
                    usize::MAX as int,
                );
            }
            parse_list(tokens, j)
        },
        Token::Symbol(_) => parse_symbol(tokens, j),
        Token::Number(_) => parse_number(tokens, j),
        t => {
            let mut message = String::new();
            message.append("Unexpected token: ");
            let ds = token_debug_string(t);
            message.append(ds.as_str());
            proof {
                assert(message@ =~= "Unexpected token: "@ + lex_debug(
                    lex_of(tokens@[j as int].item),
                ));
            }
            Err(ParseError { message, span: tokens[j].span })
        },
    }
}

/// Parses a parenthesized list form whose opening parenthesis stands at
/// token index `i`, exactly as `parse_list_at` specifies. The span of the
/// resulting expression covers the full form, parentheses included.
pub fn parse_list(tokens: &Vec<Spanned<Token>>, i: usize) -> (r: Result<(SExpr, usize), ParseError>)
    requires
        tokens_bounded(token_views(tokens@), usize::MAX as int),
        i < tokens@.len(),
        token_views(tokens@)[i as int].0 is OpenParen,
    ensures
        ({
            let toks = token_views(tokens@);
            match parse_list_at(toks, i as int, list_fuel(toks.len(), i as int)) {
                LPRes::LPOk(em, st, l, n) => r matches Ok(p) && expr_model_spanned(p.0) == em
                    && p.0.span.start == st && p.0.span.length == l && p.1 == n,
                LPRes::LPErr(m, st, l) => r matches Err(e) && e.message@ == m && e.span.start == st
                    && e.span.length == l,
                LPRes::LPOut => false,
            }
        }),
    decreases tokens@.len() - i, 0int,
{
    let ghost toks = token_views(tokens@);
    let ghost len = toks.len();
    let j = match expect(tokens, i, &Token::OpenParen, "Expected open paren") {
        Ok(j) => j,
        Err(e) => {
            proof {
                assert(false);
            }
            return Err(e);
        },
    };
    let mut items: Vec<SExpr> = Vec::new();
    let mut spans: Vec<Span> = Vec::new();
    spans.push(tokens[i].span);
    let mut cur: usize = j;
    proof {
        lemma_li_fuel(
            toks,
            j as int,
            items_fuel(len, j as int),
            items_fuel(len, j as int),
            usize::MAX as int,
        );
        assert(item_triples(items@) =~= Seq::<(ExprModel, int, int)>::empty());
        match parse_items_at(toks, j as int, items_fuel(len, j as int)) {
            LIRes::IOk(ms, jc) => {
                assert(item_triples(items@) + ms =~= ms);
            },
            _ => {},
        }
    }
    loop
        invariant_except_break
            tokens_bounded(toks, usize::MAX as int),
            toks == token_views(tokens@),
            len == toks.len(),
            i < len,
            toks[i as int].0 is OpenParen,
            i + 1 == j,
            j <= cur <= len,
            spans@.len() == items@.len() + 1,
            spans@[0] == tokens@[i as int].span,
            forall|k: int| 0 <= k < items@.len() ==> #[trigger] spans@[k + 1] == items@[k].span,
            ({
                match parse_items_at(toks, cur as int, items_fuel(len, cur as int)) {
                    LIRes::IOk(ms, jc) => parse_items_at(toks, j as int, items_fuel(len, j as int))
                        == LIRes::IOk(item_triples(items@) + ms, jc),
                    LIRes::IErr(m, st, l) => parse_items_at(
                        toks,
                        j as int,
                        items_fuel(len, j as int),
                    ) == LIRes::IErr(m, st, l),
                    LIRes::IOut => false,
                }
            }),
        ensures
            tokens_bounded(toks, usize::MAX as int),
            toks == token_views(tokens@),
            len == toks.len(),
            i < len,
            toks[i as int].0 is OpenParen,
            i + 1 == j,
            j <= cur < len,
            toks[cur as int].0 is CloseParen,
            spans@.len() == items@.len() + 1,
            spans@[0] == tokens@[i as int].span,
            forall|k: int| 0 <= k < items@.len() ==> #[trigger] spans@[k + 1] == items@[k].span,
            parse_items_at(toks, j as int, items_fuel(len, j as int)) == LIRes::IOk(
                item_triples(items@),
                cur as int,
            ),
        decreases len - cur,
    {
        let j2 = skip_whitespace(tokens, cur);
        proof {
            lemma_skip_at(toks, cur as int);
        }
        if j2 >= tokens.len() {
            return Err(parse_err("Unexpected end of input", Span { start: 0, length: 0 }));
        }
        let is_close = match &tokens[j2].item {
            Token::CloseParen => true,
            _ => false,
        };
        if is_close {
            cur = j2;
            proof {
                assert(item_triples(items@) + Seq::<(ExprModel, int, int)>::empty() =~= item_triples(
                    items@,
                ));
            }
            break ;
        }
        proof {
            lemma_lp_fuel(
                toks,
                j2 as int,
                (items_fuel(len, cur as int) - 1) as nat,
                expr_fuel(len, j2 as int),
                usize::MAX as int,
            );
        }
        let (se, n) = match parse_expression(tokens, j2) {
            Ok(p) => p,
            Err(e) => {
                return Err(e);
            },
        };
        proof {
            lemma_lp_progress(toks, j2 as int, expr_fuel(len, j2 as int), usize::MAX as int);
            lemma_li_fuel(
                toks,
                n as int,
                (items_fuel(len, cur as int) - 1) as nat,
                items_fuel(len, n as int),
                usize::MAX as int,
            );
        }
        let ghost items0 = items@;
        spans.push(se.span);
        items.push(se);
        proof {
            assert(item_triples(items@) =~= item_triples(items0).push(
                (
                    expr_model_spanned(se),
                    se.span.start as int,
                    se.span.length as int,
                ),
            ));
            match parse_items_at(toks, n as int, items_fuel(len, n as int)) {
                LIRes::IOk(ms, jc) => {
                    assert(item_triples(items0) + (seq![
                        (
                            expr_model_spanned(se),
                            se.span.start as int,
                            se.span.length as int,
                        ),
                    ] + ms) =~= item_triples(items@) + ms);
                },
                _ => {},
            }
        }
        cur = n;
    }
    let j3 = match expect(tokens, cur, &Token::CloseParen, "Expected close paren") {
        Ok(j3) => j3,
        Err(e) => {
            proof {
                assert(false);
            }
            return Err(e);
        },
    };
    let ghost spans0 = spans@;
    spans.push(tokens[cur].span);
    let ghost all_spans = seq![(toks[i as int].1, toks[i as int].2)] + item_triples(
        items@,
    ).map_values(|it: (ExprModel, int, int)| (it.1, it.2)) + seq![
        (toks[cur as int].1, toks[cur as int].2),
    ];
    proof {
        lemma_li_progress(toks, j as int, items_fuel(len, j as int), usize::MAX as int);
        assert(span_pairs(spans@) =~= all_spans) by {
            assert forall|k: int| 0 <= k < spans@.len() implies span_pairs(spans@)[k]
                == all_spans[k] by {
                if k == 0 {
                    assert(spans@[k] == spans0[0]);
                } else if k < spans@.len() - 1 {
                    assert(spans@[k] == spans0[k]);
                    assert(spans0[(k - 1) + 1] == items@[k - 1].span);
                    assert(all_spans[k] == item_triples(items@).map_values(
                        |it: (ExprModel, int, int)| (it.1, it.2),
                    )[k - 1]);
                } else {
                    assert(spans@[k] == tokens@[cur as int].span);
                }
            }
        }
        assert forall|k: int| 0 <= k < spans@.len() implies span_end(#[trigger] spans@[k])
            <= usize::MAX as int by {
            assert(all_spans[k] == (spans@[k].start as int, spans@[k].length as int));
            if k == 0 || k == spans@.len() - 1 {
            } else {
                assert(all_spans[k] == item_triples(items@).map_values(
                    |it: (ExprModel, int, int)| (it.1, it.2),
                )[k - 1]);
                assert(item_triples(items@)[k - 1].1 + item_triples(items@)[k - 1].2
                    <= usize::MAX as int);
            }
        }
    }
    let merged = Span::merge(&spans);
    proof {
        lemma_spans_min_max(all_spans);
        assert forall|k: int| 0 <= k < all_spans.len() implies all_spans[k] == (
        spans@[k].start as int, spans@[k].length as int) by {
            assert(all_spans[k] == span_pairs(spans@)[k]);
        }
        let km = choose|k: int|
            0 <= k < all_spans.len() && spans_min_start(all_spans) == all_spans[k].0;
        let kx = choose|k: int|
            0 <= k < all_spans.len() && spans_max_end(all_spans) == all_spans[k].0 + all_spans[k].1;
        let wm = choose|w: int| 0 <= w < spans@.len() && merged.start == spans@[w].start;
        let wx = choose|w: int| 0 <= w < spans@.len() && span_end(merged) == span_end(spans@[w]);
        assert(merged.start <= spans@[km].start);
        assert(all_spans[km].0 == spans@[km].start);
        assert(spans_min_start(all_spans) <= all_spans[wm].0);
        assert(all_spans[wm].0 == spans@[wm].start);
        assert(merged.start == spans_min_start(all_spans));
        assert(span_end(spans@[kx]) <= span_end(merged));
        assert(all_spans[kx].0 + all_spans[kx].1 == span_end(spans@[kx]));
        assert(all_spans[wx].0 + all_spans[wx].1 <= spans_max_end(all_spans));
        assert(span_end(spans@[wx]) == all_spans[wx].0 + all_spans[wx].1);
        assert(span_end(merged) == spans_max_end(all_spans));
        lemma_expr_models(items@);
        assert(expr_models(items@) =~= item_triples(items@).map_values(
            |it: (ExprModel, int, int)| it.0,
        ));
    }
    Ok((Spanned::new(Expr::List(items), merged), j3))
}

/// Parses a whole token list as one expression.
pub fn parse(tokens: &Vec<Spanned<Token>>) -> (r: Result<SExpr, ParseError>)
    requires
        tokens_bounded(token_views(tokens@), usize::MAX as int),
    ensures
        ({
            let toks = token_views(tokens@);
            match parse_expr_at(toks, 0, expr_fuel(toks.len(), 0)) {
                LPRes::LPOk(em, st, l, n) => r matches Ok(se) && expr_model_spanned(se) == em
                    && se.span.start == st && se.span.length == l,
                LPRes::LPErr(m, st, l) => r matches Err(e) && e.message@ == m && e.span.start == st
                    && e.span.length == l,
                LPRes::LPOut => false,
            }
        }),
{
    match parse_expression(tokens, 0) {
        Ok((se, _idx)) => Ok(se),
        Err(e) => Err(e),
    }
}

} // verus!
