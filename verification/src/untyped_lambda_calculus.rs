//! The untyped lambda calculus: a span-tracking tokenizer for the lambda
//! glyph (or backslash), dot, parentheses, identifiers and whitespace runs
//! (kept as tokens), and a recursive-descent parser for left-associative
//! application, with abstractions binding as the rightmost atom of an
//! application or a standalone term. Only tokenizing and parsing are
//! implemented for this language.

use crate::parsing_utils::InputIterator;
use crate::parsing_utils::ParseError;
use crate::parsing_utils::Span;
use crate::parsing_utils::Spanned;
use crate::parsing_utils::TokenizeError;
use crate::parsing_utils::is_digit_char;
use crate::parsing_utils::is_letter;
use crate::parsing_utils::is_letter_char;
use crate::parsing_utils::is_digit;
use crate::parsing_utils::is_ws;
use crate::parsing_utils::is_ws_char;
use crate::parsing_utils::parse_err;
use crate::parsing_utils::push_char;
use crate::parsing_utils::render_error;
use crate::parsing_utils::tokenize_error_to_string;
use crate::parsing_utils::parse_error_to_string;
use vstd::prelude::*;
use vstd::string::StrSliceExecFns;
use vstd::string::StringExecFns;

verus! {

/// A token of the untyped lambda calculus.
#[derive(Debug, PartialEq, Eq)]
pub enum Token {
    Lambda,
    Dot,
    LParen,
    RParen,
    Identifier(String),
    Whitespace(String),
}

/// The mathematical model of a token.
pub enum LamLex {
    Lambda,
    Dot,
    LParen,
    RParen,
    Identifier(Seq<char>),
    Whitespace(Seq<char>),
}

/// The model of a token.
pub open spec fn lam_lex_of(t: Token) -> LamLex {
    match t {
        Token::Lambda => LamLex::Lambda,
        Token::Dot => LamLex::Dot,
        Token::LParen => LamLex::LParen,
        Token::RParen => LamLex::RParen,
        Token::Identifier(s) => LamLex::Identifier(s@),
        Token::Whitespace(s) => LamLex::Whitespace(s@),
    }
}

/// Whether a character may continue an identifier.
pub open spec fn is_ident_char(c: char) -> bool {
    is_letter_char(c) || is_digit_char(c)
}

/// Executable counterpart of `is_ident_char`.
fn is_ident(c: char) -> (r: bool)
    ensures
        r == is_ident_char(c),
{
    is_letter(c) || is_digit(c)
}

/// The first offset at or after `i` not holding whitespace.
pub open spec fn ws_end(s: Seq<char>, i: int) -> int
    decreases s.len() - i when 0 <= i <= s.len()
{
    if i >= s.len() {
        s.len() as int
    } else if is_ws_char(s[i]) {
        ws_end(s, i + 1)
    } else {
        i
    }
}

/// `ws_end` lands on the first non-whitespace character.
pub proof fn lemma_ws_end(s: Seq<char>, i: int)
    requires
        0 <= i <= s.len(),
    ensures
        i <= ws_end(s, i) <= s.len(),
        forall|j: int| i <= j < ws_end(s, i) ==> is_ws_char(s[j]),
        ws_end(s, i) < s.len() ==> !is_ws_char(s[ws_end(s, i)]),
    decreases s.len() - i,
{
    if i < s.len() && is_ws_char(s[i]) {
        lemma_ws_end(s, i + 1);
    }
}

/// The first offset at or after `i` not holding an identifier character.
pub open spec fn ident_end(s: Seq<char>, i: int) -> int
    decreases s.len() - i when 0 <= i <= s.len()
{
    if i >= s.len() {
        s.len() as int
    } else if is_ident_char(s[i]) {
        ident_end(s, i + 1)
    } else {
        i
    }
}

/// `ident_end` lands on the first non-identifier character.
pub proof fn lemma_ident_end(s: Seq<char>, i: int)
    requires
        0 <= i <= s.len(),
    ensures
        i <= ident_end(s, i) <= s.len(),
        forall|j: int| i <= j < ident_end(s, i) ==> is_ident_char(s[j]),
        ident_end(s, i) < s.len() ==> !is_ident_char(s[ident_end(s, i)]),
    decreases s.len() - i,
{
    if i < s.len() && is_ident_char(s[i]) {
        lemma_ident_end(s, i + 1);
    }
}

/// What the tokenizer does at one position: emits a token (with its model,
/// span start, span length and the position after it), fails, or is at the
/// end of the input.
pub enum LamNext {
    LTok(LamLex, int, int, int),
    LErr(Seq<char>, int, int),
    LEnd,
}

/// One step of the tokenizer state machine at offset `i` of `s`.
pub open spec fn lambda_next(s: Seq<char>, i: int) -> LamNext {
    if i >= s.len() {
        LamNext::LEnd
    } else {
        let c = s[i];
        if c == '\u{03bb}' || c == '\\' {
            LamNext::LTok(LamLex::Lambda, i, 1, i + 1)
        } else if c == '.' {
            LamNext::LTok(LamLex::Dot, i, 1, i + 1)
        } else if c == '(' {
            LamNext::LTok(LamLex::LParen, i, 1, i + 1)
        } else if c == ')' {
            LamNext::LTok(LamLex::RParen, i, 1, i + 1)
        } else if is_ws_char(c) {
            let k = ws_end(s, i);
            LamNext::LTok(LamLex::Whitespace(s.subrange(i, k)), i, k - i, k)
        } else if is_letter_char(c) {
            let k = ident_end(s, i);
            LamNext::LTok(LamLex::Identifier(s.subrange(i, k)), i, k - i, k)
        } else {
            LamNext::LErr("Unexpected character"@, i, 1)
        }
    }
}

/// Every emitted token starts where the step began, spans exactly the
/// consumed characters, and makes progress.
pub proof fn lemma_lambda_next(s: Seq<char>, i: int)
    requires
        0 <= i <= s.len(),
    ensures
        lambda_next(s, i) matches LamNext::LTok(lex, st, l, k) ==> st == i && l == k - i && i < k
            <= s.len(),
        lambda_next(s, i) matches LamNext::LErr(m, st, l) ==> 0 <= st && 0 <= l && st + l
            <= s.len(),
{
    if i < s.len() && !(s[i] == '\u{03bb}' || s[i] == '\\' || s[i] == '.' || s[i] == '(' || s[i]
        == ')') {
        if is_ws_char(s[i]) {
            lemma_ws_end(s, i);
        } else if is_letter_char(s[i]) {
            lemma_ident_end(s, i);
        }
    }
}

/// The token models and spans the tokenizer emits from offset `i` to the
/// end of `s`, or the error that stops it. Whitespace runs are kept as
/// tokens.
pub open spec fn lambda_tokens_from(s: Seq<char>, i: int) -> Result<
    Seq<(LamLex, int, int)>,
    (Seq<char>, int, int),
>
    decreases s.len() - i when 0 <= i <= s.len()
{
    match lambda_next(s, i) {
        LamNext::LEnd => Ok(Seq::empty()),
        LamNext::LErr(m, st, l) => Err((m, st, l)),
        LamNext::LTok(lex, st, l, k) => {
            proof {
                lemma_lambda_next(s, i);
            }
            match lambda_tokens_from(s, k) {
                Ok(rest) => Ok(seq![(lex, st, l)] + rest),
                Err(e) => Err(e),
            }
        },
    }
}

/// Every token span and error span the tokenizer produces lies within the
/// input.
pub proof fn lemma_lambda_tokens_bounded(s: Seq<char>, i: int)
    requires
        0 <= i <= s.len(),
    ensures
        lambda_tokens_from(s, i) matches Ok(lexes) ==> forall|k: int|
            0 <= k < lexes.len() ==> 0 <= #[trigger] lexes[k].1 && 0 <= lexes[k].2 && lexes[k].1
                + lexes[k].2 <= s.len(),
        lambda_tokens_from(s, i) matches Err(e) ==> 0 <= e.1 && 0 <= e.2 && e.1 + e.2 <= s.len(),
    decreases s.len() - i,
{
    lemma_lambda_next(s, i);
    match lambda_next(s, i) {
        LamNext::LTok(lex, st, l, k) => {
            lemma_lambda_tokens_bounded(s, k);
            match lambda_tokens_from(s, k) {
                Ok(rest) => {
                    assert forall|m: int|
                        0 <= m < (seq![(lex, st, l)] + rest).len() implies 0 <= #[trigger] (seq![
                        (lex, st, l),
                    ] + rest)[m].1 && 0 <= (seq![(lex, st, l)] + rest)[m].2 && (seq![(lex, st, l)]
                        + rest)[m].1 + (seq![(lex, st, l)] + rest)[m].2 <= s.len() by {
                        if m > 0 {
                            assert((seq![(lex, st, l)] + rest)[m] == rest[m - 1]);
                        }
                    }
                },
                Err(_) => {},
            }
        },
        _ => {},
    }
}

/// The substring of `s` at `[st, st + l)` is exactly the literal text that
/// produces the token `lex`. The lambda token has two spellings: the
/// lambda glyph and the backslash.
pub open spec fn lam_lex_spelled(s: Seq<char>, lex: LamLex, st: int, l: int) -> bool {
    0 <= st && st + l <= s.len() && {
        let text = s.subrange(st, st + l);
        match lex {
            LamLex::Lambda => text == seq!['\u{03bb}'] || text == seq!['\\'],
            LamLex::Dot => text == seq!['.'],
            LamLex::LParen => text == seq!['('],
            LamLex::RParen => text == seq![')'],
            LamLex::Identifier(x) => text == x,
            LamLex::Whitespace(x) => text == x,
        }
    }
}

/// Round trip: for every token the tokenizer emits, the substring of the
/// original input at the token's span reproduces exactly the literal text
/// that produced it.
pub proof fn lemma_lambda_tokens_spelled(s: Seq<char>, i: int)
    requires
        0 <= i <= s.len(),
    ensures
        lambda_tokens_from(s, i) matches Ok(lexes) ==> forall|k: int|
            0 <= k < lexes.len() ==> #[trigger] lam_lex_spelled(
                s,
                lexes[k].0,
                lexes[k].1,
                lexes[k].2,
            ),
    decreases s.len() - i,
{
    lemma_lambda_next(s, i);
    match lambda_next(s, i) {
        LamNext::LTok(lex, st, l, k) => {
            lemma_lambda_tokens_spelled(s, k);
            let c = s[i];
            if (c == '\u{03bb}' || c == '\\' || c == '.' || c == '(' || c == ')') {
                assert(s.subrange(st, st + l) =~= seq![c]);
            } else if is_ws_char(c) {
                lemma_ws_end(s, i);
            } else if is_letter_char(c) {
                lemma_ident_end(s, i);
            }
            assert(lam_lex_spelled(s, lex, st, l));
            match lambda_tokens_from(s, k) {
                Ok(rest) => {
                    assert forall|m: int|
                        0 <= m < (seq![(lex, st, l)] + rest).len() implies #[trigger] lam_lex_spelled(
                        s,
                        (seq![(lex, st, l)] + rest)[m].0,
                        (seq![(lex, st, l)] + rest)[m].1,
                        (seq![(lex, st, l)] + rest)[m].2,
                    ) by {
                        if m > 0 {
                            assert((seq![(lex, st, l)] + rest)[m] == rest[m - 1]);
                        }
                    }
                },
                Err(_) => {},
            }
        },
        _ => {},
    }
}

/// Whether a character can stand at the start of a token (or be skipped as
/// whitespace).
pub open spec fn can_start_token(c: char) -> bool {
    c == '\u{03bb}' || c == '\\' || c == '.' || c == '(' || c == ')' || is_ws_char(c)
        || is_letter_char(c)
}

/// Every tokenization failure is an unexpected-character error: exactly one
/// character wide, at the offset of a character that cannot start a token.
pub proof fn lemma_lambda_err_shape(s: Seq<char>, i: int)
    requires
        0 <= i <= s.len(),
    ensures
        lambda_tokens_from(s, i) matches Err(e) ==> e.0 == "Unexpected character"@ && e.2 == 1 && i
            <= e.1 < s.len() && !can_start_token(s[e.1]),
    decreases s.len() - i,
{
    lemma_lambda_next(s, i);
    match lambda_next(s, i) {
        LamNext::LTok(lex, st, l, k) => {
            lemma_lambda_err_shape(s, k);
        },
        _ => {},
    }
}

/// An input holding a character that can appear in no token at all fails
/// tokenization: the scanner can never step across it.
pub proof fn lemma_unsupported_char_fails(s: Seq<char>, i: int, fb: int)
    requires
        0 <= i <= fb < s.len(),
        !can_start_token(s[fb]),
        !is_digit_char(s[fb]),
    ensures
        lambda_tokens_from(s, i) is Err,
    decreases s.len() - i,
{
    lemma_lambda_next(s, i);
    match lambda_next(s, i) {
        LamNext::LTok(lex, st, l, k) => {
            if is_ws_char(s[i]) {
                lemma_ws_end(s, i);
            } else if is_letter_char(s[i]) {
                lemma_ident_end(s, i);
            }
            assert(k <= fb);
            lemma_unsupported_char_fails(s, k, fb);
        },
        _ => {},
    }
}

/// The model triple of an emitted token.
pub open spec fn lam_token_view(t: Spanned<Token>) -> (LamLex, int, int) {
    (lam_lex_of(t.item), t.span.start as int, t.span.length as int)
}

/// Tokenizes a whole input line into its spanned token sequence, keeping
/// whitespace runs as tokens, or fails on the first unrecognized
/// character, exactly as `lambda_tokens_from` describes.
pub fn tokenize(input: &str) -> (r: Result<Vec<Spanned<Token>>, TokenizeError>)
    ensures
        input@.len() <= usize::MAX,
        match lambda_tokens_from(input@, 0) {
            Ok(lexes) => r matches Ok(toks) && toks@.map_values(
                |t: Spanned<Token>| lam_token_view(t),
            ) == lexes,
            Err((m, st, l)) => r matches Err(e) && e.message@ == m && e.span.start == st
                && e.span.length == l,
        },
{
    let ghost s = input@;
    let mut it = InputIterator::<Token>::new(input);
    proof {
        assert(it.tokens@.map_values(|t: Spanned<Token>| lam_token_view(t)) =~= Seq::<(
            LamLex,
            int,
            int,
        )>::empty());
    }
    loop
        invariant_except_break
            it.wf(),
            it.chars@ == s,
            s == input@,
            s.len() <= usize::MAX,
            ({
                match lambda_tokens_from(s, it.offset as int) {
                    Ok(rest) => lambda_tokens_from(s, 0) == Ok::<Seq<(LamLex, int, int)>, (
                        Seq<char>,
                        int,
                        int,
                    )>(it.tokens@.map_values(|t: Spanned<Token>| lam_token_view(t)) + rest),
                    Err(e) => lambda_tokens_from(s, 0) == Err::<Seq<(LamLex, int, int)>, (
                        Seq<char>,
                        int,
                        int,
                    )>(e),
                }
            }),
        ensures
            lambda_tokens_from(s, 0) == Ok::<Seq<(LamLex, int, int)>, (Seq<char>, int, int)>(
                it.tokens@.map_values(|t: Spanned<Token>| lam_token_view(t)),
            ),
        decreases s.len() - it.offset,
    {
        let ghost pre_tokens = it.tokens@;
        let ghost pre_off = it.offset as int;
        let c = match it.peek() {
            None => {
                proof {
                    assert(it.tokens@.map_values(|t: Spanned<Token>| lam_token_view(t)) + Seq::<(
                        LamLex,
                        int,
                        int,
                    )>::empty() =~= it.tokens@.map_values(|t: Spanned<Token>| lam_token_view(t)));
                }
                break ;
            },
            Some(c) => c,
        };
        if c == '\u{03bb}' || c == '\\' {
            it.next_and_push(Token::Lambda, 1);
        } else if c == '.' {
            it.next_and_push(Token::Dot, 1);
        } else if c == '(' {
            it.next_and_push(Token::LParen, 1);
        } else if c == ')' {
            it.next_and_push(Token::RParen, 1);
        } else if is_ws(c) {
            let ghost i0 = it.offset as int;
            let start = it.offset();
            let mut ws = String::new();
            proof {
                assert(ws@ =~= s.subrange(i0, i0));
            }
            loop
                invariant_except_break
                    it.wf(),
                    it.chars@ == s,
                    it.tokens@ == pre_tokens,
                    0 <= i0 < s.len(),
                    start as int == i0,
                    is_ws_char(s[i0]),
                    i0 <= it.offset <= s.len(),
                    ws@ == s.subrange(i0, it.offset as int),
                    forall|j: int| i0 <= j < it.offset ==> is_ws_char(s[j]),
                ensures
                    it.wf(),
                    it.chars@ == s,
                    it.tokens@ == pre_tokens,
                    0 <= i0 < s.len(),
                    start as int == i0,
                    it.offset == ws_end(s, i0),
                    ws@ == s.subrange(i0, it.offset as int),
                decreases s.len() - it.offset,
            {
                match it.peek() {
                    None => {
                        proof {
                            lemma_ws_end(s, i0);
                        }
                        break ;
                    },
                    Some(c2) => {
                        if !is_ws(c2) {
                            proof {
                                lemma_ws_end(s, i0);
                            }
                            break ;
                        }
                        push_char(&mut ws, c2);
                        it.next();
                        proof {
                            assert(ws@ =~= s.subrange(i0, it.offset as int));
                        }
                    },
                }
            }
            proof {
                lemma_ws_end(s, i0);
            }
            let len = it.offset() - start;
            it.push(Token::Whitespace(ws), len);
        } else if is_letter(c) {
            let ghost i0 = it.offset as int;
            let start = it.offset();
            let mut identifier = String::new();
            proof {
                assert(identifier@ =~= s.subrange(i0, i0));
            }
            loop
                invariant_except_break
                    it.wf(),
                    it.chars@ == s,
                    it.tokens@ == pre_tokens,
                    0 <= i0 < s.len(),
                    start as int == i0,
                    is_ident_char(s[i0]),
                    i0 <= it.offset <= s.len(),
                    identifier@ == s.subrange(i0, it.offset as int),
                    forall|j: int| i0 <= j < it.offset ==> is_ident_char(s[j]),
                ensures
                    it.wf(),
                    it.chars@ == s,
                    it.tokens@ == pre_tokens,
                    0 <= i0 < s.len(),
                    start as int == i0,
                    it.offset == ident_end(s, i0),
                    identifier@ == s.subrange(i0, it.offset as int),
                decreases s.len() - it.offset,
            {
                match it.peek() {
                    None => {
                        proof {
                            lemma_ident_end(s, i0);
                        }
                        break ;
                    },
                    Some(c2) => {
                        if !is_ident(c2) {
                            proof {
                                lemma_ident_end(s, i0);
                            }
                            break ;
                        }
                        push_char(&mut identifier, c2);
                        it.next();
                        proof {
                            assert(identifier@ =~= s.subrange(i0, it.offset as int));
                        }
                    },
                }
            }
            proof {
                lemma_ident_end(s, i0);
            }
            let len = it.offset() - start;
            it.push(Token::Identifier(identifier), len);
        } else {
            it.next();
            return Err(it.tok_err("Unexpected character", 1));
        }
        proof {
            lemma_lambda_next(s, pre_off);
            match lambda_next(s, pre_off) {
                LamNext::LTok(lex, st, l, k) => {
                    let tok = choose|tok: Spanned<Token>|
                        it.tokens@ == pre_tokens.push(tok) && lam_token_view(tok) == (lex, st, l);
                    assert(it.tokens@.map_values(|t: Spanned<Token>| lam_token_view(t))
                        =~= pre_tokens.map_values(|t: Spanned<Token>| lam_token_view(t)).push(
                        (lex, st, l),
                    ));
                    match lambda_tokens_from(s, k) {
                        Ok(rest2) => {
                            assert(pre_tokens.map_values(|t: Spanned<Token>| lam_token_view(t)) + (
                            seq![(lex, st, l)] + rest2) =~= it.tokens@.map_values(
                                |t: Spanned<Token>| lam_token_view(t),
                            ) + rest2);
                        },
                        Err(_) => {},
                    }
                },
                _ => {
                    assert(false);
                },
            }
        }
    }
    Ok(it.tokens)
}

/// A term of the untyped lambda calculus.
#[derive(Debug)]
pub enum Term {
    Var(String),
    Abs(String, Box<Term>),
    App(Box<Term>, Box<Term>),
}

/// The mathematical model of a term.
pub enum TermModel {
    Var(Seq<char>),
    Abs(Seq<char>, Box<TermModel>),
    App(Box<TermModel>, Box<TermModel>),
}

/// The model of a term.
pub open spec fn term_model(t: Term) -> TermModel
    decreases t,
{
    match t {
        Term::Var(id) => TermModel::Var(id@),
        Term::Abs(id, exp) => TermModel::Abs(id@, Box::new(term_model(*exp))),
        Term::App(t1, t2) => TermModel::App(Box::new(term_model(*t1)), Box::new(term_model(*t2))),
    }
}

/// Builds an application term.
pub fn app(term: Term, param: Term) -> (t: Term)
    ensures
        t == Term::App(Box::new(term), Box::new(param)),
{
    Term::App(Box::new(term), Box::new(param))
}

/// Builds an abstraction term.
pub fn abs(id: String, exp: Term) -> (t: Term)
    ensures
        t == Term::Abs(id, Box::new(exp)),
{
    Term::Abs(id, Box::new(exp))
}

/// The display form of a token, as it appears in source text.
pub open spec fn lam_display(lex: LamLex) -> Seq<char> {
    match lex {
        LamLex::Lambda => seq!['\u{03bb}'],
        LamLex::Dot => seq!['.'],
        LamLex::LParen => seq!['('],
        LamLex::RParen => seq![')'],
        LamLex::Identifier(x) => x,
        LamLex::Whitespace(x) => x,
    }
}

/// The printed form of a token: its constructor name with payload.
pub open spec fn lam_debug(lex: LamLex) -> Seq<char> {
    match lex {
        LamLex::Lambda => "Lambda"@,
        LamLex::Dot => "Dot"@,
        LamLex::LParen => "LParen"@,
        LamLex::RParen => "RParen"@,
        LamLex::Identifier(x) => "Identifier(\""@ + x + "\")"@,
        LamLex::Whitespace(x) => "Whitespace(\""@ + x + "\")"@,
    }
}

/// Prints a token as it appears in source text.
pub fn token_display_string(t: &Token) -> (r: String)
    ensures
        r@ == lam_display(lam_lex_of(*t)),
{
    match t {
        Token::Lambda => {
            let mut out = String::new();
            push_char(&mut out, '\u{03bb}');
            proof {
                assert(out@ =~= lam_display(lam_lex_of(*t)));
            }
            out
        },
        Token::Dot => {
            let mut out = String::new();
            push_char(&mut out, '.');
            proof {
                assert(out@ =~= lam_display(lam_lex_of(*t)));
            }
            out
        },
        Token::LParen => {
            let mut out = String::new();
            push_char(&mut out, '(');
            proof {
                assert(out@ =~= lam_display(lam_lex_of(*t)));
            }
            out
        },
        Token::RParen => {
            let mut out = String::new();
            push_char(&mut out, ')');
            proof {
                assert(out@ =~= lam_display(lam_lex_of(*t)));
            }
            out
        },
        Token::Identifier(x) => x.clone(),
        Token::Whitespace(x) => x.clone(),
    }
}

/// Prints a token as its constructor name with payload.
pub fn token_debug_string(t: &Token) -> (r: String)
    ensures
        r@ == lam_debug(lam_lex_of(*t)),
{
    match t {
        Token::Lambda => "Lambda".to_owned(),
        Token::Dot => "Dot".to_owned(),
        Token::LParen => "LParen".to_owned(),
        Token::RParen => "RParen".to_owned(),
        Token::Identifier(x) => {
            let mut out = String::new();
            out.append("Identifier(\"");
            out.append(x.as_str());
            out.append("\")");
            proof {
                assert(out@ =~= lam_debug(lam_lex_of(*t)));
            }
            out
        },
        Token::Whitespace(x) => {
            let mut out = String::new();
            out.append("Whitespace(\"");
            out.append(x.as_str());
            out.append("\")");
            proof {
                assert(out@ =~= lam_debug(lam_lex_of(*t)));
            }
            out
        },
    }
}

/// The display form of a term: identifiers as themselves, abstractions with
/// the lambda glyph, applications parenthesized.
pub open spec fn term_display(tm: TermModel) -> Seq<char>
    decreases tm,
{
    match tm {
        TermModel::Var(id) => id,
        TermModel::Abs(id, exp) => seq!['\u{03bb}'] + id + seq!['.'] + term_display(*exp),
        TermModel::App(t1, t2) => seq!['('] + term_display(*t1) + seq![' '] + term_display(*t2)
            + seq![')'],
    }
}

/// Prints a term in its display form.
pub fn term_to_string(t: &Term) -> (r: String)
    ensures
        r@ == term_display(term_model(*t)),
    decreases *t,
{
    match t {
        Term::Var(id) => id.clone(),
        Term::Abs(id, exp) => {
            let mut out = String::new();
            push_char(&mut out, '\u{03bb}');
            out.append(id.as_str());
            push_char(&mut out, '.');
            let sub = term_to_string(exp);
            out.append(sub.as_str());
            proof {
                assert(out@ =~= term_display(term_model(*t)));
            }
            out
        },
        Term::App(t1, t2) => {
            let mut out = String::new();
            push_char(&mut out, '(');
            let s1 = term_to_string(t1);
            out.append(s1.as_str());
            push_char(&mut out, ' ');
            let s2 = term_to_string(t2);
            out.append(s2.as_str());
            push_char(&mut out, ')');
            proof {
                assert(out@ =~= term_display(term_model(*t)));
            }
            out
        },
    }
}

/// Every token span lies within offset bound `b`.
pub open spec fn lam_tokens_bounded(toks: Seq<(LamLex, int, int)>, b: int) -> bool {
    forall|k: int|
        0 <= k < toks.len() ==> 0 <= #[trigger] toks[k].1 && 0 <= toks[k].2 && toks[k].1
            + toks[k].2 <= b
}

/// Whether the parser skips this token kind.
pub open spec fn lam_is_skippable(lex: LamLex) -> bool {
    lex is Whitespace
}

/// The first token index at or after `i` that the parser does not skip.
pub open spec fn lam_skip_at(toks: Seq<(LamLex, int, int)>, i: int) -> int
    decreases toks.len() - i when 0 <= i <= toks.len()
{
    if i >= toks.len() {
        toks.len() as int
    } else if lam_is_skippable(toks[i].0) {
        lam_skip_at(toks, i + 1)
    } else {
        i
    }
}

/// `lam_skip_at` lands on the first unskippable token.
pub proof fn lemma_lam_skip_at(toks: Seq<(LamLex, int, int)>, i: int)
    requires
        0 <= i <= toks.len(),
    ensures
        i <= lam_skip_at(toks, i) <= toks.len(),
        lam_skip_at(toks, i) < toks.len() ==> !lam_is_skippable(toks[lam_skip_at(toks, i)].0),
        lam_skip_at(toks, lam_skip_at(toks, i)) == lam_skip_at(toks, i),
    decreases toks.len() - i,
{
    if i < toks.len() && lam_is_skippable(toks[i].0) {
        lemma_lam_skip_at(toks, i + 1);
    }
}

/// The message of a failed token expectation.
pub open spec fn expected_tok_message(found: LamLex, expected: LamLex) -> Seq<char> {
    "Unexpected token '"@ + lam_display(found) + "', expected '"@ + lam_display(expected) + "'"@
}

/// Outcome of the specification-level term parser: a term model with the
/// index after it, a parse error with its span, or exhausted budget.
pub enum TPRes {
    TOk(TermModel, int),
    TErr(Seq<char>, int, int),
    TOut,
}

/// Specification of `expect_token`: the next meaningful token must equal
/// `expected`.
pub open spec fn lam_expect_at(toks: Seq<(LamLex, int, int)>, i: int, expected: LamLex) -> Result<
    int,
    (Seq<char>, int, int),
> {
    if i < 0 || i > toks.len() {
        Err(("Unexpected end of input"@, 0, 0))
    } else {
        let j = lam_skip_at(toks, i);
        if j >= toks.len() {
            Err(("Unexpected end of input"@, 0, 0))
        } else if toks[j].0 == expected {
            Ok(j + 1)
        } else {
            Err((expected_tok_message(toks[j].0, expected), toks[j].1, toks[j].2))
        }
    }
}

/// Specification of `expect_identifier`: the next meaningful token must be
/// an identifier, whose name is returned.
pub open spec fn ident_at(toks: Seq<(LamLex, int, int)>, i: int) -> Result<
    (Seq<char>, int),
    (Seq<char>, int, int),
> {
    if i < 0 || i > toks.len() {
        Err(("Unexpected end of input"@, 0, 0))
    } else {
        let j = lam_skip_at(toks, i);
        if j >= toks.len() {
            Err(("Unexpected end of input"@, 0, 0))
        } else {
            match toks[j].0 {
                LamLex::Identifier(x) => Ok((x, j + 1)),
                _ => Err(("Expected identifier"@, toks[j].1, toks[j].2)),
            }
        }
    }
}

/// Specification of `parse_term`: skip whitespace, then dispatch on the
/// first meaningful token.
pub open spec fn parse_term_at(toks: Seq<(LamLex, int, int)>, i: int, fuel: nat) -> TPRes
    decreases fuel,
{
    if i < 0 || i > toks.len() {
        TPRes::TErr("Unexpected end of input"@, 0, 0)
    } else {
        let j = lam_skip_at(toks, i);
        if j >= toks.len() {
            TPRes::TErr("Unexpected end of input"@, 0, 0)
        } else if fuel == 0 {
            TPRes::TOut
        } else {
            match toks[j].0 {
                LamLex::Identifier(x) => parse_application_at(toks, j, (fuel - 1) as nat),
                LamLex::LParen => parse_application_at(toks, j, (fuel - 1) as nat),
                LamLex::Lambda => parse_abstraction_at(toks, j, (fuel - 1) as nat),
                _ => TPRes::TErr("Unexpected token"@, toks[j].1, toks[j].2),
            }
        }
    }
}

/// Specification of `parse_abstraction`: the lambda glyph, a bound
/// identifier, a dot, then the body, with whitespace skipped between them.
pub open spec fn parse_abstraction_at(toks: Seq<(LamLex, int, int)>, i: int, fuel: nat) -> TPRes
    decreases fuel,
{
    if fuel == 0 {
        TPRes::TOut
    } else {
        match lam_expect_at(toks, i, LamLex::Lambda) {
            Err(e) => TPRes::TErr(e.0, e.1, e.2),
            Ok(j1) => match ident_at(toks, j1) {
                Err(e) => TPRes::TErr(e.0, e.1, e.2),
                Ok(p) => match lam_expect_at(toks, p.1, LamLex::Dot) {
                    Err(e) => TPRes::TErr(e.0, e.1, e.2),
                    Ok(j3) => match parse_term_at(toks, j3, (fuel - 1) as nat) {
                        TPRes::TOk(tm, n) => TPRes::TOk(TermModel::Abs(p.0, Box::new(tm)), n),
                        other => other,
                    },
                },
            },
        }
    }
}

/// Specification of an atom: an identifier, or a parenthesized term.
pub open spec fn parse_atom_at(toks: Seq<(LamLex, int, int)>, i: int, fuel: nat) -> TPRes
    decreases fuel,
{
    if i < 0 || i > toks.len() {
        TPRes::TErr("Unexpected end of input"@, 0, 0)
    } else {
        let j = lam_skip_at(toks, i);
        if j >= toks.len() {
            TPRes::TErr("Unexpected end of input"@, 0, 0)
        } else if fuel == 0 {
            TPRes::TOut
        } else {
            match toks[j].0 {
                LamLex::Identifier(x) => TPRes::TOk(TermModel::Var(x), j + 1),
                LamLex::LParen => match parse_term_at(toks, j + 1, (fuel - 1) as nat) {
                    TPRes::TOk(tm, n) => match lam_expect_at(toks, n, LamLex::RParen) {
                        Ok(n2) => TPRes::TOk(tm, n2),
                        Err(e) => TPRes::TErr(e.0, e.1, e.2),
                    },
                    other => other,
                },
                _ => TPRes::TErr("Expected identifier"@, toks[j].1, toks[j].2),
            }
        }
    }
}

/// Specification of the application loop: fold further atoms and
/// abstractions onto `acc`, left-associatively, until a token that cannot
/// start one.
pub open spec fn parse_app_tail_at(
    toks: Seq<(LamLex, int, int)>,
    m: int,
    acc: TermModel,
    fuel: nat,
) -> TPRes
    decreases fuel,
{
    if m < 0 || m > toks.len() {
        TPRes::TErr("Unexpected end of input"@, 0, 0)
    } else {
        let j = lam_skip_at(toks, m);
        if j == toks.len() {
            TPRes::TOk(acc, j)
        } else if fuel == 0 {
            TPRes::TOut
        } else {
            match toks[j].0 {
                LamLex::Identifier(x) => match parse_atom_at(toks, j, (fuel - 1) as nat) {
                    TPRes::TOk(tm, n) => parse_app_tail_at(
                        toks,
                        n,
                        TermModel::App(Box::new(acc), Box::new(tm)),
                        (fuel - 1) as nat,
                    ),
                    other => other,
                },
                LamLex::LParen => match parse_atom_at(toks, j, (fuel - 1) as nat) {
                    TPRes::TOk(tm, n) => parse_app_tail_at(
                        toks,
                        n,
                        TermModel::App(Box::new(acc), Box::new(tm)),
                        (fuel - 1) as nat,
                    ),
                    other => other,
                },
                LamLex::Lambda => match parse_abstraction_at(toks, j, (fuel - 1) as nat) {
                    TPRes::TOk(tm, n) => parse_app_tail_at(
                        toks,
                        n,
                        TermModel::App(Box::new(acc), Box::new(tm)),
                        (fuel - 1) as nat,
                    ),
                    other => other,
                },
                _ => TPRes::TOk(acc, j),
            }
        }
    }
}

/// Specification of `parse_application`: a first atom, then the
/// application loop.
pub open spec fn parse_application_at(toks: Seq<(LamLex, int, int)>, i: int, fuel: nat) -> TPRes
    decreases fuel,
{
    if fuel == 0 {
        TPRes::TOut
    } else {
        match parse_atom_at(toks, i, (fuel - 1) as nat) {
            TPRes::TOk(tm, n) => parse_app_tail_at(toks, n, tm, (fuel - 1) as nat),
            other => other,
        }
    }
}

/// The recursion budget that suffices to parse a term from token index `i`.
pub open spec fn term_fuel(len: nat, i: int) -> nat {
    if i <= len {
        (3 * (len - i) + 1) as nat
    } else {
        1
    }
}

/// The recursion budget that suffices for an application or an abstraction
/// starting at token index `i`.
pub open spec fn app_fuel(len: nat, i: int) -> nat {
    if 0 <= i < len {
        (3 * (len - i)) as nat
    } else {
        1
    }
}

/// The recursion budget that suffices for an atom starting at token index
/// `i`.
pub open spec fn atom_fuel(len: nat, i: int) -> nat {
    if 0 <= i < len {
        (3 * (len - i) - 1) as nat
    } else {
        0
    }
}

/// The recursion budget that suffices for the application loop from token
/// index `m`.
pub open spec fn tail_fuel(len: nat, m: int) -> nat {
    if m <= len {
        (3 * (len - m) + 1) as nat
    } else {
        1
    }
}

/// A successful term parse makes progress and stays within bounds, and
/// every reported span lies within the token spans' bound.
pub proof fn lemma_tp_progress(toks: Seq<(LamLex, int, int)>, i: int, fuel: nat, b: int)
    requires
        lam_tokens_bounded(toks, b),
        b >= 0,
    ensures
        parse_term_at(toks, i, fuel) matches TPRes::TOk(tm, n) ==> i < n <= toks.len(),
        parse_term_at(toks, i, fuel) matches TPRes::TErr(m2, st, l) ==> 0 <= st && 0 <= l && st + l
            <= b,
        parse_abstraction_at(toks, i, fuel) matches TPRes::TOk(tm, n) ==> i < n <= toks.len(),
        parse_abstraction_at(toks, i, fuel) matches TPRes::TErr(m2, st, l) ==> 0 <= st && 0 <= l
            && st + l <= b,
        parse_atom_at(toks, i, fuel) matches TPRes::TOk(tm, n) ==> i < n <= toks.len(),
        parse_atom_at(toks, i, fuel) matches TPRes::TErr(m2, st, l) ==> 0 <= st && 0 <= l && st + l
            <= b,
        parse_application_at(toks, i, fuel) matches TPRes::TOk(tm, n) ==> i < n <= toks.len(),
        parse_application_at(toks, i, fuel) matches TPRes::TErr(m2, st, l) ==> 0 <= st && 0 <= l
            && st + l <= b,
    decreases fuel, 1int,
{
    if fuel > 0 && 0 <= i <= toks.len() {
        lemma_lam_skip_at(toks, i);
        let j = lam_skip_at(toks, i);
        lemma_tp_progress(toks, j, (fuel - 1) as nat, b);
        lemma_tp_progress(toks, i, (fuel - 1) as nat, b);
        lemma_tp_progress(toks, j + 1, (fuel - 1) as nat, b);
        // the abstraction's body position
        match lam_expect_at(toks, i, LamLex::Lambda) {
            Ok(j1) => {
                lemma_lam_skip_at(toks, j1);
                match ident_at(toks, j1) {
                    Ok(p) => {
                        lemma_lam_skip_at(toks, p.1);
                        match lam_expect_at(toks, p.1, LamLex::Dot) {
                            Ok(j3) => {
                                lemma_tp_progress(toks, j3, (fuel - 1) as nat, b);
                            },
                            Err(_) => {},
                        }
                    },
                    Err(_) => {},
                }
            },
            Err(_) => {},
        }
        // the application's tail position
        match parse_atom_at(toks, i, (fuel - 1) as nat) {
            TPRes::TOk(tm, n) => {
                lemma_tail_progress(toks, n, tm, (fuel - 1) as nat, b, i);
            },
            _ => {},
        }
        // the parenthesized atom's closing position
        match parse_term_at(toks, j + 1, (fuel - 1) as nat) {
            TPRes::TOk(tm, n) => {
                if 0 <= n <= toks.len() {
                    lemma_lam_skip_at(toks, n);
                }
            },
            _ => {},
        }
    }
}

/// The application loop never moves backwards and reports bounded spans.
pub proof fn lemma_tail_progress(
    toks: Seq<(LamLex, int, int)>,
    m: int,
    acc: TermModel,
    fuel: nat,
    b: int,
    lo: int,
)
    requires
        lam_tokens_bounded(toks, b),
        b >= 0,
        lo < m,
    ensures
        parse_app_tail_at(toks, m, acc, fuel) matches TPRes::TOk(tm, n) ==> lo < n <= toks.len(),
        parse_app_tail_at(toks, m, acc, fuel) matches TPRes::TErr(m2, st, l) ==> 0 <= st && 0 <= l
            && st + l <= b,
    decreases fuel, 0int,
{
    if 0 <= m <= toks.len() {
        lemma_lam_skip_at(toks, m);
        let j = lam_skip_at(toks, m);
        if j < toks.len() && fuel > 0 {
            lemma_tp_progress(toks, j, (fuel - 1) as nat, b);
            match toks[j].0 {
                LamLex::Lambda => {
                    match parse_abstraction_at(toks, j, (fuel - 1) as nat) {
                        TPRes::TOk(tm, n) => {
                            lemma_tail_progress(
                                toks,
                                n,
                                TermModel::App(Box::new(acc), Box::new(tm)),
                                (fuel - 1) as nat,
                                b,
                                lo,
                            );
                        },
                        _ => {},
                    }
                },
                _ => {
                    match parse_atom_at(toks, j, (fuel - 1) as nat) {
                        TPRes::TOk(tm, n) => {
                            lemma_tail_progress(
                                toks,
                                n,
                                TermModel::App(Box::new(acc), Box::new(tm)),
                                (fuel - 1) as nat,
                                b,
                                lo,
                            );
                        },
                        _ => {},
                    }
                },
            }
        }
    }
}

/// With sufficient budgets the term parsers never run out of fuel, and
/// any two sufficient budgets agree.
pub proof fn lemma_tp_fuel(toks: Seq<(LamLex, int, int)>, i: int, f1: nat, f2: nat, b: int)
    requires
        lam_tokens_bounded(toks, b),
        b >= 0,
    ensures
        f1 >= term_fuel(toks.len(), i) && f2 >= term_fuel(toks.len(), i) ==> parse_term_at(
            toks,
            i,
            f1,
        ) == parse_term_at(toks, i, f2) && !(parse_term_at(toks, i, f1) is TOut),
        f1 >= app_fuel(toks.len(), i) && f2 >= app_fuel(toks.len(), i) ==> parse_abstraction_at(
            toks,
            i,
            f1,
        ) == parse_abstraction_at(toks, i, f2) && !(parse_abstraction_at(toks, i, f1) is TOut)
            && parse_application_at(toks, i, f1) == parse_application_at(toks, i, f2) && !(
        parse_application_at(toks, i, f1) is TOut),
        f1 >= atom_fuel(toks.len(), i) && f2 >= atom_fuel(toks.len(), i) ==> parse_atom_at(
            toks,
            i,
            f1,
        ) == parse_atom_at(toks, i, f2) && !(parse_atom_at(toks, i, f1) is TOut),
    decreases f1, 1int,
{
    if f1 > 0 && f2 > 0 {
        if 0 <= i <= toks.len() {
            lemma_lam_skip_at(toks, i);
            let j = lam_skip_at(toks, i);
            lemma_tp_fuel(toks, j, (f1 - 1) as nat, (f2 - 1) as nat, b);
            lemma_tp_fuel(toks, i, (f1 - 1) as nat, (f2 - 1) as nat, b);
            lemma_tp_fuel(toks, j + 1, (f1 - 1) as nat, (f2 - 1) as nat, b);
            lemma_tp_progress(toks, i, (f1 - 1) as nat, b);
            lemma_tp_progress(toks, j + 1, (f1 - 1) as nat, b);
            match lam_expect_at(toks, i, LamLex::Lambda) {
                Ok(j1) => {
                    lemma_lam_skip_at(toks, j1);
                    match ident_at(toks, j1) {
                        Ok(p) => {
                            lemma_lam_skip_at(toks, p.1);
                            match lam_expect_at(toks, p.1, LamLex::Dot) {
                                Ok(j3) => {
                                    lemma_tp_fuel(toks, j3, (f1 - 1) as nat, (f2 - 1) as nat, b);
                                },
                                Err(_) => {},
                            }
                        },
                        Err(_) => {},
                    }
                },
                Err(_) => {},
            }
            match parse_atom_at(toks, i, (f1 - 1) as nat) {
                TPRes::TOk(tm, n) => {
                    lemma_tail_fuel(toks, n, tm, (f1 - 1) as nat, (f2 - 1) as nat, b);
                },
                _ => {},
            }
            match parse_atom_at(toks, i, (f2 - 1) as nat) {
                TPRes::TOk(tm, n) => {
                    lemma_tail_fuel(toks, n, tm, (f1 - 1) as nat, (f2 - 1) as nat, b);
                },
                _ => {},
            }
            match parse_term_at(toks, j + 1, (f1 - 1) as nat) {
                TPRes::TOk(tm, n) => {
                    if 0 <= n <= toks.len() {
                        lemma_lam_skip_at(toks, n);
                    }
                },
                _ => {},
            }
        }
    }
}

/// With sufficient budgets the application loop never runs out of fuel,
/// and any two sufficient budgets agree.
pub proof fn lemma_tail_fuel(
    toks: Seq<(LamLex, int, int)>,
    m: int,
    acc: TermModel,
    f1: nat,
    f2: nat,
    b: int,
)
    requires
        lam_tokens_bounded(toks, b),
        b >= 0,
    ensures
        f1 >= tail_fuel(toks.len(), m) && f2 >= tail_fuel(toks.len(), m) ==> parse_app_tail_at(
            toks,
            m,
            acc,
            f1,
        ) == parse_app_tail_at(toks, m, acc, f2) && !(parse_app_tail_at(toks, m, acc, f1) is TOut),
    decreases f1, 0int,
{
    if f1 > 0 && f2 > 0 && 0 <= m <= toks.len() {
        lemma_lam_skip_at(toks, m);
        let j = lam_skip_at(toks, m);
        if j < toks.len() {
            lemma_tp_fuel(toks, j, (f1 - 1) as nat, (f2 - 1) as nat, b);
            lemma_tp_progress(toks, j, (f1 - 1) as nat, b);
            match toks[j].0 {
                LamLex::Lambda => {
                    match parse_abstraction_at(toks, j, (f1 - 1) as nat) {
                        TPRes::TOk(tm, n) => {
                            lemma_tail_fuel(
                                toks,
                                n,
                                TermModel::App(Box::new(acc), Box::new(tm)),
                                (f1 - 1) as nat,
                                (f2 - 1) as nat,
                                b,
                            );
                        },
                        _ => {},
                    }
                },
                _ => {
                    match parse_atom_at(toks, j, (f1 - 1) as nat) {
                        TPRes::TOk(tm, n) => {
                            lemma_tail_fuel(
                                toks,
                                n,
                                TermModel::App(Box::new(acc), Box::new(tm)),
                                (f1 - 1) as nat,
                                (f2 - 1) as nat,
                                b,
                            );
                        },
                        _ => {},
                    }
                },
            }
        }
    }
}

/// Whether two tokens have the same classification and payload.
pub fn lam_token_eq(a: &Token, b: &Token) -> (r: bool)
    ensures
        r == (lam_lex_of(*a) == lam_lex_of(*b)),
{
    match (a, b) {
        (Token::Lambda, Token::Lambda) => true,
        (Token::Dot, Token::Dot) => true,
        (Token::LParen, Token::LParen) => true,
        (Token::RParen, Token::RParen) => true,
        (Token::Identifier(x), Token::Identifier(y)) => crate::parsing_utils::str_eq(
            x.as_str(),
            y.as_str(),
        ),
        (Token::Whitespace(x), Token::Whitespace(y)) => crate::parsing_utils::str_eq(
            x.as_str(),
            y.as_str(),
        ),
        _ => false,
    }
}

/// The parser's view of a token list.
pub open spec fn lam_token_views(tokens: Seq<Spanned<Token>>) -> Seq<(LamLex, int, int)> {
    tokens.map_values(|t: Spanned<Token>| lam_token_view(t))
}

/// Advances past whitespace tokens.
fn skip_whitespace(tokens: &Vec<Spanned<Token>>, i: usize) -> (r: usize)
    ensures
        i <= tokens@.len() ==> r == lam_skip_at(lam_token_views(tokens@), i as int),
        i > tokens@.len() ==> r == i,
        i <= r,
        r <= tokens@.len() || r == i,
    decreases tokens@.len() - i,
{
    if i >= tokens.len() {
        return i;
    }
    let skippable = match &tokens[i].item {
        Token::Whitespace(_) => true,
        _ => false,
    };
    if skippable {
        skip_whitespace(tokens, i + 1)
    } else {
        i
    }
}

/// Consumes the next meaningful token, which must equal `expected`.
pub fn expect_token(tokens: &Vec<Spanned<Token>>, i: usize, expected: &Token) -> (r: Result<
    usize,
    ParseError,
>)
    ensures
        match lam_expect_at(lam_token_views(tokens@), i as int, lam_lex_of(*expected)) {
            Ok(j) => r matches Ok(rj) && rj == j,
            Err(p) => r matches Err(e) && e.message@ == p.0 && e.span.start == p.1
                && e.span.length == p.2,
        },
{
    if i > tokens.len() {
        return Err(parse_err("Unexpected end of input", Span { start: 0, length: 0 }));
    }
    let j = skip_whitespace(tokens, i);
    if j >= tokens.len() {
        return Err(parse_err("Unexpected end of input", Span { start: 0, length: 0 }));
    }
    if lam_token_eq(&tokens[j].item, expected) {
        Ok(j + 1)
    } else {
        let mut message = String::new();
        message.append("Unexpected token '");
        let fd = token_display_string(&tokens[j].item);
        message.append(fd.as_str());
        message.append("', expected '");
        let ed = token_display_string(expected);
        message.append(ed.as_str());
        message.append("'");
        proof {
            assert(message@ =~= expected_tok_message(
                lam_lex_of(tokens@[j as int].item),
                lam_lex_of(*expected),
            ));
        }
        Err(ParseError { message, span: tokens[j].span })
    }
}

/// Consumes the next meaningful token, which must be an identifier, and
/// returns its name.
pub fn expect_identifier(tokens: &Vec<Spanned<Token>>, i: usize) -> (r: Result<
    (String, usize),
    ParseError,
>)
    ensures
        match ident_at(lam_token_views(tokens@), i as int) {
            Ok(p) => r matches Ok(q) && q.0@ == p.0 && q.1 == p.1,
            Err(p) => r matches Err(e) && e.message@ == p.0 && e.span.start == p.1
                && e.span.length == p.2,
        },
{
    if i > tokens.len() {
        return Err(parse_err("Unexpected end of input", Span { start: 0, length: 0 }));
    }
    let j = skip_whitespace(tokens, i);
    if j >= tokens.len() {
        return Err(parse_err("Unexpected end of input", Span { start: 0, length: 0 }));
    }
    match &tokens[j].item {
        Token::Identifier(x) => Ok((x.clone(), j + 1)),
        _ => Err(parse_err("Expected identifier", tokens[j].span)),
    }
}

/// Parses one term starting at token index `i`, skipping leading
/// whitespace, exactly as `parse_term_at` specifies.
pub fn parse_term(tokens: &Vec<Spanned<Token>>, i: usize) -> (r: Result<(Term, usize), ParseError>)
    requires
        lam_tokens_bounded(lam_token_views(tokens@), usize::MAX as int),
    ensures
        ({
            let toks = lam_token_views(tokens@);
            match parse_term_at(toks, i as int, term_fuel(toks.len(), i as int)) {
                TPRes::TOk(tm, n) => r matches Ok(p) && term_model(p.0) == tm && p.1 == n,
                TPRes::TErr(m, st, l) => r matches Err(e) && e.message@ == m && e.span.start == st
                    && e.span.length == l,
                TPRes::TOut => false,
            }
        }),
    decreases tokens@.len() - i, 3int,
{
    let ghost toks = lam_token_views(tokens@);
    if i > tokens.len() {
        return Err(parse_err("Unexpected end of input", Span { start: 0, length: 0 }));
    }
    proof {
        lemma_lam_skip_at(toks, i as int);
    }
    let j = skip_whitespace(tokens, i);
    if j >= tokens.len() {
        return Err(parse_err("Unexpected end of input", Span { start: 0, length: 0 }));
    }
    proof {
        lemma_tp_fuel(
            toks,
            j as int,
            (term_fuel(toks.len(), i as int) - 1) as nat,
            app_fuel(toks.len(), j as int),
            usize::MAX as int,
        );
    }
    match &tokens[j].item {
        Token::Identifier(_) => parse_application(tokens, j),
        Token::LParen => parse_application(tokens, j),
        Token::Lambda => parse_abstraction(tokens, j),
        _ => Err(parse_err("Unexpected token", tokens[j].span)),
    }
}

/// Parses an abstraction starting at token index `i`, exactly as
/// `parse_abstraction_at` specifies.
pub fn parse_abstraction(tokens: &Vec<Spanned<Token>>, i: usize) -> (r: Result<
    (Term, usize),
    ParseError,
>)
    requires
        lam_tokens_bounded(lam_token_views(tokens@), usize::MAX as int),
    ensures
        ({
            let toks = lam_token_views(tokens@);
            match parse_abstraction_at(toks, i as int, app_fuel(toks.len(), i as int)) {
                TPRes::TOk(tm, n) => r matches Ok(p) && term_model(p.0) == tm && p.1 == n,
                TPRes::TErr(m, st, l) => r matches Err(e) && e.message@ == m && e.span.start == st
                    && e.span.length == l,
                TPRes::TOut => false,
            }
        }),
    decreases tokens@.len() - i, 2int,
{
    let ghost toks = lam_token_views(tokens@);
    proof {
        if i as int <= toks.len() {
            lemma_lam_skip_at(toks, i as int);
        }
    }
    let j1 = match expect_token(tokens, i, &Token::Lambda) {
        Ok(j) => j,
        Err(e) => {
            return Err(e);
        },
    };
    proof {
        lemma_lam_skip_at(toks, j1 as int);
    }
    let (id, j2) = match expect_identifier(tokens, j1) {
        Ok(p) => p,
        Err(e) => {
            return Err(e);
        },
    };
    proof {
        lemma_lam_skip_at(toks, j2 as int);
    }
    let j3 = match expect_token(tokens, j2, &Token::Dot) {
        Ok(j) => j,
        Err(e) => {
            return Err(e);
        },
    };
    proof {
        lemma_tp_fuel(
            toks,
            j3 as int,
            (app_fuel(toks.len(), i as int) - 1) as nat,
            term_fuel(toks.len(), j3 as int),
            usize::MAX as int,
        );
    }
    let (body, n) = match parse_term(tokens, j3) {
        Ok(p) => p,
        Err(e) => {
            return Err(e);
        },
    };
    Ok((abs(id, body), n))
}

/// Parses an atom starting at token index `i`: an identifier, or a
/// parenthesized term, exactly as `parse_atom_at` specifies.
pub fn parse_atom(tokens: &Vec<Spanned<Token>>, i: usize) -> (r: Result<(Term, usize), ParseError>)
    requires
        lam_tokens_bounded(lam_token_views(tokens@), usize::MAX as int),
    ensures
        ({
            let toks = lam_token_views(tokens@);
            match parse_atom_at(toks, i as int, atom_fuel(toks.len(), i as int)) {
                TPRes::TOk(tm, n) => r matches Ok(p) && term_model(p.0) == tm && p.1 == n && i < n,
                TPRes::TErr(m, st, l) => r matches Err(e) && e.message@ == m && e.span.start == st
                    && e.span.length == l,
                TPRes::TOut => false,
            }
        }),
    decreases tokens@.len() - i, 1int,
{
    let ghost toks = lam_token_views(tokens@);
    if i > tokens.len() {
        return Err(parse_err("Unexpected end of input", Span { start: 0, length: 0 }));
    }
    proof {
        lemma_lam_skip_at(toks, i as int);
    }
    let j = skip_whitespace(tokens, i);
    if j >= tokens.len() {
        return Err(parse_err("Unexpected end of input", Span { start: 0, length: 0 }));
    }
    match &tokens[j].item {
        Token::Identifier(x) => Ok((Term::Var(x.clone()), j + 1)),
        Token::LParen => {
            proof {
                lemma_tp_fuel(
                    toks,
                    j + 1,
                    (atom_fuel(toks.len(), i as int) - 1) as nat,
                    term_fuel(toks.len(), j + 1),
                    usize::MAX as int,
                );
            }
            let (t, n) = match parse_term(tokens, j + 1) {
                Ok(p) => p,
                Err(e) => {
                    return Err(e);
                },
            };
            proof {
                lemma_tp_progress(toks, j + 1, term_fuel(toks.len(), j + 1), usize::MAX as int);
                lemma_lam_skip_at(toks, n as int);
            }
            let n2 = match expect_token(tokens, n, &Token::RParen) {
                Ok(j2) => j2,
                Err(e) => {
                    return Err(e);
                },
            };
            Ok((t, n2))
        },
        _ => Err(parse_err("Expected identifier", tokens[j].span)),
    }
}

/// Parses a left-associative application starting at token index `i`,
/// exactly as `parse_application_at` specifies.
pub fn parse_application(tokens: &Vec<Spanned<Token>>, i: usize) -> (r: Result<
    (Term, usize),
    ParseError,
>)
    requires
        lam_tokens_bounded(lam_token_views(tokens@), usize::MAX as int),
    ensures
        ({
            let toks = lam_token_views(tokens@);
            match parse_application_at(toks, i as int, app_fuel(toks.len(), i as int)) {
                TPRes::TOk(tm, n) => r matches Ok(p) && term_model(p.0) == tm && p.1 == n,
                TPRes::TErr(m, st, l) => r matches Err(e) && e.message@ == m && e.span.start == st
                    && e.span.length == l,
                TPRes::TOut => false,
            }
        }),
    decreases tokens@.len() - i, 2int,
{
    let ghost toks = lam_token_views(tokens@);
    let ghost len = toks.len();
    proof {
        lemma_tp_fuel(
            toks,
            i as int,
            (app_fuel(len, i as int) - 1) as nat,
            atom_fuel(len, i as int),
            usize::MAX as int,
        );
    }
    let (first, n0) = match parse_atom(tokens, i) {
        Ok(p) => p,
        Err(e) => {
            return Err(e);
        },
    };
    let ghost m0 = n0 as int;
    let ghost acc0 = term_model(first);
    proof {
        lemma_tail_fuel(
            toks,
            m0,
            acc0,
            (app_fuel(len, i as int) - 1) as nat,
            tail_fuel(len, m0),
            usize::MAX as int,
        );
        lemma_tail_fuel(toks, m0, acc0, tail_fuel(len, m0), tail_fuel(len, m0), usize::MAX as int);
    }
    let mut exp = first;
    let mut cur = n0;
    loop
        invariant_except_break
            lam_tokens_bounded(toks, usize::MAX as int),
            toks == lam_token_views(tokens@),
            len == toks.len(),
            i < cur <= len,
            ({
                match parse_app_tail_at(toks, m0, acc0, tail_fuel(len, m0)) {
                    TPRes::TOk(tm, n) => parse_application_at(toks, i as int, app_fuel(len, i as int))
                        == TPRes::TOk(tm, n),
                    TPRes::TErr(m2, st, l) => parse_application_at(
                        toks,
                        i as int,
                        app_fuel(len, i as int),
                    ) == TPRes::TErr(m2, st, l),
                    TPRes::TOut => false,
                }
            }),
            ({
                match parse_app_tail_at(toks, cur as int, term_model(exp), tail_fuel(len, cur as int)) {
                    TPRes::TOk(tm, n) => parse_app_tail_at(toks, m0, acc0, tail_fuel(len, m0))
                        == TPRes::TOk(tm, n),
                    TPRes::TErr(m2, st, l) => parse_app_tail_at(toks, m0, acc0, tail_fuel(len, m0))
                        == TPRes::TErr(m2, st, l),
                    TPRes::TOut => false,
                }
            }),
        ensures
            i < cur <= len,
            parse_application_at(toks, i as int, app_fuel(len, i as int)) == TPRes::TOk(
                term_model(exp),
                cur as int,
            ),
        decreases len - cur,
    {
        proof {
            lemma_lam_skip_at(toks, cur as int);
        }
        let j2 = skip_whitespace(tokens, cur);
        if j2 >= tokens.len() {
            cur = j2;
            break ;
        }
        let step_kind: usize = match &tokens[j2].item {
            Token::Identifier(_) => 0,
            Token::LParen => 0,
            Token::Lambda => 1,
            _ => 2,
        };
        if step_kind == 2 {
            cur = j2;
            break ;
        }
        proof {
            lemma_tp_fuel(
                toks,
                j2 as int,
                (tail_fuel(len, cur as int) - 1) as nat,
                atom_fuel(len, j2 as int),
                usize::MAX as int,
            );
            lemma_tp_fuel(
                toks,
                j2 as int,
                (tail_fuel(len, cur as int) - 1) as nat,
                app_fuel(len, j2 as int),
                usize::MAX as int,
            );
        }
        let (arg, n) = if step_kind == 0 {
            match parse_atom(tokens, j2) {
                Ok(p) => p,
                Err(e) => {
                    return Err(e);
                },
            }
        } else {
            match parse_abstraction(tokens, j2) {
                Ok(p) => p,
                Err(e) => {
                    return Err(e);
                },
            }
        };
        proof {
            lemma_tp_progress(
                toks,
                j2 as int,
                (tail_fuel(len, cur as int) - 1) as nat,
                usize::MAX as int,
            );
            lemma_tail_fuel(
                toks,
                n as int,
                TermModel::App(Box::new(term_model(exp)), Box::new(term_model(arg))),
                (tail_fuel(len, cur as int) - 1) as nat,
                tail_fuel(len, n as int),
                usize::MAX as int,
            );
        }
        exp = app(exp, arg);
        cur = n;
    }
    Ok((exp, cur))
}

/// Parses a whole token list as one term.
pub fn parse(tokens: &Vec<Spanned<Token>>) -> (r: Result<Term, ParseError>)
    requires
        lam_tokens_bounded(lam_token_views(tokens@), usize::MAX as int),
    ensures
        ({
            let toks = lam_token_views(tokens@);
            match parse_term_at(toks, 0, term_fuel(toks.len(), 0)) {
                TPRes::TOk(tm, n) => r matches Ok(t) && term_model(t) == tm,
                TPRes::TErr(m, st, l) => r matches Err(e) && e.message@ == m && e.span.start == st
                    && e.span.length == l,
                TPRes::TOut => false,
            }
        }),
{
    match parse_term(tokens, 0) {
        Ok((t, _idx)) => Ok(t),
        Err(e) => Err(e),
    }
}

/// A language choice marker for the untyped lambda calculus evaluator.
#[derive(Debug)]
pub struct UntypedLambdaCalculus;

/// The token-list section of the report.
pub open spec fn lam_list_str(lexes: Seq<(LamLex, int, int)>) -> Seq<char>
    decreases lexes.len(),
{
    if lexes.len() == 0 {
        Seq::empty()
    } else {
        lam_list_str(lexes.drop_last()) + lam_debug(lexes.last().0) + ", "@
    }
}

/// The full report `run` produces for an input line: the echoed input, the
/// token listing, and the parsed term — or the first error, rendered
/// against the input.
pub open spec fn spec_run_lambda(input: Seq<char>) -> Seq<char> {
    let head = "input: "@ + input + "\n"@;
    match lambda_tokens_from(input, 0) {
        Err((m, st, l)) => head + render_error(
            m,
            Span { start: st as usize, length: l as usize },
            input,
        ),
        Ok(lexes) => {
            let head2 = head + "tokens: ["@ + lam_list_str(lexes) + "]\n"@;
            match parse_term_at(lexes, 0, term_fuel(lexes.len(), 0)) {
                TPRes::TOk(tm, n) => head2 + "parsed: "@ + term_display(tm) + "\n"@,
                TPRes::TErr(m, st, l) => head2 + render_error(
                    m,
                    Span { start: st as usize, length: l as usize },
                    input,
                ),
                TPRes::TOut => head2,
            }
        },
    }
}

impl UntypedLambdaCalculus {
    /// Runs the lambda calculus pipeline on one input line: echo the input,
    /// tokenize and list the tokens, then parse and print the term,
    /// rendering the first error if a stage fails.
    pub fn run(&self, input: &str) -> (out: String)
        ensures
            out@ == spec_run_lambda(input@),
    {
        let ghost s = input@;
        let mut out = String::new();
        out.append("input: ");
        out.append(input);
        push_char(&mut out, '\n');
        let ghost head = "input: "@ + s + "\n"@;
        proof {
            reveal_strlit("\n");
            assert(out@ =~= head);
            lemma_lambda_tokens_bounded(s, 0);
        }
        let tokens = match tokenize(input) {
            Ok(t) => t,
            Err(e) => {
                let rendered = tokenize_error_to_string(e, input);
                out.append(rendered.as_str());
                proof {
                    assert(out@ =~= spec_run_lambda(s));
                }
                return out;
            },
        };
        let ghost lexes = lam_token_views(tokens@);
        proof {
            assert(lexes =~= tokens@.map_values(|t: Spanned<Token>| lam_token_view(t)));
        }
        out.append("tokens: [");
        let mut k: usize = 0;
        let ghost head2pre = head + "tokens: ["@;
        proof {
            assert(lexes.take(0) =~= Seq::<(LamLex, int, int)>::empty());
            assert(out@ =~= head2pre + lam_list_str(lexes.take(0)));
        }
        while k < tokens.len()
            invariant
                k <= tokens@.len(),
                lexes == lam_token_views(tokens@),
                head2pre == head + "tokens: ["@,
                out@ == head2pre + lam_list_str(lexes.take(k as int)),
            decreases tokens@.len() - k,
        {
            let ds = token_debug_string(&tokens[k].item);
            out.append(ds.as_str());
            out.append(", ");
            proof {
                assert(lexes.take(k + 1 as int).drop_last() =~= lexes.take(k as int));
                assert(lexes.take(k + 1 as int).last() == lexes[k as int]);
                assert(out@ =~= head2pre + lam_list_str(lexes.take(k + 1 as int)));
            }
            k += 1;
        }
        out.append("]\n");
        let ghost head2 = head + "tokens: ["@ + lam_list_str(lexes) + "]\n"@;
        proof {
            assert(lexes.take(lexes.len() as int) =~= lexes);
            assert(out@ =~= head2);
            assert(tokens@.len() == tokens.len());
            lemma_tp_fuel(
                lexes,
                0,
                term_fuel(lexes.len(), 0),
                term_fuel(lexes.len(), 0),
                s.len() as int,
            );
            lemma_tp_progress(lexes, 0, term_fuel(lexes.len(), 0), s.len() as int);
        }
        let term = match parse(&tokens) {
            Ok(t) => t,
            Err(e) => {
                let rendered = parse_error_to_string(e, input);
                out.append(rendered.as_str());
                proof {
                    assert(out@ =~= spec_run_lambda(s));
                }
                return out;
            },
        };
        out.append("parsed: ");
        let ts = term_to_string(&term);
        out.append(ts.as_str());
        push_char(&mut out, '\n');
        proof {
            reveal_strlit("\n");
            assert(out@ =~= spec_run_lambda(s));
        }
        out
    }

    /// The display name of this language variant.
    pub fn name(&self) -> (r: String)
        ensures
            r@ == "Untyped Lambda Calculus"@,
    {
        "Untyped Lambda Calculus".to_owned()
    }

    /// A short debugging tag for this language variant.
    pub fn __debug__(&self) -> (r: String)
        ensures
            r@ == "UntypedLambdaCalculus"@,
    {
        "UntypedLambdaCalculus".to_owned()
    }
}

} // verus!
