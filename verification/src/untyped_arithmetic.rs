//! The untyped arithmetic language: booleans and naturals built from
//! `true`, `false`, `0`, `if`/`then`/`else`, `succ`, `pred` and `iszero`,
//! with a span-tracking tokenizer over words and whitespace runs, a
//! recursive-descent parser and a small-step evaluator whose normalization
//! loop provably terminates.

use crate::parsing_utils::ParseError;
use crate::parsing_utils::parse_error_to_string;
use crate::parsing_utils::render_error;
use crate::parsing_utils::Span;
use crate::parsing_utils::Spanned;
use crate::parsing_utils::dec_str;
use crate::parsing_utils::usize_to_string;
use crate::parsing_utils::is_ws;
use crate::parsing_utils::is_ws_char;
use crate::parsing_utils::push_char;
use crate::parsing_utils::str_eq;
use vstd::prelude::*;
use vstd::string::StrSliceExecFns;
use vstd::string::StringExecFns;

verus! {

/// A term of the untyped arithmetic language. Children are owned directly:
/// the tree has no sharing and no cycles.
#[derive(Debug, PartialEq, Eq)]
pub enum Term {
    True,
    False,
    If(Box<Term>, Box<Term>, Box<Term>),
    Zero,
    Succ(Box<Term>),
    Pred(Box<Term>),
    IsZero(Box<Term>),
}

/// Whether a term is a numeric value: `0`, or `succ` of a numeric value.
pub open spec fn is_numeric_value(t: Term) -> bool
    decreases t,
{
    match t {
        Term::Zero => true,
        Term::Succ(t1) => is_numeric_value(*t1),
        _ => false,
    }
}

/// Whether a term is a value: `true`, `false`, or a numeric value.
pub open spec fn is_value(t: Term) -> bool {
    t == Term::True || t == Term::False || is_numeric_value(t)
}

/// The number of nodes in a term; leaves count as 1.
pub open spec fn spec_size(t: Term) -> nat
    decreases t,
{
    match t {
        Term::If(t1, t2, t3) => 1 + spec_size(*t1) + spec_size(*t2) + spec_size(*t3),
        Term::Succ(t1) => 1 + spec_size(*t1),
        Term::Pred(t1) => 1 + spec_size(*t1),
        Term::IsZero(t1) => 1 + spec_size(*t1),
        _ => 1,
    }
}

/// The longest root-to-leaf path in a term; leaves count as 1.
pub open spec fn spec_depth(t: Term) -> nat
    decreases t,
{
    match t {
        Term::If(t1, t2, t3) => 1 + vstd::math::max(
            spec_depth(*t1) as int,
            vstd::math::max(spec_depth(*t2) as int, spec_depth(*t3) as int),
        ) as nat,
        Term::Succ(t1) => 1 + spec_depth(*t1),
        Term::Pred(t1) => 1 + spec_depth(*t1),
        Term::IsZero(t1) => 1 + spec_depth(*t1),
        _ => 1,
    }
}

/// The set of constant spellings (`"true"`, `"false"`, `"0"`) appearing in a
/// term.
pub open spec fn spec_consts(t: Term) -> Set<Seq<char>>
    decreases t,
{
    match t {
        Term::True => set!["true"@],
        Term::False => set!["false"@],
        Term::Zero => set!["0"@],
        Term::If(t1, t2, t3) => spec_consts(*t1).union(spec_consts(*t2)).union(spec_consts(*t3)),
        Term::Succ(t1) => spec_consts(*t1),
        Term::Pred(t1) => spec_consts(*t1),
        Term::IsZero(t1) => spec_consts(*t1),
    }
}

/// One step of the small-step reduction relation. A term to which no rule
/// applies (a value, or a stuck term) maps to itself.
pub open spec fn spec_step(t: Term) -> Term
    decreases t,
{
    match t {
        Term::If(t1, t2, t3) => match *t1 {
            Term::True => *t2,
            Term::False => *t3,
            _ => Term::If(Box::new(spec_step(*t1)), t2, t3),
        },
        Term::Succ(t1) => Term::Succ(Box::new(spec_step(*t1))),
        Term::Pred(t1) => match *t1 {
            Term::Zero => Term::Zero,
            Term::Succ(t2) => if is_numeric_value(*t2) {
                *t2
            } else {
                Term::Pred(Box::new(spec_step(*t1)))
            },
            _ => Term::Pred(Box::new(spec_step(*t1))),
        },
        Term::IsZero(t1) => match *t1 {
            Term::Zero => Term::True,
            Term::Succ(t2) => if is_numeric_value(*t2) {
                Term::False
            } else {
                Term::IsZero(Box::new(spec_step(*t1)))
            },
            _ => Term::IsZero(Box::new(spec_step(*t1))),
        },
        _ => t,
    }
}

/// Builds an `if` term.
pub fn if_(t1: Term, t2: Term, t3: Term) -> (t: Term)
    ensures
        t == Term::If(Box::new(t1), Box::new(t2), Box::new(t3)),
{
    Term::If(Box::new(t1), Box::new(t2), Box::new(t3))
}

/// Builds a `succ` term.
pub fn succ(t1: Term) -> (t: Term)
    ensures
        t == Term::Succ(Box::new(t1)),
{
    Term::Succ(Box::new(t1))
}

/// Builds a `pred` term.
pub fn pred(t1: Term) -> (t: Term)
    ensures
        t == Term::Pred(Box::new(t1)),
{
    Term::Pred(Box::new(t1))
}

/// Builds an `iszero` term.
pub fn iszero(t1: Term) -> (t: Term)
    ensures
        t == Term::IsZero(Box::new(t1)),
{
    Term::IsZero(Box::new(t1))
}

/// Whether a term is a numeric value.
pub fn isnumericval(term: &Term) -> (r: bool)
    ensures
        r == is_numeric_value(*term),
    decreases *term,
{
    match term {
        Term::Zero => true,
        Term::Succ(t1) => isnumericval(t1),
        _ => false,
    }
}

/// Whether a term is a value.
pub fn isval(term: &Term) -> (r: bool)
    ensures
        r == is_value(*term),
{
    match term {
        Term::True => true,
        Term::False => true,
        _ => isnumericval(term),
    }
}

/// Structural equality of two terms.
pub fn term_eq(a: &Term, b: &Term) -> (r: bool)
    ensures
        r == (*a == *b),
    decreases *a,
{
    match (a, b) {
        (Term::True, Term::True) => true,
        (Term::False, Term::False) => true,
        (Term::Zero, Term::Zero) => true,
        (Term::If(a1, a2, a3), Term::If(b1, b2, b3)) => term_eq(a1, b1) && term_eq(a2, b2)
            && term_eq(a3, b3),
        (Term::Succ(a1), Term::Succ(b1)) => term_eq(a1, b1),
        (Term::Pred(a1), Term::Pred(b1)) => term_eq(a1, b1),
        (Term::IsZero(a1), Term::IsZero(b1)) => term_eq(a1, b1),
        _ => false,
    }
}

/// A deep copy of a term.
pub fn clone_term(t: &Term) -> (r: Term)
    ensures
        r == *t,
    decreases *t,
{
    match t {
        Term::True => Term::True,
        Term::False => Term::False,
        Term::Zero => Term::Zero,
        Term::If(t1, t2, t3) => Term::If(
            Box::new(clone_term(t1)),
            Box::new(clone_term(t2)),
            Box::new(clone_term(t3)),
        ),
        Term::Succ(t1) => Term::Succ(Box::new(clone_term(t1))),
        Term::Pred(t1) => Term::Pred(Box::new(clone_term(t1))),
        Term::IsZero(t1) => Term::IsZero(Box::new(clone_term(t1))),
    }
}

/// A numeric value has no applicable reduction rule: it steps to itself.
pub proof fn lemma_numeric_value_steps_to_self(t: Term)
    requires
        is_numeric_value(t),
    ensures
        spec_step(t) == t,
    decreases t,
{
    match t {
        Term::Succ(t1) => lemma_numeric_value_steps_to_self(*t1),
        _ => {},
    }
}

/// A value has no applicable reduction rule: it steps to itself.
pub proof fn lemma_value_steps_to_self(t: Term)
    requires
        is_value(t),
    ensures
        spec_step(t) == t,
{
    if is_numeric_value(t) {
        lemma_numeric_value_steps_to_self(t);
    }
}

/// Every productive step strictly shrinks the term: a step either returns
/// the term unchanged (no rule applies) or decreases its size. This is what
/// makes the normalization loop terminate.
pub proof fn lemma_step_decreases(t: Term)
    ensures
        spec_step(t) == t || spec_size(spec_step(t)) < spec_size(t),
    decreases t,
{
    match t {
        Term::If(t1, t2, t3) => lemma_step_decreases(*t1),
        Term::Succ(t1) => lemma_step_decreases(*t1),
        Term::Pred(t1) => lemma_step_decreases(*t1),
        Term::IsZero(t1) => lemma_step_decreases(*t1),
        _ => {},
    }
}

/// Repeated reduction of a term until it reaches a value (`Ok`) or a stuck
/// term, one that is not a value and to which no rule applies (`Err`).
pub open spec fn normalize(t: Term) -> Result<Term, Term>
    decreases spec_size(t),
{
    if is_value(t) {
        Ok(t)
    } else if spec_step(t) == t {
        Err(t)
    } else {
        proof {
            lemma_step_decreases(t);
        }
        normalize(spec_step(t))
    }
}

/// Evaluation is idempotent: whenever normalization reaches a value,
/// normalizing that value again returns it unchanged.
pub proof fn lemma_normalize_idempotent(t: Term)
    ensures
        normalize(t) matches Ok(v) ==> is_value(v) && normalize(v) == Ok::<Term, Term>(v),
    decreases spec_size(t),
{
    if is_value(t) {
    } else if spec_step(t) == t {
    } else {
        lemma_step_decreases(t);
        lemma_normalize_idempotent(spec_step(t));
    }
}

/// An evaluation failure: the message and the stuck term it arose at.
#[derive(Debug)]
pub struct EvalError {
    pub message: String,
    pub term: Term,
}

/// Builds an evaluation error from a message and the stuck term.
pub fn eval_err(message: &str, term: &Term) -> (e: EvalError)
    ensures
        e.message@ == message@,
        e.term == *term,
{
    EvalError { message: message.to_owned(), term: clone_term(term) }
}

/// Applies one reduction step. No rule ever fails outright: a term with no
/// applicable rule is returned unchanged, which the evaluation loop detects.
pub fn little_step_eval(term: &Term) -> (r: Result<Term, EvalError>)
    ensures
        r matches Ok(t) && t == spec_step(*term),
    decreases *term,
{
    let t = match term {
        Term::If(t1, t2, t3) => match **t1 {
            Term::True => clone_term(t2),
            Term::False => clone_term(t3),
            _ => {
                let s1 = match little_step_eval(t1) {
                    Ok(s1) => s1,
                    Err(e) => {
                        return Err(e);
                    },
                };
                if_(s1, clone_term(t2), clone_term(t3))
            },
        },
        Term::Succ(t1) => {
            let s1 = match little_step_eval(t1) {
                Ok(s1) => s1,
                Err(e) => {
                    return Err(e);
                },
            };
            succ(s1)
        },
        Term::Pred(t1) => match &**t1 {
            Term::Zero => Term::Zero,
            Term::Succ(t2) if isnumericval(t2) => clone_term(t2),
            _ => {
                let s1 = match little_step_eval(t1) {
                    Ok(s1) => s1,
                    Err(e) => {
                        return Err(e);
                    },
                };
                pred(s1)
            },
        },
        Term::IsZero(t1) => match &**t1 {
            Term::Zero => Term::True,
            Term::Succ(t2) if isnumericval(t2) => Term::False,
            _ => {
                let s1 = match little_step_eval(t1) {
                    Ok(s1) => s1,
                    Err(e) => {
                        return Err(e);
                    },
                };
                iszero(s1)
            },
        },
        Term::True => Term::True,
        Term::False => Term::False,
        Term::Zero => Term::Zero,
    };
    Ok(t)
}

/// The first offset at or after `i` holding a non-whitespace character, or
/// the input's length if there is none.
pub open spec fn next_non_ws(s: Seq<char>, i: int) -> int
    decreases s.len() - i when 0 <= i <= s.len()
{
    if i >= s.len() {
        s.len() as int
    } else if is_ws_char(s[i]) {
        next_non_ws(s, i + 1)
    } else {
        i
    }
}

/// The first offset at or after `i` holding a whitespace character, or the
/// input's length if there is none.
pub open spec fn next_ws(s: Seq<char>, i: int) -> int
    decreases s.len() - i when 0 <= i <= s.len()
{
    if i >= s.len() {
        s.len() as int
    } else if !is_ws_char(s[i]) {
        next_ws(s, i + 1)
    } else {
        i
    }
}

/// `next_non_ws` lands on the first non-whitespace character.
pub proof fn lemma_next_non_ws(s: Seq<char>, i: int)
    requires
        0 <= i <= s.len(),
    ensures
        i <= next_non_ws(s, i) <= s.len(),
        forall|j: int| i <= j < next_non_ws(s, i) ==> is_ws_char(s[j]),
        next_non_ws(s, i) < s.len() ==> !is_ws_char(s[next_non_ws(s, i)]),
    decreases s.len() - i,
{
    if i < s.len() && is_ws_char(s[i]) {
        lemma_next_non_ws(s, i + 1);
    }
}

/// `next_ws` lands on the first whitespace character.
pub proof fn lemma_next_ws(s: Seq<char>, i: int)
    requires
        0 <= i <= s.len(),
    ensures
        i <= next_ws(s, i) <= s.len(),
        forall|j: int| i <= j < next_ws(s, i) ==> !is_ws_char(s[j]),
        next_ws(s, i) < s.len() ==> is_ws_char(s[next_ws(s, i)]),
    decreases s.len() - i,
{
    if i < s.len() && !is_ws_char(s[i]) {
        lemma_next_ws(s, i + 1);
    }
}

/// A token of the arithmetic language: a maximal non-whitespace word (a
/// keyword, or any other spelling the parser will reject), or a maximal
/// whitespace run, kept as a token so the parser, not the tokenizer,
/// decides what to skip.
#[derive(Debug, PartialEq, Eq)]
pub enum Token {
    Word(String),
    Whitespace(String),
}

/// The mathematical model of a token.
pub enum ALex {
    Word(Seq<char>),
    Whitespace(Seq<char>),
}

/// The model of a token.
pub open spec fn alex_of(t: Token) -> ALex {
    match t {
        Token::Word(w) => ALex::Word(w@),
        Token::Whitespace(w) => ALex::Whitespace(w@),
    }
}

/// The model triple of an emitted token: its classification, span start
/// and span length.
pub open spec fn token_view(t: Spanned<Token>) -> (ALex, int, int) {
    (alex_of(t.item), t.span.start as int, t.span.length as int)
}

/// The token models and spans the tokenizer emits from offset `i` to the
/// end of `s`: alternating maximal non-whitespace words and maximal
/// whitespace runs, each with its exact character span.
pub open spec fn arith_tokens_from(s: Seq<char>, i: int) -> Seq<(ALex, int, int)>
    decreases s.len() - i when 0 <= i <= s.len()
{
    if i >= s.len() {
        Seq::empty()
    } else if is_ws_char(s[i]) {
        let k = next_non_ws(s, i);
        proof {
            lemma_next_non_ws(s, i);
        }
        seq![(ALex::Whitespace(s.subrange(i, k)), i, k - i)] + arith_tokens_from(s, k)
    } else {
        let k = next_ws(s, i);
        proof {
            lemma_next_ws(s, i);
        }
        seq![(ALex::Word(s.subrange(i, k)), i, k - i)] + arith_tokens_from(s, k)
    }
}

/// Every token span lies within the input. (That each token's payload is
/// exactly the source text its span covers is visible directly in
/// `arith_tokens_from`: the payload is that very subrange.)
pub proof fn lemma_arith_tokens_bounded(s: Seq<char>, i: int)
    requires
        0 <= i <= s.len(),
    ensures
        forall|k: int|
            0 <= k < arith_tokens_from(s, i).len() ==> 0 <= #[trigger] arith_tokens_from(s, i)[k].1
                && 0 <= arith_tokens_from(s, i)[k].2 && arith_tokens_from(s, i)[k].1
                + arith_tokens_from(s, i)[k].2 <= s.len(),
    decreases s.len() - i,
{
    if i < s.len() {
        if is_ws_char(s[i]) {
            lemma_next_non_ws(s, i);
            lemma_arith_tokens_bounded(s, next_non_ws(s, i));
        } else {
            lemma_next_ws(s, i);
            lemma_arith_tokens_bounded(s, next_ws(s, i));
        }
        assert forall|k: int| 0 <= k < arith_tokens_from(s, i).len() implies 0 <= #[trigger]
            arith_tokens_from(s, i)[k].1 && 0 <= arith_tokens_from(s, i)[k].2
            && arith_tokens_from(s, i)[k].1 + arith_tokens_from(s, i)[k].2 <= s.len() by {
            if k > 0 {
                if is_ws_char(s[i]) {
                    assert(arith_tokens_from(s, i)[k] == arith_tokens_from(
                        s,
                        next_non_ws(s, i),
                    )[k - 1]);
                } else {
                    assert(arith_tokens_from(s, i)[k] == arith_tokens_from(s, next_ws(s, i))[k
                        - 1]);
                }
            }
        }
    }
}

/// Tokenizes the input into its alternating words and whitespace runs,
/// each carrying its exact character span, exactly as `arith_tokens_from`
/// describes.
pub fn tokenize(input: &str) -> (r: Vec<Spanned<Token>>)
    ensures
        r@.map_values(|t: Spanned<Token>| token_view(t)) == arith_tokens_from(input@, 0),
        input@.len() <= usize::MAX,
{
    let ghost s = input@;
    let n = input.unicode_len();
    let mut tokens: Vec<Spanned<Token>> = Vec::new();
    let mut i: usize = 0;
    proof {
        assert(tokens@.map_values(|t: Spanned<Token>| token_view(t)) + arith_tokens_from(s, 0)
            =~= arith_tokens_from(s, 0));
    }
    while i < n
        invariant
            i <= n == s.len(),
            s == input@,
            tokens@.map_values(|t: Spanned<Token>| token_view(t)) + arith_tokens_from(s, i as int)
                == arith_tokens_from(s, 0),
        decreases n - i,
    {
        let c = input.get_char(i);
        let mut k: usize = i;
        loop
            invariant_except_break
                i <= k <= n,
                n == s.len(),
                s == input@,
                is_ws_char(s[i as int]) == is_ws_char(c),
                c == s[i as int],
                forall|j: int| i <= j < k ==> is_ws_char(s[j]) == is_ws_char(s[i as int]),
            ensures
                i <= k <= n,
                n == s.len(),
                c == s[i as int],
                forall|j: int| i <= j < k ==> is_ws_char(s[j]) == is_ws_char(s[i as int]),
                k < n ==> is_ws_char(s[k as int]) != is_ws_char(s[i as int]),
            decreases n - k,
        {
            if k >= n {
                break ;
            }
            if is_ws(input.get_char(k)) != is_ws(c) {
                break ;
            }
            k += 1;
        }
        let w = input.substring_char(i, k).to_owned();
        let ghost tokens0 = tokens@;
        if is_ws(c) {
            proof {
                lemma_next_non_ws(s, i as int);
                assert(k == next_non_ws(s, i as int));
            }
            tokens.push(Spanned::new(Token::Whitespace(w), Span { start: i, length: k - i }));
        } else {
            proof {
                lemma_next_ws(s, i as int);
                assert(k == next_ws(s, i as int));
            }
            tokens.push(Spanned::new(Token::Word(w), Span { start: i, length: k - i }));
        }
        proof {
            assert(tokens@.map_values(|t: Spanned<Token>| token_view(t)) =~= tokens0.map_values(
                |t: Spanned<Token>| token_view(t),
            ).push((alex_of(tokens@.last().item), i as int, k - i)));
            assert(tokens0.map_values(|t: Spanned<Token>| token_view(t)) + (seq![
                (alex_of(tokens@.last().item), i as int, k - i),
            ] + arith_tokens_from(s, k as int)) =~= tokens@.map_values(
                |t: Spanned<Token>| token_view(t),
            ) + arith_tokens_from(s, k as int));
        }
        i = k;
    }
    proof {
        assert(arith_tokens_from(s, n as int) =~= Seq::<(ALex, int, int)>::empty());
        assert(tokens@.map_values(|t: Spanned<Token>| token_view(t)) =~= arith_tokens_from(s, 0));
    }
    tokens
}

/// The number of nodes in a term.
pub fn size(term: &Term) -> (n: usize)
    requires
        spec_size(*term) <= usize::MAX,
    ensures
        n == spec_size(*term),
    decreases *term,
{
    match term {
        Term::If(t1, t2, t3) => 1 + size(t1) + size(t2) + size(t3),
        Term::Succ(t1) => 1 + size(t1),
        Term::Pred(t1) => 1 + size(t1),
        Term::IsZero(t1) => 1 + size(t1),
        _ => 1,
    }
}

/// The longest root-to-leaf path in a term.
pub fn depth(term: &Term) -> (n: usize)
    requires
        spec_depth(*term) <= usize::MAX,
    ensures
        n == spec_depth(*term),
    decreases *term,
{
    match term {
        Term::If(t1, t2, t3) => {
            let d1 = depth(t1);
            let d2 = depth(t2);
            let d3 = depth(t3);
            let m12 = if d1 >= d2 {
                d1
            } else {
                d2
            };
            let m = if m12 >= d3 {
                m12
            } else {
                d3
            };
            1 + m
        },
        Term::Succ(t1) => 1 + depth(t1),
        Term::Pred(t1) => 1 + depth(t1),
        Term::IsZero(t1) => 1 + depth(t1),
        _ => 1,
    }
}

/// Appends to `a` every element of `b` it does not already hold, in order.
pub open spec fn list_union(a: Seq<Seq<char>>, b: Seq<Seq<char>>) -> Seq<Seq<char>>
    decreases b.len(),
{
    if b.len() == 0 {
        a
    } else {
        let prev = list_union(a, b.drop_last());
        if prev.contains(b.last()) {
            prev
        } else {
            prev.push(b.last())
        }
    }
}

/// The deduplicated list of constant spellings of a term, in first-visit
/// order of a pre-order walk.
pub open spec fn spec_consts_list(t: Term) -> Seq<Seq<char>>
    decreases t,
{
    match t {
        Term::True => seq!["true"@],
        Term::False => seq!["false"@],
        Term::Zero => seq!["0"@],
        Term::If(t1, t2, t3) => list_union(
            list_union(spec_consts_list(*t1), spec_consts_list(*t2)),
            spec_consts_list(*t3),
        ),
        Term::Succ(t1) => spec_consts_list(*t1),
        Term::Pred(t1) => spec_consts_list(*t1),
        Term::IsZero(t1) => spec_consts_list(*t1),
    }
}

/// `list_union` holds exactly the elements of its two arguments.
pub proof fn lemma_list_union_membership(a: Seq<Seq<char>>, b: Seq<Seq<char>>)
    ensures
        forall|x: Seq<char>| #[trigger]
            list_union(a, b).contains(x) <==> a.contains(x) || b.contains(x),
    decreases b.len(),
{
    if b.len() > 0 {
        lemma_list_union_membership(a, b.drop_last());
        assert(forall|x: Seq<char>| #[trigger] b.contains(x) ==> b.drop_last().contains(x) || x
            == b.last()) by {
            assert forall|x: Seq<char>| #[trigger] b.contains(x) implies b.drop_last().contains(x)
                || x == b.last() by {
                let i = choose|i: int| 0 <= i < b.len() && b[i] == x;
                if i < b.len() - 1 {
                    assert(b.drop_last()[i] == x);
                }
            }
        }
        assert(forall|x: Seq<char>| b.drop_last().contains(x) ==> #[trigger] b.contains(x)) by {
            assert forall|x: Seq<char>| b.drop_last().contains(x) implies #[trigger] b.contains(
                x,
            ) by {
                let i = choose|i: int| 0 <= i < b.drop_last().len() && b.drop_last()[i] == x;
                assert(b[i] == x);
            }
        }
        assert(b.contains(b.last())) by {
            assert(b[b.len() - 1] == b.last());
        }
        if !list_union(a, b.drop_last()).contains(b.last()) {
            assert(forall|x: Seq<char>| #[trigger]
                list_union(a, b).contains(x) ==> list_union(a, b.drop_last()).contains(x) || x
                == b.last()) by {
                assert forall|x: Seq<char>| #[trigger] list_union(a, b).contains(x) implies
                    list_union(a, b.drop_last()).contains(x) || x == b.last() by {
                    let p = list_union(a, b.drop_last());
                    let i = choose|i: int| 0 <= i < p.push(b.last()).len() && p.push(b.last())[i]
                        == x;
                    if i < p.len() {
                        assert(p[i] == x);
                    }
                }
            }
            assert(forall|x: Seq<char>|
                list_union(a, b.drop_last()).contains(x) ==> #[trigger] list_union(a, b).contains(
                    x,
                )) by {
                assert forall|x: Seq<char>| list_union(a, b.drop_last()).contains(x) implies
                    #[trigger] list_union(a, b).contains(x) by {
                    let p = list_union(a, b.drop_last());
                    let i = choose|i: int| 0 <= i < p.len() && p[i] == x;
                    assert(p.push(b.last())[i] == x);
                }
            }
            assert(list_union(a, b).contains(b.last())) by {
                let p = list_union(a, b.drop_last());
                assert(p.push(b.last())[p.len() as int] == b.last());
            }
        }
    } else {
        assert(forall|x: Seq<char>| !(#[trigger] b.contains(x)));
    }
}

/// `list_union` keeps a duplicate-free list duplicate-free.
pub proof fn lemma_list_union_nodup(a: Seq<Seq<char>>, b: Seq<Seq<char>>)
    requires
        forall|i: int, j: int| 0 <= i < j < a.len() ==> a[i] != a[j],
    ensures
        forall|i: int, j: int|
            0 <= i < j < list_union(a, b).len() ==> list_union(a, b)[i] != list_union(a, b)[j],
    decreases b.len(),
{
    if b.len() > 0 {
        lemma_list_union_nodup(a, b.drop_last());
        let p = list_union(a, b.drop_last());
        if !p.contains(b.last()) {
            assert forall|i: int, j: int| 0 <= i < j < p.push(b.last()).len() implies p.push(
                b.last(),
            )[i] != p.push(b.last())[j] by {
                if j < p.len() {
                    assert(p[i] == p.push(b.last())[i] && p[j] == p.push(b.last())[j]);
                } else {
                    assert(p.push(b.last())[j] == b.last());
                    assert(p.push(b.last())[i] == p[i]);
                    assert(!p.contains(b.last()));
                    assert(p[i] != b.last());
                }
            }
        }
    }
}

/// What `lemma_consts_list` shows of a term: its constant list holds
/// exactly its constant set, without duplicates.
pub open spec fn consts_list_correct(t: Term) -> bool {
    &&& forall|x: Seq<char>| #[trigger]
        spec_consts_list(t).contains(x) <==> spec_consts(t).contains(x)
    &&& forall|i: int, j: int|
        0 <= i < j < spec_consts_list(t).len() ==> spec_consts_list(t)[i]
            != spec_consts_list(t)[j]
}

/// Transfers `consts_list_correct` between terms with the same constant
/// list and set.
proof fn lemma_consts_same(a: Term, b: Term)
    requires
        spec_consts_list(a) == spec_consts_list(b),
        spec_consts(a) == spec_consts(b),
        consts_list_correct(b),
    ensures
        consts_list_correct(a),
{
    assert forall|x: Seq<char>| #[trigger]
        spec_consts_list(a).contains(x) <==> spec_consts(a).contains(x) by {
        assert(spec_consts_list(b).contains(x) <==> spec_consts(b).contains(x));
    }
    assert forall|i: int, j: int|
        0 <= i < j < spec_consts_list(a).len() implies spec_consts_list(a)[i]
        != spec_consts_list(a)[j] by {
        assert(spec_consts_list(b)[i] != spec_consts_list(b)[j]);
    }
}

/// The constant list of a term holds exactly its constant set, without
/// duplicates.
pub proof fn lemma_consts_list(t: Term)
    ensures
        consts_list_correct(t),
    decreases t,
{
    match t {
        Term::If(t1, t2, t3) => {
            lemma_consts_list(*t1);
            lemma_consts_list(*t2);
            lemma_consts_list(*t3);
            let l1 = spec_consts_list(*t1);
            let l2 = spec_consts_list(*t2);
            let l3 = spec_consts_list(*t3);
            lemma_list_union_membership(l1, l2);
            lemma_list_union_membership(list_union(l1, l2), l3);
            lemma_list_union_nodup(l1, l2);
            lemma_list_union_nodup(list_union(l1, l2), l3);
            assert(spec_consts_list(t) == list_union(list_union(l1, l2), l3));
            assert forall|x: Seq<char>| #[trigger]
                spec_consts_list(t).contains(x) <==> spec_consts(t).contains(x) by {
                assert(list_union(list_union(l1, l2), l3).contains(x) <==> list_union(
                    l1,
                    l2,
                ).contains(x) || l3.contains(x));
                assert(list_union(l1, l2).contains(x) <==> l1.contains(x) || l2.contains(x));
                assert(spec_consts(t).contains(x) <==> spec_consts(*t1).contains(x) || spec_consts(
                    *t2,
                ).contains(x) || spec_consts(*t3).contains(x));
            }
            assert forall|i: int, j: int|
                0 <= i < j < spec_consts_list(t).len() implies spec_consts_list(t)[i]
                != spec_consts_list(t)[j] by {
                assert(list_union(list_union(l1, l2), l3)[i] != list_union(
                    list_union(l1, l2),
                    l3,
                )[j]);
            }
        },
        Term::Succ(t1) => {
            lemma_consts_list(*t1);
            lemma_consts_same(t, *t1);
        },
        Term::Pred(t1) => {
            lemma_consts_list(*t1);
            lemma_consts_same(t, *t1);
        },
        Term::IsZero(t1) => {
            lemma_consts_list(*t1);
            lemma_consts_same(t, *t1);
        },
        _ => {
            assert(spec_consts_list(t)[0] == spec_consts_list(t).last());
        },
    }
}

/// Whether some element of `v` spells the same characters as `s`.
fn vec_contains_str(v: &Vec<String>, s: &str) -> (r: bool)
    ensures
        r == v@.map_values(|t: String| t@).contains(s@),
{
    let mut k: usize = 0;
    while k < v.len()
        invariant
            k <= v@.len(),
            forall|i: int| 0 <= i < k ==> #[trigger] v@[i]@ != s@,
        decreases v@.len() - k,
    {
        if str_eq(v[k].as_str(), s) {
            assert(v@.map_values(|t: String| t@)[k as int] == s@);
            return true;
        }
        k += 1;
    }
    proof {
        let m = v@.map_values(|t: String| t@);
        if m.contains(s@) {
            let i = choose|i: int| 0 <= i < m.len() && m[i] == s@;
            assert(v@[i]@ == s@);
        }
    }
    false
}

/// Appends to `dst` every spelling of `src` it does not already hold.
fn add_all(dst: &mut Vec<String>, src: &Vec<String>)
    ensures
        final(dst)@.map_values(|t: String| t@) == list_union(
            old(dst)@.map_values(|t: String| t@),
            src@.map_values(|t: String| t@),
        ),
{
    let ghost a = old(dst)@.map_values(|t: String| t@);
    let ghost b = src@.map_values(|t: String| t@);
    let mut k: usize = 0;
    proof {
        assert(b.take(0) =~= Seq::<Seq<char>>::empty());
    }
    while k < src.len()
        invariant
            k <= src@.len(),
            b == src@.map_values(|t: String| t@),
            dst@.map_values(|t: String| t@) == list_union(a, b.take(k as int)),
        decreases src@.len() - k,
    {
        let ghost pre = dst@.map_values(|t: String| t@);
        proof {
            assert(b.take(k + 1 as int).drop_last() =~= b.take(k as int));
            assert(b.take(k + 1 as int).last() == b[k as int]);
        }
        if !vec_contains_str(dst, src[k].as_str()) {
            let s = src[k].clone();
            let ghost dst0 = dst@;
            dst.push(s);
            proof {
                assert(dst@.map_values(|t: String| t@) =~= dst0.map_values(|t: String| t@).push(
                    src@[k as int]@,
                ));
            }
        }
        k += 1;
    }
    proof {
        assert(b.take(src@.len() as int) =~= b);
    }
}

/// The deduplicated constant spellings of a term, in first-visit order.
pub fn consts(term: &Term) -> (r: Vec<String>)
    ensures
        r@.map_values(|t: String| t@) == spec_consts_list(*term),
    decreases *term,
{
    match term {
        Term::True => {
            let mut v: Vec<String> = Vec::new();
            v.push("true".to_owned());
            proof {
                assert(v@.map_values(|t: String| t@) =~= seq!["true"@]);
            }
            v
        },
        Term::False => {
            let mut v: Vec<String> = Vec::new();
            v.push("false".to_owned());
            proof {
                assert(v@.map_values(|t: String| t@) =~= seq!["false"@]);
            }
            v
        },
        Term::Zero => {
            let mut v: Vec<String> = Vec::new();
            v.push("0".to_owned());
            proof {
                assert(v@.map_values(|t: String| t@) =~= seq!["0"@]);
            }
            v
        },
        Term::If(t1, t2, t3) => {
            let mut v = consts(t1);
            let v2 = consts(t2);
            let v3 = consts(t3);
            add_all(&mut v, &v2);
            add_all(&mut v, &v3);
            v
        },
        Term::Succ(t1) => consts(t1),
        Term::Pred(t1) => consts(t1),
        Term::IsZero(t1) => consts(t1),
    }
}

/// Builds an arithmetic parse error from a message and the offending
/// token's span.
pub fn err(message: &str, span: Span) -> (e: ParseError)
    ensures
        e.message@ == message@,
        e.span == span,
{
    ParseError { message: message.to_owned(), span }
}

/// Whether the parser skips this token kind.
pub open spec fn is_skippable(lex: ALex) -> bool {
    lex is Whitespace
}

/// The first token index at or after `i` that the parser does not skip.
pub open spec fn skip_at(toks: Seq<(ALex, int, int)>, i: int) -> int
    decreases toks.len() - i when 0 <= i <= toks.len()
{
    if i >= toks.len() {
        toks.len() as int
    } else if is_skippable(toks[i].0) {
        skip_at(toks, i + 1)
    } else {
        i
    }
}

/// `skip_at` lands on the first unskippable token.
pub proof fn lemma_skip_at(toks: Seq<(ALex, int, int)>, i: int)
    requires
        0 <= i <= toks.len(),
    ensures
        i <= skip_at(toks, i) <= toks.len(),
        skip_at(toks, i) < toks.len() ==> !is_skippable(toks[skip_at(toks, i)].0),
        skip_at(toks, skip_at(toks, i)) == skip_at(toks, i),
    decreases toks.len() - i,
{
    if i < toks.len() && is_skippable(toks[i].0) {
        lemma_skip_at(toks, i + 1);
    }
}

/// Every token span lies within offset bound `b`.
pub open spec fn tokens_bounded(toks: Seq<(ALex, int, int)>, b: int) -> bool {
    forall|k: int|
        0 <= k < toks.len() ==> 0 <= #[trigger] toks[k].1 && 0 <= toks[k].2 && toks[k].1
            + toks[k].2 <= b
}

/// Outcome of the specification-level parser: a term together with the
/// index of the first token after it, a parse error with its message and
/// span, or exhausted recursion budget.
pub enum ParseOutcome {
    POk(Term, int),
    PErr(Seq<char>, int, int),
    POut,
}

/// The message of a failed keyword expectation.
pub open spec fn expected_message(expected: Seq<char>) -> Seq<char> {
    "Expected '"@ + expected + "'"@
}

/// Specification of `expect`: the next meaningful token must be a word
/// spelling `expected`.
pub open spec fn expect_at(toks: Seq<(ALex, int, int)>, i: int, expected: Seq<char>) -> Result<
    int,
    (Seq<char>, int, int),
> {
    if i < 0 || i > toks.len() {
        Err(("Unexpected end of input"@, 0, 0))
    } else {
        let j = skip_at(toks, i);
        if j >= toks.len() {
            Err(("Unexpected end of input"@, 0, 0))
        } else {
            match toks[j].0 {
                ALex::Word(w) => if w == expected {
                    Ok(j + 1)
                } else {
                    Err((expected_message(expected), toks[j].1, toks[j].2))
                },
                ALex::Whitespace(_) => Err((expected_message(expected), toks[j].1, toks[j].2)),
            }
        }
    }
}

/// The recursion budget that suffices to parse from token index `i`.
pub open spec fn parse_fuel(len: nat, i: int) -> nat {
    if i <= len {
        (len - i) as nat
    } else {
        0
    }
}

/// Specification of the recursive-descent parser for
/// `term := "true" | "false" | "0" | "if" term "then" term "else" term
///        | "succ" term | "pred" term | "iszero" term`,
/// starting at token index `i` and skipping whitespace tokens.
pub open spec fn parse_at(toks: Seq<(ALex, int, int)>, i: int, fuel: nat) -> ParseOutcome
    decreases fuel,
{
    if i < 0 || i > toks.len() {
        ParseOutcome::PErr("Unexpected end of input"@, 0, 0)
    } else {
        let j = skip_at(toks, i);
        if j >= toks.len() {
            ParseOutcome::PErr("Unexpected end of input"@, 0, 0)
        } else if fuel == 0 {
            ParseOutcome::POut
        } else {
            match toks[j].0 {
                ALex::Word(w) => if w == "true"@ {
                    ParseOutcome::POk(Term::True, j + 1)
                } else if w == "false"@ {
                    ParseOutcome::POk(Term::False, j + 1)
                } else if w == "if"@ {
                    match parse_at(toks, j + 1, (fuel - 1) as nat) {
                        ParseOutcome::POk(t1, j1) => match expect_at(toks, j1, "then"@) {
                            Ok(j2) => match parse_at(toks, j2, (fuel - 1) as nat) {
                                ParseOutcome::POk(t2, j3) => match expect_at(toks, j3, "else"@) {
                                    Ok(j4) => match parse_at(toks, j4, (fuel - 1) as nat) {
                                        ParseOutcome::POk(t3, j5) => ParseOutcome::POk(
                                            Term::If(Box::new(t1), Box::new(t2), Box::new(t3)),
                                            j5,
                                        ),
                                        other => other,
                                    },
                                    Err(e) => ParseOutcome::PErr(e.0, e.1, e.2),
                                },
                                other => other,
                            },
                            Err(e) => ParseOutcome::PErr(e.0, e.1, e.2),
                        },
                        other => other,
                    }
                } else if w == "0"@ {
                    ParseOutcome::POk(Term::Zero, j + 1)
                } else if w == "succ"@ {
                    match parse_at(toks, j + 1, (fuel - 1) as nat) {
                        ParseOutcome::POk(t1, n) => ParseOutcome::POk(Term::Succ(Box::new(t1)), n),
                        other => other,
                    }
                } else if w == "pred"@ {
                    match parse_at(toks, j + 1, (fuel - 1) as nat) {
                        ParseOutcome::POk(t1, n) => ParseOutcome::POk(Term::Pred(Box::new(t1)), n),
                        other => other,
                    }
                } else if w == "iszero"@ {
                    match parse_at(toks, j + 1, (fuel - 1) as nat) {
                        ParseOutcome::POk(t1, n) => ParseOutcome::POk(
                            Term::IsZero(Box::new(t1)),
                            n,
                        ),
                        other => other,
                    }
                } else {
                    ParseOutcome::PErr("Unexpected token"@, toks[j].1, toks[j].2)
                },
                ALex::Whitespace(_) => ParseOutcome::PErr("Unexpected token"@, toks[j].1, toks[j].2),
            }
        }
    }
}

/// A successful parse consumes at least one token per tree node and stays
/// within bounds.
pub proof fn lemma_parse_progress(toks: Seq<(ALex, int, int)>, i: int, fuel: nat)
    ensures
        parse_at(toks, i, fuel) matches ParseOutcome::POk(t, j) ==> i < j <= toks.len()
            && spec_size(t) <= j - i,
    decreases fuel,
{
    if 0 <= i <= toks.len() {
        lemma_skip_at(toks, i);
        let j = skip_at(toks, i);
        if j < toks.len() && fuel > 0 {
            lemma_parse_progress(toks, j + 1, (fuel - 1) as nat);
            if toks[j].0 matches ALex::Word(w) && w == "if"@ {
                match parse_at(toks, j + 1, (fuel - 1) as nat) {
                    ParseOutcome::POk(t1, j1) => {
                        lemma_skip_at(toks, j1);
                        match expect_at(toks, j1, "then"@) {
                            Ok(j2) => {
                                lemma_parse_progress(toks, j2, (fuel - 1) as nat);
                                match parse_at(toks, j2, (fuel - 1) as nat) {
                                    ParseOutcome::POk(t2, j3) => {
                                        lemma_skip_at(toks, j3);
                                        match expect_at(toks, j3, "else"@) {
                                            Ok(j4) => {
                                                lemma_parse_progress(toks, j4, (fuel - 1) as nat);
                                            },
                                            Err(_) => {},
                                        }
                                    },
                                    _ => {},
                                }
                            },
                            Err(_) => {},
                        }
                    },
                    _ => {},
                }
            }
        }
    }
}

/// Every reported parse-error span lies within the token spans' bound.
pub proof fn lemma_parse_err_spans(toks: Seq<(ALex, int, int)>, i: int, fuel: nat, b: int)
    requires
        tokens_bounded(toks, b),
        b >= 0,
    ensures
        parse_at(toks, i, fuel) matches ParseOutcome::PErr(m, st, l) ==> 0 <= st && 0 <= l && st
            + l <= b,
    decreases fuel,
{
    if 0 <= i <= toks.len() {
        lemma_skip_at(toks, i);
        let j = skip_at(toks, i);
        if j < toks.len() && fuel > 0 {
            lemma_parse_err_spans(toks, j + 1, (fuel - 1) as nat, b);
            lemma_parse_progress(toks, j + 1, (fuel - 1) as nat);
            if toks[j].0 matches ALex::Word(w) && w == "if"@ {
                match parse_at(toks, j + 1, (fuel - 1) as nat) {
                    ParseOutcome::POk(t1, j1) => {
                        lemma_skip_at(toks, j1);
                        match expect_at(toks, j1, "then"@) {
                            Ok(j2) => {
                                lemma_parse_err_spans(toks, j2, (fuel - 1) as nat, b);
                                lemma_parse_progress(toks, j2, (fuel - 1) as nat);
                                match parse_at(toks, j2, (fuel - 1) as nat) {
                                    ParseOutcome::POk(t2, j3) => {
                                        lemma_skip_at(toks, j3);
                                        match expect_at(toks, j3, "else"@) {
                                            Ok(j4) => {
                                                lemma_parse_err_spans(
                                                    toks,
                                                    j4,
                                                    (fuel - 1) as nat,
                                                    b,
                                                );
                                            },
                                            Err(_) => {},
                                        }
                                    },
                                    _ => {},
                                }
                            },
                            Err(_) => {},
                        }
                    },
                    _ => {},
                }
            }
        }
    }
}

/// With a sufficient budget the parser never runs out of fuel, and any two
/// sufficient budgets yield the same outcome.
pub proof fn lemma_parse_fuel(toks: Seq<(ALex, int, int)>, i: int, f1: nat, f2: nat)
    requires
        f1 >= toks.len() - i,
        f2 >= toks.len() - i,
    ensures
        parse_at(toks, i, f1) == parse_at(toks, i, f2),
        !(parse_at(toks, i, f1) is POut),
    decreases f1,
{
    if 0 <= i <= toks.len() {
        lemma_skip_at(toks, i);
        let j = skip_at(toks, i);
        if j < toks.len() {
            lemma_parse_fuel(toks, j + 1, (f1 - 1) as nat, (f2 - 1) as nat);
            lemma_parse_progress(toks, j + 1, (f1 - 1) as nat);
            if toks[j].0 matches ALex::Word(w) && w == "if"@ {
                match parse_at(toks, j + 1, (f1 - 1) as nat) {
                    ParseOutcome::POk(t1, j1) => {
                        lemma_skip_at(toks, j1);
                        match expect_at(toks, j1, "then"@) {
                            Ok(j2) => {
                                lemma_parse_fuel(toks, j2, (f1 - 1) as nat, (f2 - 1) as nat);
                                lemma_parse_progress(toks, j2, (f1 - 1) as nat);
                                match parse_at(toks, j2, (f1 - 1) as nat) {
                                    ParseOutcome::POk(t2, j3) => {
                                        lemma_skip_at(toks, j3);
                                        match expect_at(toks, j3, "else"@) {
                                            Ok(j4) => {
                                                lemma_parse_fuel(
                                                    toks,
                                                    j4,
                                                    (f1 - 1) as nat,
                                                    (f2 - 1) as nat,
                                                );
                                            },
                                            Err(_) => {},
                                        }
                                    },
                                    _ => {},
                                }
                            },
                            Err(_) => {},
                        }
                    },
                    _ => {},
                }
            }
        }
    }
}

/// The next meaningful token's spelling and index, when it is a word.
pub open spec fn word_at(toks: Seq<(ALex, int, int)>, i: int) -> Option<(Seq<char>, int)> {
    if i < 0 || i > toks.len() {
        None
    } else {
        let j = skip_at(toks, i);
        if j >= toks.len() {
            None
        } else {
            match toks[j].0 {
                ALex::Word(w) => Some((w, j)),
                ALex::Whitespace(_) => None,
            }
        }
    }
}

/// Where a derivation of the term `t` ends when it starts at token index
/// `i`: the grammar
/// `term := "true" | "false" | "0" | "if" term "then" term "else" term
///        | "succ" term | "pred" term | "iszero" term`
/// derives `t` (whitespace tokens skipped) from the tokens `[i, term_end)`
/// exactly when the result is `Some(term_end)`.
pub open spec fn term_end(toks: Seq<(ALex, int, int)>, i: int, t: Term) -> Option<int>
    decreases t,
{
    match t {
        Term::True => match word_at(toks, i) {
            Some(p) => if p.0 == "true"@ {
                Some(p.1 + 1)
            } else {
                None
            },
            None => None,
        },
        Term::False => match word_at(toks, i) {
            Some(p) => if p.0 == "false"@ {
                Some(p.1 + 1)
            } else {
                None
            },
            None => None,
        },
        Term::Zero => match word_at(toks, i) {
            Some(p) => if p.0 == "0"@ {
                Some(p.1 + 1)
            } else {
                None
            },
            None => None,
        },
        Term::Succ(t1) => match word_at(toks, i) {
            Some(p) => if p.0 == "succ"@ {
                term_end(toks, p.1 + 1, *t1)
            } else {
                None
            },
            None => None,
        },
        Term::Pred(t1) => match word_at(toks, i) {
            Some(p) => if p.0 == "pred"@ {
                term_end(toks, p.1 + 1, *t1)
            } else {
                None
            },
            None => None,
        },
        Term::IsZero(t1) => match word_at(toks, i) {
            Some(p) => if p.0 == "iszero"@ {
                term_end(toks, p.1 + 1, *t1)
            } else {
                None
            },
            None => None,
        },
        Term::If(t1, t2, t3) => match word_at(toks, i) {
            Some(p) => if p.0 == "if"@ {
                match term_end(toks, p.1 + 1, *t1) {
                    Some(k1) => match word_at(toks, k1) {
                        Some(pt) => if pt.0 == "then"@ {
                            match term_end(toks, pt.1 + 1, *t2) {
                                Some(k2) => match word_at(toks, k2) {
                                    Some(pe) => if pe.0 == "else"@ {
                                        term_end(toks, pe.1 + 1, *t3)
                                    } else {
                                        None
                                    },
                                    None => None,
                                },
                                None => None,
                            }
                        } else {
                            None
                        },
                        None => None,
                    },
                    None => None,
                }
            } else {
                None
            },
            None => None,
        },
    }
}

/// The grammar relation: the tokens from index `i` up to (but not
/// including) index `j` derive exactly the term `t`.
pub open spec fn is_term(toks: Seq<(ALex, int, int)>, i: int, j: int, t: Term) -> bool {
    term_end(toks, i, t) == Some(j)
}

/// The grammar is unambiguous: from one position, at most one term can be
/// derived, and it ends at one position.
pub proof fn lemma_term_unambiguous(
    toks: Seq<(ALex, int, int)>,
    i: int,
    j1: int,
    j2: int,
    t1: Term,
    t2: Term,
)
    requires
        is_term(toks, i, j1, t1),
        is_term(toks, i, j2, t2),
    ensures
        t1 == t2,
        j1 == j2,
    decreases t1,
{
    lemma_keywords_distinct();
    match t1 {
        Term::Succ(s1) => {
            match t2 {
                Term::Succ(s2) => {
                    lemma_term_unambiguous(toks, word_at(toks, i)->Some_0.1 + 1, j1, j2, *s1, *s2);
                },
                _ => {},
            }
        },
        Term::Pred(s1) => {
            match t2 {
                Term::Pred(s2) => {
                    lemma_term_unambiguous(toks, word_at(toks, i)->Some_0.1 + 1, j1, j2, *s1, *s2);
                },
                _ => {},
            }
        },
        Term::IsZero(s1) => {
            match t2 {
                Term::IsZero(s2) => {
                    lemma_term_unambiguous(toks, word_at(toks, i)->Some_0.1 + 1, j1, j2, *s1, *s2);
                },
                _ => {},
            }
        },
        Term::If(a1, a2, a3) => {
            match t2 {
                Term::If(b1, b2, b3) => {
                    let p = word_at(toks, i)->Some_0;
                    let ka1 = term_end(toks, p.1 + 1, *a1)->Some_0;
                    let kb1 = term_end(toks, p.1 + 1, *b1)->Some_0;
                    lemma_term_unambiguous(toks, p.1 + 1, ka1, kb1, *a1, *b1);
                    let pt = word_at(toks, ka1)->Some_0;
                    let ka2 = term_end(toks, pt.1 + 1, *a2)->Some_0;
                    let kb2 = term_end(toks, pt.1 + 1, *b2)->Some_0;
                    lemma_term_unambiguous(toks, pt.1 + 1, ka2, kb2, *a2, *b2);
                    let pe = word_at(toks, ka2)->Some_0;
                    lemma_term_unambiguous(toks, pe.1 + 1, j1, j2, *a3, *b3);
                },
                _ => {},
            }
        },
        _ => {},
    }
}

/// Soundness: every term the parser returns is derivable by the grammar,
/// ending exactly where the parser stopped.
pub proof fn lemma_parse_sound(toks: Seq<(ALex, int, int)>, i: int, fuel: nat)
    ensures
        parse_at(toks, i, fuel) matches ParseOutcome::POk(t, j) ==> is_term(toks, i, j, t),
    decreases fuel,
{
    if 0 <= i <= toks.len() && fuel > 0 {
        lemma_skip_at(toks, i);
        let j = skip_at(toks, i);
        if j < toks.len() {
            lemma_parse_sound(toks, j + 1, (fuel - 1) as nat);
            if toks[j].0 matches ALex::Word(w) && w == "if"@ && !(w == "true"@) && !(w
                == "false"@) {
                match parse_at(toks, j + 1, (fuel - 1) as nat) {
                    ParseOutcome::POk(t1, j1) => {
                        lemma_parse_progress(toks, j + 1, (fuel - 1) as nat);
                        lemma_skip_at(toks, j1);
                        match expect_at(toks, j1, "then"@) {
                            Ok(j2) => {
                                lemma_parse_sound(toks, j2, (fuel - 1) as nat);
                                match parse_at(toks, j2, (fuel - 1) as nat) {
                                    ParseOutcome::POk(t2, j3) => {
                                        lemma_parse_progress(toks, j2, (fuel - 1) as nat);
                                        lemma_skip_at(toks, j3);
                                        match expect_at(toks, j3, "else"@) {
                                            Ok(j4) => {
                                                lemma_parse_sound(toks, j4, (fuel - 1) as nat);
                                            },
                                            Err(_) => {},
                                        }
                                    },
                                    _ => {},
                                }
                            },
                            Err(_) => {},
                        }
                    },
                    _ => {},
                }
            }
        }
    }
}

/// Completeness: when the parser reports an error, no term is derivable by
/// the grammar from that position.
pub proof fn lemma_parse_complete(toks: Seq<(ALex, int, int)>, i: int, fuel: nat)
    requires
        fuel >= toks.len() - i,
    ensures
        parse_at(toks, i, fuel) matches ParseOutcome::PErr(m, st, l) ==> forall|t: Term, j: int|
            !is_term(toks, i, j, t),
    decreases fuel,
{
    lemma_keywords_distinct();
    if parse_at(toks, i, fuel) matches ParseOutcome::PErr(m, st, l) {
        if 0 <= i <= toks.len() {
            lemma_skip_at(toks, i);
            let jw = skip_at(toks, i);
            if jw < toks.len() && toks[jw].0 is Word {
                let w = toks[jw].0->Word_0;
                if w == "if"@ {
                    lemma_parse_complete(toks, jw + 1, (fuel - 1) as nat);
                    lemma_parse_sound(toks, jw + 1, (fuel - 1) as nat);
                    lemma_parse_progress(toks, jw + 1, (fuel - 1) as nat);
                    assert forall|t: Term, j: int| !is_term(toks, i, j, t) by {
                        if is_term(toks, i, j, t) {
                            match t {
                                Term::If(t1, t2, t3) => {
                                    let k1 = term_end(toks, jw + 1, *t1)->Some_0;
                                    assert(term_end(toks, jw + 1, *t1) == Some(k1));
                                    assert(is_term(toks, jw + 1, k1, *t1));
                                    let pt = word_at(toks, k1)->Some_0;
                                    let k2 = term_end(toks, pt.1 + 1, *t2)->Some_0;
                                    assert(term_end(toks, pt.1 + 1, *t2) == Some(k2));
                                    match parse_at(toks, jw + 1, (fuel - 1) as nat) {
                                        ParseOutcome::POk(p1, j1) => {
                                            lemma_term_unambiguous(
                                                toks,
                                                jw + 1,
                                                j1,
                                                k1,
                                                p1,
                                                *t1,
                                            );
                                            lemma_skip_at(toks, j1);
                                            match expect_at(toks, j1, "then"@) {
                                                Ok(j2) => {
                                                    lemma_parse_complete(
                                                        toks,
                                                        j2,
                                                        (fuel - 1) as nat,
                                                    );
                                                    lemma_parse_sound(toks, j2, (fuel - 1) as nat);
                                                    lemma_parse_progress(
                                                        toks,
                                                        j2,
                                                        (fuel - 1) as nat,
                                                    );
                                                    assert(is_term(toks, j2, k2, *t2));
                                                    match parse_at(toks, j2, (fuel - 1) as nat) {
                                                        ParseOutcome::POk(p2, j3) => {
                                                            lemma_term_unambiguous(
                                                                toks,
                                                                j2,
                                                                j3,
                                                                k2,
                                                                p2,
                                                                *t2,
                                                            );
                                                            lemma_skip_at(toks, j3);
                                                            match expect_at(toks, j3, "else"@) {
                                                                Ok(j4) => {
                                                                    lemma_parse_complete(
                                                                        toks,
                                                                        j4,
                                                                        (fuel - 1) as nat,
                                                                    );
                                                                    assert(is_term(
                                                                        toks,
                                                                        j4,
                                                                        j,
                                                                        *t3,
                                                                    ));
                                                                },
                                                                Err(_) => {},
                                                            }
                                                        },
                                                        _ => {},
                                                    }
                                                },
                                                Err(_) => {},
                                            }
                                        },
                                        _ => {},
                                    }
                                },
                                _ => {},
                            }
                        }
                    }
                } else if w == "succ"@ {
                    lemma_parse_complete(toks, jw + 1, (fuel - 1) as nat);
                    assert forall|t: Term, j: int| !is_term(toks, i, j, t) by {
                        if is_term(toks, i, j, t) {
                            match t {
                                Term::Succ(s1) => {
                                    assert(is_term(toks, jw + 1, j, *s1));
                                },
                                _ => {},
                            }
                        }
                    }
                } else if w == "pred"@ {
                    lemma_parse_complete(toks, jw + 1, (fuel - 1) as nat);
                    assert forall|t: Term, j: int| !is_term(toks, i, j, t) by {
                        if is_term(toks, i, j, t) {
                            match t {
                                Term::Pred(s1) => {
                                    assert(is_term(toks, jw + 1, j, *s1));
                                },
                                _ => {},
                            }
                        }
                    }
                } else if w == "iszero"@ {
                    lemma_parse_complete(toks, jw + 1, (fuel - 1) as nat);
                    assert forall|t: Term, j: int| !is_term(toks, i, j, t) by {
                        if is_term(toks, i, j, t) {
                            match t {
                                Term::IsZero(s1) => {
                                    assert(is_term(toks, jw + 1, j, *s1));
                                },
                                _ => {},
                            }
                        }
                    }
                } else {
                }
            }
        }
    }
}

/// The parser's view of a token list: each token's model and span.
pub open spec fn token_views(tokens: Seq<Spanned<Token>>) -> Seq<(ALex, int, int)> {
    tokens.map_values(|t: Spanned<Token>| token_view(t))
}

/// Advances past whitespace tokens.
fn skip_whitespace(tokens: &Vec<Spanned<Token>>, i: usize) -> (r: usize)
    ensures
        i <= tokens@.len() ==> r == skip_at(token_views(tokens@), i as int),
        i > tokens@.len() ==> r == i,
        i <= r,
        r <= tokens@.len() || r == i,
    decreases tokens@.len() - i,
{
    if i >= tokens.len() {
        return i;
    }
    let skippable = match &tokens[i].item {
        Token::Whitespace(_) => true,
        _ => false,
    };
    if skippable {
        skip_whitespace(tokens, i + 1)
    } else {
        i
    }
}

/// Consumes the next meaningful token, which must be a word spelling
/// `expected`.
pub fn expect(tokens: &Vec<Spanned<Token>>, i: usize, expected: &str) -> (r: Result<
    usize,
    ParseError,
>)
    ensures
        match expect_at(token_views(tokens@), i as int, expected@) {
            Ok(j) => r matches Ok(rj) && rj == j,
            Err(p) => r matches Err(e) && e.message@ == p.0 && e.span.start == p.1
                && e.span.length == p.2,
        },
{
    if i > tokens.len() {
        return Err(err("Unexpected end of input", Span { start: 0, length: 0 }));
    }
    let j = skip_whitespace(tokens, i);
    if j >= tokens.len() {
        return Err(err("Unexpected end of input", Span { start: 0, length: 0 }));
    }
    let matched = match &tokens[j].item {
        Token::Word(w) => str_eq(w.as_str(), expected),
        Token::Whitespace(_) => false,
    };
    if matched {
        Ok(j + 1)
    } else {
        let mut message = String::new();
        message.append("Expected '");
        message.append(expected);
        message.append("'");
        proof {
            assert(message@ =~= expected_message(expected@));
        }
        Err(ParseError { message, span: tokens[j].span })
    }
}

/// The recursive-descent parser for the arithmetic language, starting at
/// token index `i` and skipping whitespace tokens: returns the parsed term
/// and the index of the first token after it, exactly as `parse_at`
/// specifies.
pub fn parser(tokens: &Vec<Spanned<Token>>, i: usize) -> (r: Result<(Term, usize), ParseError>)
    ensures
        ({
            let toks = token_views(tokens@);
            match parse_at(toks, i as int, parse_fuel(toks.len(), i as int)) {
                ParseOutcome::POk(t, j) => r matches Ok(p) && p.0 == t && p.1 == j,
                ParseOutcome::PErr(m, st, l) => r matches Err(e) && e.message@ == m
                    && e.span.start == st && e.span.length == l,
                ParseOutcome::POut => false,
            }
        }),
    decreases tokens@.len() - i,
{
    let ghost toks = token_views(tokens@);
    if i > tokens.len() {
        return Err(err("Unexpected end of input", Span { start: 0, length: 0 }));
    }
    proof {
        lemma_parse_fuel(toks, i as int, parse_fuel(toks.len(), i as int), parse_fuel(
            toks.len(),
            i as int,
        ));
        lemma_skip_at(toks, i as int);
    }
    let j = skip_whitespace(tokens, i);
    if j >= tokens.len() {
        return Err(err("Unexpected end of input", Span { start: 0, length: 0 }));
    }
    let word = match &tokens[j].item {
        Token::Word(w) => w,
        Token::Whitespace(_) => {
            return Err(err("Unexpected token", tokens[j].span));
        },
    };
    proof {
        lemma_parse_fuel(toks, j + 1, parse_fuel(toks.len(), j + 1), (parse_fuel(
            toks.len(),
            i as int,
        ) - 1) as nat);
    }
    if str_eq(word.as_str(), "true") {
        Ok((Term::True, j + 1))
    } else if str_eq(word.as_str(), "false") {
        Ok((Term::False, j + 1))
    } else if str_eq(word.as_str(), "if") {
        let (t1, j1) = match parser(tokens, j + 1) {
            Ok(p) => p,
            Err(e) => {
                return Err(e);
            },
        };
        proof {
            lemma_parse_progress(toks, j + 1, parse_fuel(toks.len(), j + 1));
            lemma_skip_at(toks, j1 as int);
        }
        let j2 = match expect(tokens, j1, "then") {
            Ok(j2) => j2,
            Err(e) => {
                return Err(e);
            },
        };
        proof {
            lemma_parse_fuel(toks, j2 as int, parse_fuel(toks.len(), j2 as int), (parse_fuel(
                toks.len(),
                i as int,
            ) - 1) as nat);
            lemma_parse_progress(toks, j2 as int, parse_fuel(toks.len(), j2 as int));
        }
        let (t2, j3) = match parser(tokens, j2) {
            Ok(p) => p,
            Err(e) => {
                return Err(e);
            },
        };
        proof {
            lemma_skip_at(toks, j3 as int);
        }
        let j4 = match expect(tokens, j3, "else") {
            Ok(j4) => j4,
            Err(e) => {
                return Err(e);
            },
        };
        proof {
            lemma_parse_fuel(toks, j4 as int, parse_fuel(toks.len(), j4 as int), (parse_fuel(
                toks.len(),
                i as int,
            ) - 1) as nat);
        }
        let (t3, j5) = match parser(tokens, j4) {
            Ok(p) => p,
            Err(e) => {
                return Err(e);
            },
        };
        Ok((if_(t1, t2, t3), j5))
    } else if str_eq(word.as_str(), "0") {
        Ok((Term::Zero, j + 1))
    } else if str_eq(word.as_str(), "succ") {
        let (t1, n) = match parser(tokens, j + 1) {
            Ok(p) => p,
            Err(e) => {
                return Err(e);
            },
        };
        Ok((succ(t1), n))
    } else if str_eq(word.as_str(), "pred") {
        let (t1, n) = match parser(tokens, j + 1) {
            Ok(p) => p,
            Err(e) => {
                return Err(e);
            },
        };
        Ok((pred(t1), n))
    } else if str_eq(word.as_str(), "iszero") {
        let (t1, n) = match parser(tokens, j + 1) {
            Ok(p) => p,
            Err(e) => {
                return Err(e);
            },
        };
        Ok((iszero(t1), n))
    } else {
        Err(err("Unexpected token", tokens[j].span))
    }
}

/// A term is never deeper than it is large.
pub proof fn lemma_depth_le_size(t: Term)
    ensures
        spec_depth(t) <= spec_size(t),
    decreases t,
{
    match t {
        Term::If(t1, t2, t3) => {
            lemma_depth_le_size(*t1);
            lemma_depth_le_size(*t2);
            lemma_depth_le_size(*t3);
        },
        Term::Succ(t1) => lemma_depth_le_size(*t1),
        Term::Pred(t1) => lemma_depth_le_size(*t1),
        Term::IsZero(t1) => lemma_depth_le_size(*t1),
        _ => {},
    }
}

/// The printed form of a term: the constructor names with parenthesized
/// children, for example `If(True, Zero, Succ(Zero))`.
pub open spec fn spec_term_str(t: Term) -> Seq<char>
    decreases t,
{
    match t {
        Term::True => "True"@,
        Term::False => "False"@,
        Term::Zero => "Zero"@,
        Term::If(t1, t2, t3) => "If("@ + spec_term_str(*t1) + ", "@ + spec_term_str(*t2) + ", "@
            + spec_term_str(*t3) + ")"@,
        Term::Succ(t1) => "Succ("@ + spec_term_str(*t1) + ")"@,
        Term::Pred(t1) => "Pred("@ + spec_term_str(*t1) + ")"@,
        Term::IsZero(t1) => "IsZero("@ + spec_term_str(*t1) + ")"@,
    }
}

/// Prints a term as its constructor tree.
pub fn term_to_string(t: &Term) -> (r: String)
    ensures
        r@ == spec_term_str(*t),
    decreases *t,
{
    match t {
        Term::True => "True".to_owned(),
        Term::False => "False".to_owned(),
        Term::Zero => "Zero".to_owned(),
        Term::If(t1, t2, t3) => {
            let mut s = String::new();
            s.append("If(");
            let s1 = term_to_string(t1);
            s.append(s1.as_str());
            s.append(", ");
            let s2 = term_to_string(t2);
            s.append(s2.as_str());
            s.append(", ");
            let s3 = term_to_string(t3);
            s.append(s3.as_str());
            s.append(")");
            proof {
                assert(s@ =~= spec_term_str(*t));
            }
            s
        },
        Term::Succ(t1) => {
            let mut s = String::new();
            s.append("Succ(");
            let s1 = term_to_string(t1);
            s.append(s1.as_str());
            s.append(")");
            proof {
                assert(s@ =~= spec_term_str(*t));
            }
            s
        },
        Term::Pred(t1) => {
            let mut s = String::new();
            s.append("Pred(");
            let s1 = term_to_string(t1);
            s.append(s1.as_str());
            s.append(")");
            proof {
                assert(s@ =~= spec_term_str(*t));
            }
            s
        },
        Term::IsZero(t1) => {
            let mut s = String::new();
            s.append("IsZero(");
            let s1 = term_to_string(t1);
            s.append(s1.as_str());
            s.append(")");
            proof {
                assert(s@ =~= spec_term_str(*t));
            }
            s
        },
    }
}

/// Renders a constant list as comma-separated quoted spellings.
pub open spec fn render_consts(list: Seq<Seq<char>>) -> Seq<char>
    decreases list.len(),
{
    if list.len() == 0 {
        Seq::empty()
    } else if list.len() == 1 {
        "\""@ + list[0] + "\""@
    } else {
        render_consts(list.drop_last()) + ", \""@ + list.last() + "\""@
    }
}

/// Renders the constant spellings of a list, quoted and comma-separated.
fn render_consts_vec(list: &Vec<String>) -> (out: String)
    ensures
        out@ == render_consts(list@.map_values(|t: String| t@)),
{
    let ghost m = list@.map_values(|t: String| t@);
    let mut out = String::new();
    let mut k: usize = 0;
    proof {
        assert(m.take(0) =~= Seq::<Seq<char>>::empty());
    }
    while k < list.len()
        invariant
            k <= list@.len(),
            m == list@.map_values(|t: String| t@),
            out@ == render_consts(m.take(k as int)),
        decreases list@.len() - k,
    {
        if k > 0 {
            out.append(", \"");
        } else {
            out.append("\"");
        }
        out.append(list[k].as_str());
        out.append("\"");
        proof {
            assert(m.take(k + 1 as int).drop_last() =~= m.take(k as int));
            assert(m.take(k + 1 as int).last() == m[k as int]);
            assert(out@ =~= render_consts(m.take(k + 1 as int)));
        }
        k += 1;
    }
    proof {
        assert(m.take(m.len() as int) =~= m);
    }
    out
}

/// The rendered form of an evaluation error: the message line, then the
/// stuck term.
pub open spec fn render_eval_error(message: Seq<char>, term: Term) -> Seq<char> {
    "Error: "@ + message + "\n"@ + spec_term_str(term) + "\n"@
}

/// Renders an evaluation error: the message line, then the stuck term.
pub fn eval_error_to_string(e: EvalError) -> (r: String)
    ensures
        r@ == render_eval_error(e.message@, e.term),
{
    let mut out = String::new();
    out.append("Error: ");
    out.append(e.message.as_str());
    push_char(&mut out, '\n');
    let ts = term_to_string(&e.term);
    out.append(ts.as_str());
    push_char(&mut out, '\n');
    proof {
        reveal_strlit("\n");
        assert(out@ =~= render_eval_error(e.message@, e.term));
    }
    out
}

/// Evaluates a term by applying reduction steps until it reaches a value,
/// or until a step returns the term unchanged, in which case the term is
/// stuck and evaluation fails with `No rule applies`.
pub fn eval(term: &Term) -> (r: Result<Term, EvalError>)
    ensures
        match normalize(*term) {
            Ok(v) => r matches Ok(rv) && rv == v,
            Err(s) => r matches Err(e) && e.term == s && e.message@ == "No rule applies"@,
        },
{
    let mut t = clone_term(term);
    let mut prev = clone_term(term);
    loop
        invariant
            prev == t,
            normalize(*term) == normalize(t),
        decreases spec_size(t),
    {
        if isval(&t) {
            return Ok(t);
        }
        let stepped = match little_step_eval(&t) {
            Ok(s) => s,
            Err(e) => {
                return Err(e);
            },
        };
        if term_eq(&prev, &stepped) {
            return Err(eval_err("No rule applies", &stepped));
        }
        proof {
            lemma_step_decreases(t);
        }
        prev = clone_term(&stepped);
        t = stepped;
    }
}

/// A language choice marker for the untyped arithmetic evaluator.
#[derive(Debug)]
pub struct UntypedArithmetic;

/// The printed form of a token: its constructor name with the text it
/// covers, for example `Word("succ")`.
pub open spec fn alex_debug(lex: ALex) -> Seq<char> {
    match lex {
        ALex::Word(w) => "Word(\""@ + w + "\")"@,
        ALex::Whitespace(w) => "Whitespace(\""@ + w + "\")"@,
    }
}

/// Prints a token as its constructor with payload.
pub fn token_debug_string(t: &Token) -> (r: String)
    ensures
        r@ == alex_debug(alex_of(*t)),
{
    match t {
        Token::Word(w) => {
            let mut out = String::new();
            out.append("Word(\"");
            out.append(w.as_str());
            out.append("\")");
            proof {
                assert(out@ =~= alex_debug(alex_of(*t)));
            }
            out
        },
        Token::Whitespace(w) => {
            let mut out = String::new();
            out.append("Whitespace(\"");
            out.append(w.as_str());
            out.append("\")");
            proof {
                assert(out@ =~= alex_debug(alex_of(*t)));
            }
            out
        },
    }
}

/// The token-list section of the report.
pub open spec fn token_list_str(toks: Seq<(ALex, int, int)>) -> Seq<char>
    decreases toks.len(),
{
    if toks.len() == 0 {
        Seq::empty()
    } else {
        token_list_str(toks.drop_last()) + alex_debug(toks.last().0) + ", "@
    }
}

/// The full report `run` produces for an input line: the echoed input, the
/// token listing, the parsed term with its constants, size and depth, then
/// the evaluation result — or the rendered error of the stage that failed.
pub open spec fn spec_run_arith(input: Seq<char>) -> Seq<char> {
    let toks = arith_tokens_from(input, 0);
    let head = "input: "@ + input + "\n"@ + "tokens: ["@ + token_list_str(toks) + "]\n"@;
    match parse_at(toks, 0, parse_fuel(toks.len(), 0)) {
        ParseOutcome::POk(t, j) => {
            let head2 = head + spec_term_str(t) + "\n"@ + "consts: {"@ + render_consts(
                spec_consts_list(t),
            ) + "}\n"@ + "size: "@ + dec_str(spec_size(t)) + "\n"@ + "depth: "@ + dec_str(
                spec_depth(t),
            ) + "\n"@;
            match normalize(t) {
                Ok(v) => head2 + "evaluation result: "@ + spec_term_str(v) + "\n"@,
                Err(s) => head2 + render_eval_error("No rule applies"@, s),
            }
        },
        ParseOutcome::PErr(m, st, l) => head + render_error(
            m,
            Span { start: st as usize, length: l as usize },
            input,
        ),
        ParseOutcome::POut => Seq::empty(),
    }
}

impl UntypedArithmetic {
    /// Runs the whole arithmetic pipeline on one input line: tokenize,
    /// parse, report the term with its constants, size and depth, then
    /// evaluate, rendering the first error if a stage fails.
    pub fn run(&self, input: &str) -> (out: String)
        ensures
            out@ == spec_run_arith(input@),
    {
        let ghost s = input@;
        let tokens = tokenize(input);
        let ghost toks = arith_tokens_from(s, 0);
        proof {
            assert(tokens@.len() == tokens.len());
            assert(toks =~= token_views(tokens@));
            lemma_arith_tokens_bounded(s, 0);
            lemma_parse_progress(toks, 0, parse_fuel(toks.len(), 0));
            lemma_parse_err_spans(toks, 0, parse_fuel(toks.len(), 0), s.len() as int);
        }
        let term = parser(&tokens, 0);
        let mut output = String::new();
        output.append("input: ");
        output.append(input);
        push_char(&mut output, '\n');
        output.append("tokens: [");
        let mut k: usize = 0;
        let ghost listpre = "input: "@ + s + "\n"@ + "tokens: ["@;
        proof {
            reveal_strlit("\n");
            assert(toks.take(0) =~= Seq::<(ALex, int, int)>::empty());
            assert(output@ =~= listpre + token_list_str(toks.take(0)));
        }
        while k < tokens.len()
            invariant
                k <= tokens@.len(),
                toks == token_views(tokens@),
                listpre == "input: "@ + s + "\n"@ + "tokens: ["@,
                output@ == listpre + token_list_str(toks.take(k as int)),
            decreases tokens@.len() - k,
        {
            let ds = token_debug_string(&tokens[k].item);
            output.append(ds.as_str());
            output.append(", ");
            proof {
                assert(toks.take(k + 1 as int).drop_last() =~= toks.take(k as int));
                assert(toks.take(k + 1 as int).last() == toks[k as int]);
                assert(output@ =~= listpre + token_list_str(toks.take(k + 1 as int)));
            }
            k += 1;
        }
        output.append("]\n");
        proof {
            assert(toks.take(toks.len() as int) =~= toks);
            assert(output@ =~= "input: "@ + s + "\n"@ + "tokens: ["@ + token_list_str(toks)
                + "]\n"@);
        }
        match term {
            Err(e) => {
                let rendered = parse_error_to_string(e, input);
                output.append(rendered.as_str());
                proof {
                    assert(output@ =~= spec_run_arith(s));
                }
                output
            },
            Ok((t, _idx)) => {
                proof {
                    lemma_depth_le_size(t);
                }
                let ts = term_to_string(&t);
                output.append(ts.as_str());
                push_char(&mut output, '\n');
                output.append("consts: {");
                let cs = consts(&t);
                let cr = render_consts_vec(&cs);
                output.append(cr.as_str());
                output.append("}\n");
                output.append("size: ");
                let sz = size(&t);
                let szs = usize_to_string(sz);
                output.append(szs.as_str());
                push_char(&mut output, '\n');
                output.append("depth: ");
                let dp = depth(&t);
                let dps = usize_to_string(dp);
                output.append(dps.as_str());
                push_char(&mut output, '\n');
                let result = eval(&t);
                match result {
                    Err(e2) => {
                        let es = eval_error_to_string(e2);
                        output.append(es.as_str());
                        proof {
                            reveal_strlit("\n");
                            assert(output@ =~= spec_run_arith(s));
                        }
                        output
                    },
                    Ok(v) => {
                        output.append("evaluation result: ");
                        let vs = term_to_string(&v);
                        output.append(vs.as_str());
                        push_char(&mut output, '\n');
                        proof {
                            reveal_strlit("\n");
                            assert(output@ =~= spec_run_arith(s));
                        }
                        output
                    },
                }
            },
        }
    }

    /// The display name of this language variant.
    pub fn name(&self) -> (r: String)
        ensures
            r@ == "Untyped Arithmetic"@,
    {
        "Untyped Arithmetic".to_owned()
    }

    /// A short debugging tag for this language variant.
    pub fn __debug__(&self) -> (r: String)
        ensures
            r@ == "UntypedArithmetic"@,
    {
        "UntypedArithmetic".to_owned()
    }
}

/// `succ` applied `n` times to `0`.
pub open spec fn nested_succ(n: nat) -> Term
    decreases n,
{
    if n == 0 {
        Term::Zero
    } else {
        Term::Succ(Box::new(nested_succ((n - 1) as nat)))
    }
}

/// For every `n`, wrapping `0` in `n` `succ` prefixes yields a numeric
/// value of size and depth `n + 1` that is already in normal form:
/// evaluating it returns it unchanged.
pub proof fn lemma_nested_succ(n: nat)
    ensures
        is_numeric_value(nested_succ(n)),
        spec_size(nested_succ(n)) == n + 1,
        spec_depth(nested_succ(n)) == n + 1,
        normalize(nested_succ(n)) == Ok::<Term, Term>(nested_succ(n)),
    decreases n,
{
    if n > 0 {
        lemma_nested_succ((n - 1) as nat);
    }
}

/// The keyword spellings this parser distinguishes are pairwise distinct.
pub proof fn lemma_keywords_distinct()
    ensures
        "0"@ != "true"@ && "0"@ != "false"@ && "0"@ != "if"@ && "0"@ != "succ"@ && "0"@ != "pred"@
            && "0"@ != "iszero"@,
        "true"@ != "false"@ && "true"@ != "if"@ && "true"@ != "succ"@ && "true"@ != "pred"@
            && "true"@ != "iszero"@,
        "false"@ != "if"@ && "false"@ != "succ"@ && "false"@ != "pred"@ && "false"@ != "iszero"@,
        "if"@ != "succ"@ && "if"@ != "pred"@ && "if"@ != "iszero"@,
        "succ"@ != "pred"@ && "succ"@ != "iszero"@,
        "pred"@ != "iszero"@,
{
    reveal_strlit("0");
    reveal_strlit("true");
    reveal_strlit("false");
    reveal_strlit("if");
    reveal_strlit("succ");
    reveal_strlit("pred");
    reveal_strlit("iszero");
    assert("0"@.len() == 1);
    assert("true"@.len() == 4);
    assert("false"@.len() == 5);
    assert("if"@.len() == 2);
    assert("succ"@.len() == 4);
    assert("pred"@.len() == 4);
    assert("iszero"@.len() == 6);
    assert("succ"@[0] == 's' && "true"@[0] == 't' && "pred"@[0] == 'p');
}

/// For every `n`, a token stream of `n` `succ` words, each followed by one
/// whitespace token, before a final `0` word parses, from the position of
/// the first of them, to `succ` applied `n` times to `0`, consuming
/// exactly those `2n + 1` tokens.
pub proof fn lemma_parse_nested_succ(toks: Seq<(ALex, int, int)>, i: int, n: nat)
    requires
        0 <= i,
        i + 2 * n < toks.len(),
        forall|k: int|
            0 <= k < n ==> ((#[trigger] toks[i + 2 * k].0) matches ALex::Word(w) && w == "succ"@),
        forall|k: int| 0 <= k < n ==> (#[trigger] toks[i + 2 * k + 1].0) is Whitespace,
        (toks[i + 2 * n].0 matches ALex::Word(w) && w == "0"@),
    ensures
        parse_at(toks, i, parse_fuel(toks.len(), i)) == ParseOutcome::POk(
            nested_succ(n),
            i + 2 * n + 1,
        ),
    decreases n,
{
    lemma_keywords_distinct();
    if n == 0 {
        assert((toks[i].0 matches ALex::Word(w) && w == "0"@));
        assert(skip_at(toks, i) == i);
    } else {
        assert((toks[i + 2 * 0].0 matches ALex::Word(w) && w == "succ"@));
        assert(skip_at(toks, i) == i);
        assert(toks[i + 2 * 0 + 1].0 is Whitespace);
        assert(toks[i + 2].0 is Word) by {
            if n == 1 {
                assert((toks[i + 2 * 1].0 matches ALex::Word(w) && w == "0"@));
            } else {
                assert((toks[i + 2 * 1].0 matches ALex::Word(w) && w == "succ"@));
            }
        }
        assert(skip_at(toks, i + 1) == i + 2);
        assert forall|k: int|
            0 <= k < n - 1 implies ((#[trigger] toks[(i + 2) + 2 * k].0) matches ALex::Word(w) && w
            == "succ"@) by {
            assert((toks[i + 2 * (k + 1)].0 matches ALex::Word(w) && w == "succ"@));
        }
        assert forall|k: int| 0 <= k < n - 1 implies (#[trigger] toks[(i + 2) + 2 * k + 1].0)
            is Whitespace by {
            assert(toks[i + 2 * (k + 1) + 1].0 is Whitespace);
        }
        assert((toks[(i + 2) + 2 * (n - 1)].0 matches ALex::Word(w) && w == "0"@));
        lemma_parse_nested_succ(toks, i + 2, (n - 1) as nat);
        lemma_parse_fuel(toks, i + 1, (parse_fuel(toks.len(), i) - 1) as nat, parse_fuel(
            toks.len(),
            i + 1,
        ));
        lemma_parse_fuel(toks, i + 2, parse_fuel(toks.len(), i + 1), parse_fuel(toks.len(), i + 2));
        assert(parse_at(toks, i + 1, parse_fuel(toks.len(), i + 1)) == parse_at(
            toks,
            i + 2,
            parse_fuel(toks.len(), i + 1),
        ));
    }
}

/// Scanning for non-whitespace in a suffix does not depend on what stands
/// before it.
pub proof fn lemma_next_non_ws_suffix(a: Seq<char>, b: Seq<char>, i: int)
    requires
        0 <= i <= b.len(),
    ensures
        next_non_ws(a + b, a.len() + i) == a.len() + next_non_ws(b, i),
    decreases b.len() - i,
{
    if i < b.len() {
        assert((a + b)[a.len() + i] == b[i]);
        if is_ws_char(b[i]) {
            lemma_next_non_ws_suffix(a, b, i + 1);
        }
    }
}

/// Scanning for whitespace in a suffix does not depend on what stands
/// before it.
pub proof fn lemma_next_ws_suffix(a: Seq<char>, b: Seq<char>, i: int)
    requires
        0 <= i <= b.len(),
    ensures
        next_ws(a + b, a.len() + i) == a.len() + next_ws(b, i),
    decreases b.len() - i,
{
    if i < b.len() {
        assert((a + b)[a.len() + i] == b[i]);
        if !is_ws_char(b[i]) {
            lemma_next_ws_suffix(a, b, i + 1);
        }
    }
}

/// Shifts every token span right by `d`.
pub open spec fn shift_triples(ts: Seq<(ALex, int, int)>, d: int) -> Seq<(ALex, int, int)> {
    ts.map_values(|t: (ALex, int, int)| (t.0, t.1 + d, t.2))
}

/// Tokenizing a suffix does not depend on what stands before it, except
/// that its spans shift by the prefix's length.
pub proof fn lemma_arith_tokens_suffix(a: Seq<char>, b: Seq<char>, i: int)
    requires
        0 <= i <= b.len(),
    ensures
        arith_tokens_from(a + b, a.len() + i) == shift_triples(arith_tokens_from(b, i), a.len() as int),
    decreases b.len() - i,
{
    if i >= b.len() {
        assert(arith_tokens_from(a + b, a.len() + i) =~= shift_triples(
            arith_tokens_from(b, i),
            a.len() as int,
        ));
    } else {
        assert((a + b)[a.len() + i] == b[i]);
        if is_ws_char(b[i]) {
            lemma_next_non_ws_suffix(a, b, i);
            lemma_next_non_ws(b, i);
            let k = next_non_ws(b, i);
            lemma_arith_tokens_suffix(a, b, k);
            assert((a + b).subrange(a.len() + i, a.len() + k) =~= b.subrange(i, k));
            assert(arith_tokens_from(a + b, a.len() + i) =~= shift_triples(
                arith_tokens_from(b, i),
                a.len() as int,
            ));
        } else {
            lemma_next_ws_suffix(a, b, i);
            lemma_next_ws(b, i);
            let k = next_ws(b, i);
            lemma_arith_tokens_suffix(a, b, k);
            assert((a + b).subrange(a.len() + i, a.len() + k) =~= b.subrange(i, k));
            assert(arith_tokens_from(a + b, a.len() + i) =~= shift_triples(
                arith_tokens_from(b, i),
                a.len() as int,
            ));
        }
    }
}

/// The input built by wrapping `0` in `n` nested `succ` prefixes,
/// separated by single spaces.
pub open spec fn succ_input(n: nat) -> Seq<char>
    decreases n,
{
    if n == 0 {
        "0"@
    } else {
        "succ "@ + succ_input((n - 1) as nat)
    }
}

/// Tokenizing the nested-`succ` input yields `n` `succ` words, each
/// followed by one whitespace token, before a final `0` word.
pub proof fn lemma_succ_input_tokens(n: nat)
    ensures
        arith_tokens_from(succ_input(n), 0).len() == 2 * n + 1,
        forall|k: int|
            0 <= k < n ==> ((#[trigger] arith_tokens_from(succ_input(n), 0)[2 * k].0) matches
                ALex::Word(w) && w == "succ"@),
        forall|k: int|
            0 <= k < n ==> (#[trigger] arith_tokens_from(succ_input(n), 0)[2 * k + 1].0)
                is Whitespace,
        (arith_tokens_from(succ_input(n), 0)[2 * n as int].0 matches ALex::Word(w) && w == "0"@),
    decreases n,
{
    reveal_strlit("0");
    reveal_strlit("succ");
    reveal_strlit("succ ");
    if n == 0 {
        let s = succ_input(0);
        assert(!is_ws_char(s[0]));
        assert(next_ws(s, 1) == 1);
        assert(next_ws(s, 0) == 1);
        assert(s.subrange(0, 1) =~= "0"@);
        assert(arith_tokens_from(s, 1) =~= Seq::<(ALex, int, int)>::empty());
        assert(arith_tokens_from(s, 0) =~= seq![(ALex::Word("0"@), 0int, 1int)]);
    } else {
        lemma_succ_input_tokens((n - 1) as nat);
        let s = succ_input(n);
        let rest = succ_input((n - 1) as nat);
        assert(s == "succ "@ + rest);
        assert(s[0] == 's' && s[1] == 'u' && s[2] == 'c' && s[3] == 'c' && s[4] == ' ');
        assert(!is_ws_char(s[0]));
        assert(next_ws(s, 4) == 4);
        assert(next_ws(s, 3) == 4);
        assert(next_ws(s, 2) == 4);
        assert(next_ws(s, 1) == 4);
        assert(next_ws(s, 0) == 4);
        assert(s.subrange(0, 4) =~= "succ"@);
        assert(rest.len() > 0 && !is_ws_char(rest[0])) by {
            if n == 1 {
            } else {
                assert(rest[0] == 's');
            }
        }
        assert(s[5] == rest[0]);
        assert(next_non_ws(s, 5) == 5) by {
            lemma_next_non_ws_suffix("succ "@, rest, 0);
            lemma_next_non_ws(rest, 0);
        }
        assert(next_non_ws(s, 4) == 5);
        assert(s.subrange(4, 5) =~= seq![' ']);
        lemma_arith_tokens_suffix("succ "@, rest, 0);
        let shifted = shift_triples(arith_tokens_from(rest, 0), 5);
        assert(arith_tokens_from(s, 5) == shifted);
        assert(is_ws_char(s[4]));
        assert(arith_tokens_from(s, 4) =~= seq![(ALex::Whitespace(seq![' ']), 4int, 1int)]
            + shifted);
        assert(arith_tokens_from(s, 0) =~= seq![
            (ALex::Word("succ"@), 0int, 4int),
            (ALex::Whitespace(seq![' ']), 4int, 1int),
        ] + shifted);
        assert forall|k: int|
            0 <= k < n implies ((#[trigger] arith_tokens_from(s, 0)[2 * k].0) matches ALex::Word(w)
            && w == "succ"@) by {
            if k > 0 {
                assert(arith_tokens_from(s, 0)[2 * k] == shifted[2 * (k - 1)]);
                assert(shifted[2 * (k - 1)].0 == arith_tokens_from(rest, 0)[2 * (k - 1)].0);
            }
        }
        assert forall|k: int|
            0 <= k < n implies (#[trigger] arith_tokens_from(s, 0)[2 * k + 1].0) is Whitespace by {
            if k > 0 {
                assert(arith_tokens_from(s, 0)[2 * k + 1] == shifted[2 * (k - 1) + 1]);
                assert(shifted[2 * (k - 1) + 1].0 == arith_tokens_from(rest, 0)[2 * (k - 1) + 1].0);
            }
        }
        assert(arith_tokens_from(s, 0)[2 * n as int] == shifted[2 * (n - 1)]);
        assert(shifted[2 * (n - 1)].0 == arith_tokens_from(rest, 0)[2 * (n - 1)].0);
    }
}

/// For every `n`, the input built by wrapping `0` in `n` nested `succ`
/// prefixes tokenizes to `n` `succ` words before a `0`, parses to `succ`
/// applied `n` times to `0`, and that term is a numeric value of size and
/// depth `n + 1` that evaluates to itself unchanged.
pub proof fn lemma_succ_input_pipeline(n: nat)
    ensures
        ({
            let toks = arith_tokens_from(succ_input(n), 0);
            &&& toks.len() == 2 * n + 1
            &&& parse_at(toks, 0, parse_fuel(toks.len(), 0)) == ParseOutcome::POk(
                nested_succ(n),
                2 * n + 1 as int,
            )
        }),
        spec_size(nested_succ(n)) == n + 1,
        spec_depth(nested_succ(n)) == n + 1,
        is_numeric_value(nested_succ(n)),
        normalize(nested_succ(n)) == Ok::<Term, Term>(nested_succ(n)),
{
    lemma_succ_input_tokens(n);
    lemma_parse_nested_succ(arith_tokens_from(succ_input(n), 0), 0, n);
    lemma_nested_succ(n);
}

/// A single-word input tokenizes to that one word.
proof fn lemma_single_word_tokens(s: Seq<char>)
    requires
        s.len() > 0,
        forall|j: int| 0 <= j < s.len() ==> !is_ws_char(s[j]),
    ensures
        arith_tokens_from(s, 0) == seq![(ALex::Word(s), 0int, s.len() as int)],
{
    lemma_next_ws(s, 0);
    assert(next_ws(s, 0) == s.len());
    assert(s.subrange(0, s.len() as int) =~= s);
    assert(arith_tokens_from(s, s.len() as int) =~= Seq::<(ALex, int, int)>::empty());
    assert(arith_tokens_from(s, 0) =~= seq![(ALex::Word(s), 0int, s.len() as int)]);
}

/// Each input consisting solely of the keyword `true`, `false` or `0`
/// tokenizes to that one word, parses to the matching leaf term, and
/// evaluates to that same value; evaluating the result again returns it
/// unchanged, since it is already a value.
pub proof fn lemma_keyword_input_pipeline()
    ensures
        ({
            let toks = arith_tokens_from("true"@, 0);
            toks == seq![(ALex::Word("true"@), 0int, 4int)] && parse_at(
                toks,
                0,
                parse_fuel(toks.len(), 0),
            ) == ParseOutcome::POk(Term::True, 1int)
        }),
        ({
            let toks = arith_tokens_from("false"@, 0);
            toks == seq![(ALex::Word("false"@), 0int, 5int)] && parse_at(
                toks,
                0,
                parse_fuel(toks.len(), 0),
            ) == ParseOutcome::POk(Term::False, 1int)
        }),
        ({
            let toks = arith_tokens_from("0"@, 0);
            toks == seq![(ALex::Word("0"@), 0int, 1int)] && parse_at(
                toks,
                0,
                parse_fuel(toks.len(), 0),
            ) == ParseOutcome::POk(Term::Zero, 1int)
        }),
        normalize(Term::True) == Ok::<Term, Term>(Term::True),
        normalize(Term::False) == Ok::<Term, Term>(Term::False),
        normalize(Term::Zero) == Ok::<Term, Term>(Term::Zero),
{
    lemma_keywords_distinct();
    reveal_strlit("true");
    reveal_strlit("false");
    reveal_strlit("0");
    assert(forall|j: int| 0 <= j < "true"@.len() ==> !is_ws_char("true"@[j]));
    assert(forall|j: int| 0 <= j < "false"@.len() ==> !is_ws_char("false"@[j]));
    assert(forall|j: int| 0 <= j < "0"@.len() ==> !is_ws_char("0"@[j]));
    lemma_single_word_tokens("true"@);
    lemma_single_word_tokens("false"@);
    lemma_single_word_tokens("0"@);
}

} // verus!
