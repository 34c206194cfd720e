//! The tokenizer of the Lisp-like language: a state machine over the next
//! unconsumed character that classifies punctuation, `#`-constants, string
//! and numeric literals, symbols, whitespace runs and line comments,
//! attaching an exact character span to every token and failing fast on the
//! first unrecognized character or malformed literal.

use crate::parsing_utils::InputIterator;
use crate::parsing_utils::Span;
use crate::parsing_utils::Spanned;
use crate::parsing_utils::TokenizeError;
use crate::parsing_utils::is_digit;
use crate::parsing_utils::is_digit_char;
use crate::parsing_utils::is_letter;
use crate::parsing_utils::is_letter_char;
use crate::parsing_utils::is_ws;
use crate::parsing_utils::is_ws_char;
use crate::parsing_utils::dec_str;
use crate::parsing_utils::i64_to_string;
use crate::parsing_utils::int_str;
use crate::parsing_utils::push_char;
use vstd::prelude::*;
use vstd::string::StrSliceExecFns;
use vstd::string::StringExecFns;

verus! {

/// A token of the Lisp-like language. Whitespace runs and comments are kept
/// as tokens so the parser, not the tokenizer, decides what to skip.
#[derive(Debug, PartialEq, Eq)]
pub enum Token {
    OpenParen,
    CloseParen,
    Symbol(String),
    Number(i64),
    String(String),
    Quote,
    Backquote,
    Comma,
    True,
    False,
    Nil,
    Comment(String),
    Plus,
    Minus,
    Multiply,
    Divide,
    Equal,
    LessThan,
    GreaterThan,
    Whitespace(String),
}

/// The mathematical model of a token: the same classification over
/// character sequences and unbounded integers.
pub enum Lex {
    OpenParen,
    CloseParen,
    Symbol(Seq<char>),
    Number(int),
    Str(Seq<char>),
    Quote,
    Backquote,
    Comma,
    True,
    False,
    Nil,
    Comment(Seq<char>),
    Plus,
    Minus,
    Multiply,
    Divide,
    Equal,
    LessThan,
    GreaterThan,
    Whitespace(Seq<char>),
}

/// The model of a token.
pub open spec fn lex_of(t: Token) -> Lex {
    match t {
        Token::OpenParen => Lex::OpenParen,
        Token::CloseParen => Lex::CloseParen,
        Token::Symbol(s) => Lex::Symbol(s@),
        Token::Number(n) => Lex::Number(n as int),
        Token::String(s) => Lex::Str(s@),
        Token::Quote => Lex::Quote,
        Token::Backquote => Lex::Backquote,
        Token::Comma => Lex::Comma,
        Token::True => Lex::True,
        Token::False => Lex::False,
        Token::Nil => Lex::Nil,
        Token::Comment(s) => Lex::Comment(s@),
        Token::Plus => Lex::Plus,
        Token::Minus => Lex::Minus,
        Token::Multiply => Lex::Multiply,
        Token::Divide => Lex::Divide,
        Token::Equal => Lex::Equal,
        Token::LessThan => Lex::LessThan,
        Token::GreaterThan => Lex::GreaterThan,
        Token::Whitespace(s) => Lex::Whitespace(s@),
    }
}

/// The printed form of a token: the constructor name, with its payload
/// quoted or parenthesized, for example `Symbol("hello")` or `Number(12)`.
pub open spec fn lex_debug(lex: Lex) -> Seq<char> {
    match lex {
        Lex::OpenParen => "OpenParen"@,
        Lex::CloseParen => "CloseParen"@,
        Lex::Symbol(x) => "Symbol(\""@ + x + "\")"@,
        Lex::Number(v) => "Number("@ + int_str(v) + ")"@,
        Lex::Str(x) => "String(\""@ + x + "\")"@,
        Lex::Quote => "Quote"@,
        Lex::Backquote => "Backquote"@,
        Lex::Comma => "Comma"@,
        Lex::True => "True"@,
        Lex::False => "False"@,
        Lex::Nil => "Nil"@,
        Lex::Comment(x) => "Comment(\""@ + x + "\")"@,
        Lex::Plus => "Plus"@,
        Lex::Minus => "Minus"@,
        Lex::Multiply => "Multiply"@,
        Lex::Divide => "Divide"@,
        Lex::Equal => "Equal"@,
        Lex::LessThan => "LessThan"@,
        Lex::GreaterThan => "GreaterThan"@,
        Lex::Whitespace(x) => "Whitespace(\""@ + x + "\")"@,
    }
}

/// Prints a token as its constructor with payload.
pub fn token_debug_string(t: &Token) -> (r: String)
    ensures
        r@ == lex_debug(lex_of(*t)),
{
    match t {
        Token::OpenParen => "OpenParen".to_owned(),
        Token::CloseParen => "CloseParen".to_owned(),
        Token::Symbol(x) => {
            let mut out = String::new();
            out.append("Symbol(\"");
            out.append(x.as_str());
            out.append("\")");
            proof {
                assert(out@ =~= lex_debug(lex_of(*t)));
            }
            out
        },
        Token::Number(v) => {
            let mut out = String::new();
            out.append("Number(");
            let ds = i64_to_string(*v);
            out.append(ds.as_str());
            out.append(")");
            proof {
                assert(out@ =~= lex_debug(lex_of(*t)));
            }
            out
        },
        Token::String(x) => {
            let mut out = String::new();
            out.append("String(\"");
            out.append(x.as_str());
            out.append("\")");
            proof {
                assert(out@ =~= lex_debug(lex_of(*t)));
            }
            out
        },
        Token::Quote => "Quote".to_owned(),
        Token::Backquote => "Backquote".to_owned(),
        Token::Comma => "Comma".to_owned(),
        Token::True => "True".to_owned(),
        Token::False => "False".to_owned(),
        Token::Nil => "Nil".to_owned(),
        Token::Comment(x) => {
            let mut out = String::new();
            out.append("Comment(\"");
            out.append(x.as_str());
            out.append("\")");
            proof {
                assert(out@ =~= lex_debug(lex_of(*t)));
            }
            out
        },
        Token::Plus => "Plus".to_owned(),
        Token::Minus => "Minus".to_owned(),
        Token::Multiply => "Multiply".to_owned(),
        Token::Divide => "Divide".to_owned(),
        Token::Equal => "Equal".to_owned(),
        Token::LessThan => "LessThan".to_owned(),
        Token::GreaterThan => "GreaterThan".to_owned(),
        Token::Whitespace(x) => {
            let mut out = String::new();
            out.append("Whitespace(\"");
            out.append(x.as_str());
            out.append("\")");
            proof {
                assert(out@ =~= lex_debug(lex_of(*t)));
            }
            out
        },
    }
}

/// Whether a character may continue a symbol.
pub open spec fn is_sym_char(c: char) -> bool {
    is_letter_char(c) || is_digit_char(c) || c == '_'
}

/// Executable counterpart of `is_sym_char`.
pub fn is_sym(c: char) -> (r: bool)
    ensures
        r == is_sym_char(c),
{
    is_letter(c) || is_digit(c) || c == '_'
}

/// The numeric value of a digit run, most significant digit first.
pub open spec fn digits_val(ds: Seq<char>) -> int
    decreases ds.len(),
{
    if ds.len() == 0 {
        0
    } else {
        digits_val(ds.drop_last()) * 10 + (ds.last() as u32 - '0' as u32)
    }
}

/// The first offset at or after `i` not holding a symbol character.
pub open spec fn sym_end(s: Seq<char>, i: int) -> int
    decreases s.len() - i when 0 <= i <= s.len()
{
    if i >= s.len() {
        s.len() as int
    } else if is_sym_char(s[i]) {
        sym_end(s, i + 1)
    } else {
        i
    }
}

/// The first offset at or after `i` not holding a digit.
pub open spec fn digit_end(s: Seq<char>, i: int) -> int
    decreases s.len() - i when 0 <= i <= s.len()
{
    if i >= s.len() {
        s.len() as int
    } else if is_digit_char(s[i]) {
        digit_end(s, i + 1)
    } else {
        i
    }
}

/// The first offset at or after `i` not holding whitespace.
pub open spec fn ws_end(s: Seq<char>, i: int) -> int
    decreases s.len() - i when 0 <= i <= s.len()
{
    if i >= s.len() {
        s.len() as int
    } else if is_ws_char(s[i]) {
        ws_end(s, i + 1)
    } else {
        i
    }
}

/// The offset of the first `"` at or after `i`, or the input's length.
pub open spec fn str_end(s: Seq<char>, i: int) -> int
    decreases s.len() - i when 0 <= i <= s.len()
{
    if i >= s.len() {
        s.len() as int
    } else if s[i] != '"' {
        str_end(s, i + 1)
    } else {
        i
    }
}

/// The offset of the first newline at or after `i`, or the input's length.
pub open spec fn comment_end(s: Seq<char>, i: int) -> int
    decreases s.len() - i when 0 <= i <= s.len()
{
    if i >= s.len() {
        s.len() as int
    } else if s[i] != '\n' {
        comment_end(s, i + 1)
    } else {
        i
    }
}

/// `sym_end` lands on the first non-symbol character.
pub proof fn lemma_sym_end(s: Seq<char>, i: int)
    requires
        0 <= i <= s.len(),
    ensures
        i <= sym_end(s, i) <= s.len(),
        forall|j: int| i <= j < sym_end(s, i) ==> is_sym_char(s[j]),
        sym_end(s, i) < s.len() ==> !is_sym_char(s[sym_end(s, i)]),
    decreases s.len() - i,
{
    if i < s.len() && is_sym_char(s[i]) {
        lemma_sym_end(s, i + 1);
    }
}

/// `digit_end` lands on the first non-digit.
pub proof fn lemma_digit_end(s: Seq<char>, i: int)
    requires
        0 <= i <= s.len(),
    ensures
        i <= digit_end(s, i) <= s.len(),
        forall|j: int| i <= j < digit_end(s, i) ==> is_digit_char(s[j]),
        digit_end(s, i) < s.len() ==> !is_digit_char(s[digit_end(s, i)]),
    decreases s.len() - i,
{
    if i < s.len() && is_digit_char(s[i]) {
        lemma_digit_end(s, i + 1);
    }
}

/// `ws_end` lands on the first non-whitespace character.
pub proof fn lemma_ws_end(s: Seq<char>, i: int)
    requires
        0 <= i <= s.len(),
    ensures
        i <= ws_end(s, i) <= s.len(),
        forall|j: int| i <= j < ws_end(s, i) ==> is_ws_char(s[j]),
        ws_end(s, i) < s.len() ==> !is_ws_char(s[ws_end(s, i)]),
    decreases s.len() - i,
{
    if i < s.len() && is_ws_char(s[i]) {
        lemma_ws_end(s, i + 1);
    }
}

/// `str_end` lands on the first closing quote.
pub proof fn lemma_str_end(s: Seq<char>, i: int)
    requires
        0 <= i <= s.len(),
    ensures
        i <= str_end(s, i) <= s.len(),
        forall|j: int| i <= j < str_end(s, i) ==> s[j] != '"',
        str_end(s, i) < s.len() ==> s[str_end(s, i)] == '"',
    decreases s.len() - i,
{
    if i < s.len() && s[i] != '"' {
        lemma_str_end(s, i + 1);
    }
}

/// `comment_end` lands on the first newline.
pub proof fn lemma_comment_end(s: Seq<char>, i: int)
    requires
        0 <= i <= s.len(),
    ensures
        i <= comment_end(s, i) <= s.len(),
        forall|j: int| i <= j < comment_end(s, i) ==> s[j] != '\n',
        comment_end(s, i) < s.len() ==> s[comment_end(s, i)] == '\n',
    decreases s.len() - i,
{
    if i < s.len() && s[i] != '\n' {
        lemma_comment_end(s, i + 1);
    }
}

/// What the tokenizer does at one position: emits a token (with its model,
/// span start, span length and the position after it), fails, or is at the
/// end of the input.
pub enum NextLex {
    NTok(Lex, int, int, int),
    NErr(Seq<char>, int, int),
    NEnd,
}

/// One step of the tokenizer state machine at offset `i` of `s`.
pub open spec fn lisp_next(s: Seq<char>, i: int) -> NextLex {
    if i >= s.len() {
        NextLex::NEnd
    } else {
        let c = s[i];
        if c == '(' {
            NextLex::NTok(Lex::OpenParen, i, 1, i + 1)
        } else if c == ')' {
            NextLex::NTok(Lex::CloseParen, i, 1, i + 1)
        } else if c == '\'' {
            NextLex::NTok(Lex::Quote, i, 1, i + 1)
        } else if c == '`' {
            NextLex::NTok(Lex::Backquote, i, 1, i + 1)
        } else if c == ',' {
            NextLex::NTok(Lex::Comma, i, 1, i + 1)
        } else if c == '+' {
            NextLex::NTok(Lex::Plus, i, 1, i + 1)
        } else if c == '-' {
            NextLex::NTok(Lex::Minus, i, 1, i + 1)
        } else if c == '*' {
            NextLex::NTok(Lex::Multiply, i, 1, i + 1)
        } else if c == '/' {
            NextLex::NTok(Lex::Divide, i, 1, i + 1)
        } else if c == '=' {
            NextLex::NTok(Lex::Equal, i, 1, i + 1)
        } else if c == '<' {
            NextLex::NTok(Lex::LessThan, i, 1, i + 1)
        } else if c == '>' {
            NextLex::NTok(Lex::GreaterThan, i, 1, i + 1)
        } else if c == '#' {
            if i + 1 < s.len() {
                let c2 = s[i + 1];
                if c2 == 't' {
                    NextLex::NTok(Lex::True, i, 2, i + 2)
                } else if c2 == 'f' {
                    NextLex::NTok(Lex::False, i, 2, i + 2)
                } else if c2 == 'n' {
                    NextLex::NTok(Lex::Nil, i, 2, i + 2)
                } else {
                    NextLex::NErr("Invalid character after #: #"@ + seq![c2], i, 2)
                }
            } else {
                NextLex::NErr("Unexpected end of input"@, i, 1)
            }
        } else if c == ';' {
            let k = comment_end(s, i);
            NextLex::NTok(Lex::Comment(s.subrange(i, k)), i, k - i, k)
        } else if c == '"' {
            let k = str_end(s, i + 1);
            if k < s.len() {
                NextLex::NTok(Lex::Str(s.subrange(i + 1, k)), i, k + 1 - i, k + 1)
            } else {
                NextLex::NErr("Unterminated string"@, i, k - i)
            }
        } else if is_digit_char(c) {
            let k = digit_end(s, i);
            if k < s.len() && is_letter_char(s[k]) {
                NextLex::NErr("Invalid number"@, k - 1, 1)
            } else if digits_val(s.subrange(i, k)) > i64::MAX {
                NextLex::NErr("Invalid number"@, i, k - i)
            } else {
                NextLex::NTok(Lex::Number(digits_val(s.subrange(i, k))), i, k - i, k)
            }
        } else if is_letter_char(c) {
            let k = sym_end(s, i);
            NextLex::NTok(Lex::Symbol(s.subrange(i, k)), i, k - i, k)
        } else if is_ws_char(c) {
            let k = ws_end(s, i);
            NextLex::NTok(Lex::Whitespace(s.subrange(i, k)), i, k - i, k)
        } else {
            NextLex::NErr("Invalid character: "@ + seq![c], i, 1)
        }
    }
}

/// Every emitted token starts where the step began, spans exactly the
/// consumed characters, and makes progress.
pub proof fn lemma_lisp_next(s: Seq<char>, i: int)
    requires
        0 <= i <= s.len(),
    ensures
        lisp_next(s, i) matches NextLex::NTok(lex, st, l, k) ==> st == i && l == k - i && i < k
            <= s.len(),
        lisp_next(s, i) matches NextLex::NErr(m, st, l) ==> 0 <= st && 0 <= l && st + l <= s.len(),
    decreases s.len() - i,
{
    if i < s.len() {
        let c = s[i];
        if c == ';' {
            lemma_comment_end(s, i);
        } else if c == '"' {
            lemma_str_end(s, i + 1);
        } else if is_digit_char(c) {
            lemma_digit_end(s, i);
        } else if is_letter_char(c) {
            lemma_sym_end(s, i);
        } else if is_ws_char(c) {
            lemma_ws_end(s, i);
        }
    }
}

/// The token models and spans the tokenizer emits from offset `i` to the
/// end of `s`, or the error that stops it.
pub open spec fn lisp_tokens_from(s: Seq<char>, i: int) -> Result<
    Seq<(Lex, int, int)>,
    (Seq<char>, int, int),
>
    decreases s.len() - i when 0 <= i <= s.len()
{
    match lisp_next(s, i) {
        NextLex::NEnd => Ok(Seq::empty()),
        NextLex::NErr(m, st, l) => Err((m, st, l)),
        NextLex::NTok(lex, st, l, k) => {
            proof {
                lemma_lisp_next(s, i);
            }
            match lisp_tokens_from(s, k) {
                Ok(rest) => Ok(seq![(lex, st, l)] + rest),
                Err(e) => Err(e),
            }
        },
    }
}

/// Every token span and error span the tokenizer produces lies within the
/// input.
pub proof fn lemma_lisp_tokens_bounded(s: Seq<char>, i: int)
    requires
        0 <= i <= s.len(),
    ensures
        lisp_tokens_from(s, i) matches Ok(lexes) ==> forall|k: int|
            0 <= k < lexes.len() ==> 0 <= #[trigger] lexes[k].1 && 0 <= lexes[k].2 && lexes[k].1
                + lexes[k].2 <= s.len(),
        lisp_tokens_from(s, i) matches Err(e) ==> 0 <= e.1 && 0 <= e.2 && e.1 + e.2 <= s.len(),
    decreases s.len() - i,
{
    lemma_lisp_next(s, i);
    match lisp_next(s, i) {
        NextLex::NTok(lex, st, l, k) => {
            lemma_lisp_tokens_bounded(s, k);
            match lisp_tokens_from(s, k) {
                Ok(rest) => {
                    assert forall|m: int|
                        0 <= m < (seq![(lex, st, l)] + rest).len() implies 0 <= #[trigger] (seq![
                        (lex, st, l),
                    ] + rest)[m].1 && 0 <= (seq![(lex, st, l)] + rest)[m].2 && (seq![(lex, st, l)]
                        + rest)[m].1 + (seq![(lex, st, l)] + rest)[m].2 <= s.len() by {
                        if m > 0 {
                            assert((seq![(lex, st, l)] + rest)[m] == rest[m - 1]);
                        }
                    }
                },
                Err(_) => {},
            }
        },
        _ => {},
    }
}

/// The substring of `s` at `[st, st + l)` is exactly the literal text that
/// produces the token `lex`.
pub open spec fn lex_spelled(s: Seq<char>, lex: Lex, st: int, l: int) -> bool {
    0 <= st && st + l <= s.len() && {
        let text = s.subrange(st, st + l);
        match lex {
            Lex::OpenParen => text == seq!['('],
            Lex::CloseParen => text == seq![')'],
            Lex::Quote => text == seq!['\''],
            Lex::Backquote => text == seq!['`'],
            Lex::Comma => text == seq![','],
            Lex::Plus => text == seq!['+'],
            Lex::Minus => text == seq!['-'],
            Lex::Multiply => text == seq!['*'],
            Lex::Divide => text == seq!['/'],
            Lex::Equal => text == seq!['='],
            Lex::LessThan => text == seq!['<'],
            Lex::GreaterThan => text == seq!['>'],
            Lex::True => text == seq!['#', 't'],
            Lex::False => text == seq!['#', 'f'],
            Lex::Nil => text == seq!['#', 'n'],
            Lex::Symbol(x) => text == x,
            Lex::Str(x) => text == seq!['"'] + x + seq!['"'],
            Lex::Comment(x) => text == x,
            Lex::Whitespace(x) => text == x,
            Lex::Number(v) => l >= 1 && (forall|j: int| st <= j < st + l ==> is_digit_char(s[j]))
                && digits_val(text) == v,
        }
    }
}

/// Round trip: for every token the tokenizer emits, the substring of the
/// original input at the token's span reproduces exactly the literal text
/// that produced it.
pub proof fn lemma_lisp_tokens_spelled(s: Seq<char>, i: int)
    requires
        0 <= i <= s.len(),
    ensures
        lisp_tokens_from(s, i) matches Ok(lexes) ==> forall|k: int|
            0 <= k < lexes.len() ==> #[trigger] lex_spelled(s, lexes[k].0, lexes[k].1, lexes[k].2),
    decreases s.len() - i,
{
    lemma_lisp_next(s, i);
    match lisp_next(s, i) {
        NextLex::NTok(lex, st, l, k) => {
            lemma_lisp_tokens_spelled(s, k);
            let c = s[i];
            if c == '"' {
                lemma_str_end(s, i + 1);
                assert(s.subrange(st, st + l) =~= seq!['"'] + s.subrange(i + 1, k - 1) + seq![
                    '"',
                ]);
            } else if c == '#' {
                assert(s.subrange(st, st + l) =~= seq![s[i], s[i + 1]]);
            } else if c == ';' {
                lemma_comment_end(s, i);
            } else if is_digit_char(c) {
                lemma_digit_end(s, i);
            } else if is_letter_char(c) {
                lemma_sym_end(s, i);
            } else if is_ws_char(c) {
                lemma_ws_end(s, i);
            } else {
                assert(s.subrange(st, st + l) =~= seq![c]);
            }
            assert(lex_spelled(s, lex, st, l));
            match lisp_tokens_from(s, k) {
                Ok(rest) => {
                    assert forall|m: int|
                        0 <= m < (seq![(lex, st, l)] + rest).len() implies #[trigger] lex_spelled(
                        s,
                        (seq![(lex, st, l)] + rest)[m].0,
                        (seq![(lex, st, l)] + rest)[m].1,
                        (seq![(lex, st, l)] + rest)[m].2,
                    ) by {
                        if m > 0 {
                            assert((seq![(lex, st, l)] + rest)[m] == rest[m - 1]);
                        }
                    }
                },
                Err(_) => {},
            }
        },
        _ => {},
    }
}

/// Every tokenization failure falls into the closed error taxonomy, with
/// its span pinned down: an invalid character is underlined exactly one
/// character wide at its own offset; an unterminated string from its
/// opening quote to the end of the input; a malformed number at its digits
/// or the last of them; a lone or ill-followed `#` at its own characters.
pub proof fn lemma_lisp_err_shape(s: Seq<char>, i: int)
    requires
        0 <= i <= s.len(),
    ensures
        lisp_tokens_from(s, i) matches Err(e) ==> {
            ||| (e.0 == "Invalid character: "@ + seq![s[e.1]] && e.2 == 1 && 0 <= e.1 < s.len())
            ||| (e.0 == "Unterminated string"@ && s[e.1] == '"' && e.1 + e.2 == s.len())
            ||| (e.0 == "Invalid number"@ && 0 <= e.1 < s.len() && e.2 >= 1)
            ||| (e.0 == "Unexpected end of input"@ && s[e.1] == '#' && e.2 == 1 && e.1 + 1
                == s.len())
            ||| (e.0 == "Invalid character after #: #"@ + seq![s[e.1 + 1]] && s[e.1] == '#' && e.2
                == 2)
        },
    decreases s.len() - i,
{
    lemma_lisp_next(s, i);
    match lisp_next(s, i) {
        NextLex::NTok(lex, st, l, k) => {
            lemma_lisp_err_shape(s, k);
        },
        NextLex::NErr(m, st, l) => {
            if i < s.len() && s[i] == '"' {
                lemma_str_end(s, i + 1);
            } else if i < s.len() && is_digit_char(s[i]) {
                lemma_digit_end(s, i);
            }
        },
        _ => {},
    }
}

/// Whether a character can open a token: punctuation, the constant,
/// comment and string introducers, digits, letters and whitespace.
pub open spec fn lisp_can_start(c: char) -> bool {
    c == '(' || c == ')' || c == '\'' || c == '`' || c == ',' || c == '+' || c == '-' || c == '*'
        || c == '/' || c == '=' || c == '<' || c == '>' || c == '#' || c == ';' || c == '"'
        || is_digit_char(c) || is_letter_char(c) || is_ws_char(c)
}

/// Whether a character can appear in no token at all: it can neither open
/// one nor continue a symbol.
pub open spec fn lisp_never_in_token(c: char) -> bool {
    !lisp_can_start(c) && c != '_'
}

/// An input holding a character that can appear in no token fails
/// tokenization, provided no string literal or comment opens before it
/// (either of those may legally swallow the character): the scanner can
/// never step across it.
pub proof fn lemma_lisp_unsupported_char_fails(s: Seq<char>, i: int, fb: int)
    requires
        0 <= i <= fb < s.len(),
        lisp_never_in_token(s[fb]),
        forall|j: int| i <= j < fb ==> s[j] != '"' && s[j] != ';',
    ensures
        lisp_tokens_from(s, i) is Err,
    decreases s.len() - i,
{
    lemma_lisp_next(s, i);
    match lisp_next(s, i) {
        NextLex::NTok(lex, st, l, k) => {
            let c = s[i];
            if is_digit_char(c) {
                lemma_digit_end(s, i);
            } else if is_letter_char(c) {
                lemma_sym_end(s, i);
            } else if is_ws_char(c) {
                lemma_ws_end(s, i);
            }
            assert(k <= fb);
            lemma_lisp_unsupported_char_fails(s, k, fb);
        },
        _ => {},
    }
}

/// The model triple of an emitted token: its classification, span start and
/// span length.
pub open spec fn token_view(t: Spanned<Token>) -> (Lex, int, int) {
    (lex_of(t.item), t.span.start as int, t.span.length as int)
}

/// What a helper that emits exactly one token (or fails) guarantees, as a
/// relation between the cursor before and after the call.
pub open spec fn emits_step(
    pre: InputIterator<Token>,
    post: InputIterator<Token>,
    r: Result<(), TokenizeError>,
) -> bool {
    let s = pre.chars@;
    let i = pre.offset as int;
    &&& post.chars@ == pre.chars@
    &&& post.wf()
    &&& match lisp_next(s, i) {
        NextLex::NTok(lex, st, l, k) => {
            &&& r is Ok
            &&& post.offset == k
            &&& exists|tok: Spanned<Token>|
                post.tokens@ == #[trigger] pre.tokens@.push(tok) && token_view(tok) == (
                lex,
                st,
                l,
                )
        },
        NextLex::NErr(m, st, l) => {
            &&& r matches Err(e) && e.message@ == m && e.span.start == st && e.span.length == l
            &&& post.tokens == pre.tokens
            &&& post.offset == st + l
        },
        NextLex::NEnd => false,
    }
}

/// Tokenizes `#`-introduced constants: `#t`, `#f` and `#n`.
pub fn tokenize_constants(it: &mut InputIterator<Token>) -> (r: Result<(), TokenizeError>)
    requires
        old(it).wf(),
        old(it).offset < old(it).chars@.len(),
        old(it).chars@[old(it).offset as int] == '#',
    ensures
        emits_step(*old(it), *final(it), r),
{
    it.next();
    match it.peek() {
        Some(c) => {
            if c == 't' {
                it.next_and_push(Token::True, 2);
                Ok(())
            } else if c == 'f' {
                it.next_and_push(Token::False, 2);
                Ok(())
            } else if c == 'n' {
                it.next_and_push(Token::Nil, 2);
                Ok(())
            } else {
                let mut message = String::new();
                message.append("Invalid character after #: #");
                push_char(&mut message, c);
                it.next();
                proof {
                    assert(message@ =~= "Invalid character after #: #"@ + seq![c]);
                }
                Err(TokenizeError { message, span: it.span(2) })
            }
        },
        None => Err(it.tok_err("Unexpected end of input", 1)),
    }
}

/// Tokenizes a string literal delimited by double quotes.
pub fn tokenize_string(it: &mut InputIterator<Token>) -> (r: Result<(), TokenizeError>)
    requires
        old(it).wf(),
        old(it).offset < old(it).chars@.len(),
        old(it).chars@[old(it).offset as int] == '"',
    ensures
        emits_step(*old(it), *final(it), r),
{
    let ghost s = old(it).chars@;
    let ghost i0 = old(it).offset as int;
    let start = it.offset();
    let mut content = String::new();
    it.next();
    proof {
        assert(content@ =~= s.subrange(i0 + 1, i0 + 1));
    }
    loop
        invariant_except_break
            it.wf(),
            it.chars@ == s,
            it.tokens == old(it).tokens,
            0 <= i0 < s.len(),
            start as int == i0,
            i0 + 1 <= it.offset <= s.len(),
            content@ == s.subrange(i0 + 1, it.offset as int),
            forall|j: int| i0 + 1 <= j < it.offset ==> s[j] != '"',
        ensures
            it.wf(),
            it.chars@ == s,
            it.tokens == old(it).tokens,
            0 <= i0 < s.len(),
            start as int == i0,
            it.offset == str_end(s, i0 + 1),
            content@ == s.subrange(i0 + 1, it.offset as int),
        decreases s.len() - it.offset,
    {
        match it.peek() {
            None => {
                proof {
                    lemma_str_end(s, i0 + 1);
                    assert(it.offset == str_end(s, i0 + 1));
                }
                break ;
            },
            Some(c) => {
                if c == '"' {
                    proof {
                        lemma_str_end(s, i0 + 1);
                        assert(it.offset == str_end(s, i0 + 1));
                    }
                    break ;
                }
                push_char(&mut content, c);
                it.next();
                proof {
                    assert(content@ =~= s.subrange(i0 + 1, it.offset as int));
                }
            },
        }
    }
    proof {
        lemma_str_end(s, i0 + 1);
    }
    match it.peek() {
        Some(_) => {
            it.next();
            let len = it.offset() - start;
            it.push(Token::String(content), len);
            Ok(())
        },
        None => Err(it.tok_err("Unterminated string", it.offset() - start)),
    }
}

/// Tokenizes a symbol: a maximal run of letters, digits and underscores
/// starting with a letter.
pub fn tokenize_symbol(it: &mut InputIterator<Token>)
    requires
        old(it).wf(),
        old(it).offset < old(it).chars@.len(),
        is_letter_char(old(it).chars@[old(it).offset as int]),
    ensures
        emits_step(*old(it), *final(it), Ok::<(), TokenizeError>(())),
{
    let ghost s = old(it).chars@;
    let ghost i0 = old(it).offset as int;
    let start = it.offset();
    let mut symbol = String::new();
    proof {
        assert(symbol@ =~= s.subrange(i0, i0));
    }
    loop
        invariant_except_break
            it.wf(),
            it.chars@ == s,
            it.tokens == old(it).tokens,
            0 <= i0 < s.len(),
            start as int == i0,
            is_sym_char(s[i0]),
            i0 <= it.offset <= s.len(),
            symbol@ == s.subrange(i0, it.offset as int),
            forall|j: int| i0 <= j < it.offset ==> is_sym_char(s[j]),
        ensures
            it.wf(),
            it.chars@ == s,
            it.tokens == old(it).tokens,
            0 <= i0 < s.len(),
            start as int == i0,
            it.offset == sym_end(s, i0),
            symbol@ == s.subrange(i0, it.offset as int),
        decreases s.len() - it.offset,
    {
        match it.peek() {
            None => {
                proof {
                    lemma_sym_end(s, i0);
                }
                break ;
            },
            Some(c) => {
                if !is_sym(c) {
                    proof {
                        lemma_sym_end(s, i0);
                    }
                    break ;
                }
                push_char(&mut symbol, c);
                it.next();
                proof {
                    assert(symbol@ =~= s.subrange(i0, it.offset as int));
                }
            },
        }
    }
    proof {
        lemma_sym_end(s, i0);
    }
    let len = it.offset() - start;
    it.push(Token::Symbol(symbol), len);
}

/// Tokenizes a maximal whitespace run, kept as one token carrying the
/// matched text.
pub fn tokenize_whitespace(it: &mut InputIterator<Token>)
    requires
        old(it).wf(),
        old(it).offset < old(it).chars@.len(),
        is_ws_char(old(it).chars@[old(it).offset as int]),
    ensures
        emits_step(*old(it), *final(it), Ok::<(), TokenizeError>(())),
{
    let ghost s = old(it).chars@;
    let ghost i0 = old(it).offset as int;
    let start = it.offset();
    let mut ws = String::new();
    proof {
        assert(ws@ =~= s.subrange(i0, i0));
    }
    loop
        invariant_except_break
            it.wf(),
            it.chars@ == s,
            it.tokens == old(it).tokens,
            0 <= i0 < s.len(),
            start as int == i0,
            is_ws_char(s[i0]),
            i0 <= it.offset <= s.len(),
            ws@ == s.subrange(i0, it.offset as int),
            forall|j: int| i0 <= j < it.offset ==> is_ws_char(s[j]),
        ensures
            it.wf(),
            it.chars@ == s,
            it.tokens == old(it).tokens,
            0 <= i0 < s.len(),
            start as int == i0,
            it.offset == ws_end(s, i0),
            ws@ == s.subrange(i0, it.offset as int),
        decreases s.len() - it.offset,
    {
        match it.peek() {
            None => {
                proof {
                    lemma_ws_end(s, i0);
                }
                break ;
            },
            Some(c) => {
                if !is_ws(c) {
                    proof {
                        lemma_ws_end(s, i0);
                    }
                    break ;
                }
                push_char(&mut ws, c);
                it.next();
                proof {
                    assert(ws@ =~= s.subrange(i0, it.offset as int));
                }
            },
        }
    }
    proof {
        lemma_ws_end(s, i0);
    }
    let len = it.offset() - start;
    it.push(Token::Whitespace(ws), len);
}

/// Tokenizes a line comment: everything from the comment character to the
/// end of the line or of the input, the newline excluded.
pub fn tokenize_comment(it: &mut InputIterator<Token>)
    requires
        old(it).wf(),
        old(it).offset < old(it).chars@.len(),
        old(it).chars@[old(it).offset as int] == ';',
    ensures
        emits_step(*old(it), *final(it), Ok::<(), TokenizeError>(())),
{
    let ghost s = old(it).chars@;
    let ghost i0 = old(it).offset as int;
    let start = it.offset();
    let mut comment = String::new();
    proof {
        assert(comment@ =~= s.subrange(i0, i0));
    }
    loop
        invariant_except_break
            it.wf(),
            it.chars@ == s,
            it.tokens == old(it).tokens,
            0 <= i0 < s.len(),
            start as int == i0,
            s[i0] != '\n',
            i0 <= it.offset <= s.len(),
            comment@ == s.subrange(i0, it.offset as int),
            forall|j: int| i0 <= j < it.offset ==> s[j] != '\n',
        ensures
            it.wf(),
            it.chars@ == s,
            it.tokens == old(it).tokens,
            0 <= i0 < s.len(),
            start as int == i0,
            it.offset == comment_end(s, i0),
            comment@ == s.subrange(i0, it.offset as int),
        decreases s.len() - it.offset,
    {
        match it.peek() {
            None => {
                proof {
                    lemma_comment_end(s, i0);
                }
                break ;
            },
            Some(c) => {
                if c == '\n' {
                    proof {
                        lemma_comment_end(s, i0);
                    }
                    break ;
                }
                push_char(&mut comment, c);
                it.next();
                proof {
                    assert(comment@ =~= s.subrange(i0, it.offset as int));
                }
            },
        }
    }
    proof {
        lemma_comment_end(s, i0);
    }
    let len = it.offset() - start;
    it.push(Token::Comment(comment), len);
}

/// A digit-run value is non-negative.
pub proof fn lemma_digits_val_nonneg(s: Seq<char>, i: int, m: int)
    requires
        0 <= i <= m <= s.len(),
        forall|j: int| i <= j < m ==> is_digit_char(s[j]),
    ensures
        0 <= digits_val(s.subrange(i, m)),
    decreases m - i,
{
    if m > i {
        lemma_digits_val_nonneg(s, i, m - 1);
        assert(s.subrange(i, m).drop_last() =~= s.subrange(i, m - 1));
    }
}

/// A digit-run value grows with the run.
pub proof fn lemma_digits_val_mono(s: Seq<char>, i: int, m: int, k: int)
    requires
        0 <= i <= m <= k <= s.len(),
        forall|j: int| i <= j < k ==> is_digit_char(s[j]),
    ensures
        digits_val(s.subrange(i, m)) <= digits_val(s.subrange(i, k)),
    decreases k - m,
{
    if m < k {
        lemma_digits_val_mono(s, i, m, k - 1);
        lemma_digits_val_nonneg(s, i, k - 1);
        assert(s.subrange(i, k).drop_last() =~= s.subrange(i, k - 1));
    }
}

/// Tokenizes a numeric literal: a maximal run of digits, failing if a
/// letter follows the run directly or the value does not fit.
pub fn tokenize_number(it: &mut InputIterator<Token>) -> (r: Result<(), TokenizeError>)
    requires
        old(it).wf(),
        old(it).offset < old(it).chars@.len(),
        is_digit_char(old(it).chars@[old(it).offset as int]),
    ensures
        emits_step(*old(it), *final(it), r),
{
    let ghost s = old(it).chars@;
    let ghost i0 = old(it).offset as int;
    let start = it.offset();
    loop
        invariant_except_break
            it.wf(),
            it.chars@ == s,
            it.tokens == old(it).tokens,
            0 <= i0 < s.len(),
            start as int == i0,
            is_digit_char(s[i0]),
            i0 <= it.offset <= s.len(),
            forall|j: int| i0 <= j < it.offset ==> is_digit_char(s[j]),
        ensures
            it.wf(),
            it.chars@ == s,
            it.tokens == old(it).tokens,
            0 <= i0 < s.len(),
            start as int == i0,
            is_digit_char(s[i0]),
            it.offset == digit_end(s, i0),
            forall|j: int| i0 <= j < it.offset ==> is_digit_char(s[j]),
        decreases s.len() - it.offset,
    {
        match it.peek() {
            None => {
                proof {
                    lemma_digit_end(s, i0);
                }
                break ;
            },
            Some(c) => {
                if !is_digit(c) {
                    proof {
                        lemma_digit_end(s, i0);
                    }
                    break ;
                }
                it.next();
            },
        }
    }
    proof {
        lemma_digit_end(s, i0);
    }
    let k = it.offset();
    match it.peek() {
        Some(c) => {
            if is_letter(c) {
                return Err(it.tok_err("Invalid number", 1));
            }
        },
        None => {},
    }
    let mut acc: i64 = 0;
    let mut p = start;
    proof {
        assert(s.subrange(i0, i0) =~= Seq::<char>::empty());
    }
    while p < k
        invariant
            it.wf(),
            it.chars@ == s,
            s == old(it).chars@,
            i0 == old(it).offset as int,
            it.tokens == old(it).tokens,
            0 <= i0 < s.len(),
            start as int == i0,
            start <= p <= k,
            k == it.offset,
            k as int == digit_end(s, i0),
            k <= s.len(),
            k as int == s.len() || !is_letter_char(s[k as int]),
            forall|j: int| i0 <= j < k ==> is_digit_char(s[j]),
            0 <= acc,
            acc as int == digits_val(s.subrange(i0, p as int)),
        decreases k - p,
    {
        let c = it.chars[p];
        let d = (c as u32 - '0' as u32) as i64;
        if acc > (i64::MAX - d) / 10 {
            proof {
                assert(d as int == s[p as int] as u32 - '0' as u32);
                assert(acc as int * 10 + d as int > i64::MAX) by {
                    assert(10 * (((i64::MAX - d) / 10) as int) >= i64::MAX - d - 9);
                }
                assert(s.subrange(i0, p + 1 as int).drop_last() =~= s.subrange(i0, p as int));
                assert(s.subrange(i0, p + 1 as int).last() == s[p as int]);
                assert(digits_val(s.subrange(i0, p + 1 as int)) == acc as int * 10 + d as int);
                assert(digits_val(s.subrange(i0, p + 1 as int)) > i64::MAX);
                lemma_digits_val_mono(s, i0, p + 1, k as int);
                lemma_digits_val_nonneg(s, i0, p as int);
                assert(digits_val(s.subrange(i0, k as int)) > i64::MAX);
            }
            let len = k - start;
            return Err(it.tok_err("Invalid number", len));
        }
        acc = acc * 10 + d;
        p += 1;
        proof {
            assert(s.subrange(i0, p as int).drop_last() =~= s.subrange(i0, p - 1 as int));
        }
    }
    let len = k - start;
    it.push(Token::Number(acc), len);
    Ok(())
}

/// Copies a string slice into an owned string.
pub fn s(string: &str) -> (r: String)
    ensures
        r@ == string@,
{
    string.to_owned()
}

/// Tokenizes a whole input line into its spanned token sequence, or fails
/// on the first unrecognized character or malformed literal, exactly as
/// `lisp_tokens_from` describes.
pub fn tokenize(input: &str) -> (r: Result<Vec<Spanned<Token>>, TokenizeError>)
    ensures
        input@.len() <= usize::MAX,
        match lisp_tokens_from(input@, 0) {
            Ok(lexes) => r matches Ok(toks) && toks@.map_values(|t: Spanned<Token>| token_view(t))
                == lexes,
            Err((m, st, l)) => r matches Err(e) && e.message@ == m && e.span.start == st
                && e.span.length == l,
        },
{
    let ghost s = input@;
    let mut it = InputIterator::<Token>::new(input);
    proof {
        assert(it.tokens@.map_values(|t: Spanned<Token>| token_view(t)) =~= Seq::<(
            Lex,
            int,
            int,
        )>::empty());
    }
    loop
        invariant_except_break
            it.wf(),
            it.chars@ == s,
            s == input@,
            s.len() <= usize::MAX,
            ({
                match lisp_tokens_from(s, it.offset as int) {
                    Ok(rest) => lisp_tokens_from(s, 0) == Ok::<Seq<(Lex, int, int)>, (
                        Seq<char>,
                        int,
                        int,
                    )>(it.tokens@.map_values(|t: Spanned<Token>| token_view(t)) + rest),
                    Err(e) => lisp_tokens_from(s, 0) == Err::<Seq<(Lex, int, int)>, (
                        Seq<char>,
                        int,
                        int,
                    )>(e),
                }
            }),
        ensures
            lisp_tokens_from(s, 0) == Ok::<Seq<(Lex, int, int)>, (Seq<char>, int, int)>(
                it.tokens@.map_values(|t: Spanned<Token>| token_view(t)),
            ),
        decreases s.len() - it.offset,
    {
        let ghost pre_tokens = it.tokens@;
        let ghost pre_off = it.offset as int;
        let c = match it.peek() {
            None => {
                proof {
                    assert(it.tokens@.map_values(|t: Spanned<Token>| token_view(t)) + Seq::<(
                        Lex,
                        int,
                        int,
                    )>::empty() =~= it.tokens@.map_values(|t: Spanned<Token>| token_view(t)));
                }
                break ;
            },
            Some(c) => c,
        };
        if c == '(' {
            it.next_and_push(Token::OpenParen, 1);
        } else if c == ')' {
            it.next_and_push(Token::CloseParen, 1);
        } else if c == '\'' {
            it.next_and_push(Token::Quote, 1);
        } else if c == '`' {
            it.next_and_push(Token::Backquote, 1);
        } else if c == ',' {
            it.next_and_push(Token::Comma, 1);
        } else if c == '+' {
            it.next_and_push(Token::Plus, 1);
        } else if c == '-' {
            it.next_and_push(Token::Minus, 1);
        } else if c == '*' {
            it.next_and_push(Token::Multiply, 1);
        } else if c == '/' {
            it.next_and_push(Token::Divide, 1);
        } else if c == '=' {
            it.next_and_push(Token::Equal, 1);
        } else if c == '<' {
            it.next_and_push(Token::LessThan, 1);
        } else if c == '>' {
            it.next_and_push(Token::GreaterThan, 1);
        } else if c == '#' {
            match tokenize_constants(&mut it) {
                Ok(()) => {},
                Err(e) => {
                    return Err(e);
                },
            }
        } else if c == ';' {
            tokenize_comment(&mut it);
        } else if c == '"' {
            match tokenize_string(&mut it) {
                Ok(()) => {},
                Err(e) => {
                    return Err(e);
                },
            }
        } else if is_digit(c) {
            match tokenize_number(&mut it) {
                Ok(()) => {},
                Err(e) => {
                    return Err(e);
                },
            }
        } else if is_letter(c) {
            tokenize_symbol(&mut it);
        } else if is_ws(c) {
            tokenize_whitespace(&mut it);
        } else {
            let mut message = String::new();
            message.append("Invalid character: ");
            push_char(&mut message, c);
            it.next();
            proof {
                assert(message@ =~= "Invalid character: "@ + seq![c]);
            }
            return Err(TokenizeError { message, span: it.span(1) });
        }
        proof {
            lemma_lisp_next(s, pre_off);
            match lisp_next(s, pre_off) {
                NextLex::NTok(lex, st, l, k) => {
                    let tok = choose|tok: Spanned<Token>|
                        it.tokens@ == pre_tokens.push(tok) && token_view(tok) == (lex, st, l);
                    assert(it.tokens@.map_values(|t: Spanned<Token>| token_view(t))
                        =~= pre_tokens.map_values(|t: Spanned<Token>| token_view(t)).push(
                        (lex, st, l),
                    ));
                    match lisp_tokens_from(s, k) {
                        Ok(rest2) => {
                            assert(pre_tokens.map_values(|t: Spanned<Token>| token_view(t)) + (
                            seq![(lex, st, l)] + rest2) =~= it.tokens@.map_values(
                                |t: Spanned<Token>| token_view(t),
                            ) + rest2);
                        },
                        Err(_) => {},
                    }
                },
                _ => {
                    assert(false);
                },
            }
        }
    }
    Ok(it.tokens)
}

} // verus!
