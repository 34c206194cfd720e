//! Shared pipeline infrastructure: character spans, spanned tokens, an
//! offset-tracking cursor over the input's characters, and the diagnostic
//! renderers that underline the offending range of a tokenize or parse error.

use vstd::prelude::*;
use vstd::string::StrSliceExecFns;
use vstd::string::StringExecFns;

verus! {

/// A half-open range `[start, start + length)` over the input's character
/// sequence (characters, not bytes), identifying the exact text a token or
/// tree node came from.
#[derive(Debug, Clone, Copy, PartialEq, Eq)]
pub struct Span {
    pub start: usize,
    pub length: usize,
}

/// The first character offset after the range a span covers.
pub open spec fn span_end(s: Span) -> int {
    s.start + s.length
}

impl Span {
    /// A span for `length` characters just consumed, ending at offset `end`.
    pub fn new(end: usize, length: usize) -> (s: Span)
        requires
            length <= end,
        ensures
            s.start == end - length,
            s.length == length,
    {
        Span { start: end - length, length }
    }

    /// The minimal span covering every span of a non-empty list.
    pub fn merge(spans: &Vec<Span>) -> (s: Span)
        requires
            spans@.len() > 0,
            forall|i: int| 0 <= i < spans@.len() ==> span_end(spans@[i]) <= usize::MAX,
        ensures
            forall|i: int| 0 <= i < spans@.len() ==> s.start <= spans@[i].start,
            exists|i: int| 0 <= i < spans@.len() && s.start == spans@[i].start,
            forall|i: int| 0 <= i < spans@.len() ==> span_end(spans@[i]) <= span_end(s),
            exists|i: int| 0 <= i < spans@.len() && span_end(s) == span_end(spans@[i]),
    {
        let mut start: usize = spans[0].start;
        let mut end: usize = spans[0].start + spans[0].length;
        let mut k: usize = 1;
        while k < spans.len()
            invariant
                1 <= k <= spans@.len(),
                forall|i: int| 0 <= i < spans@.len() ==> span_end(spans@[i]) <= usize::MAX,
                start <= end,
                forall|i: int| 0 <= i < k ==> start <= spans@[i].start,
                exists|i: int| 0 <= i < k && start == spans@[i].start,
                forall|i: int| 0 <= i < k ==> span_end(spans@[i]) <= end,
                exists|i: int| 0 <= i < k && end == span_end(spans@[i]),
            decreases spans@.len() - k,
        {
            let sp = spans[k];
            if sp.start < start {
                start = sp.start;
            }
            if sp.start + sp.length > end {
                end = sp.start + sp.length;
            }
            k += 1;
        }
        Span { start, length: end - start }
    }
}

/// A tokenization failure: what went wrong and the exact character range of
/// the offending text.
#[derive(Debug)]
pub struct TokenizeError {
    pub message: String,
    pub span: Span,
}

/// Builds a tokenization error from a message and the offending span.
pub fn tok_err(message: &str, span: Span) -> (e: TokenizeError)
    ensures
        e.message@ == message@,
        e.span == span,
{
    TokenizeError { message: message.to_owned(), span }
}

/// A parse failure: what was expected and the character range of the token
/// that violated the expectation.
#[derive(Debug)]
pub struct ParseError {
    pub message: String,
    pub span: Span,
}

/// Builds a parse error from a message and the offending span.
pub fn parse_err(message: &str, span: Span) -> (e: ParseError)
    ensures
        e.message@ == message@,
        e.span == span,
{
    ParseError { message: message.to_owned(), span }
}

/// A value paired with the span of the source text it came from.
#[derive(Debug)]
pub struct Spanned<T> {
    pub item: T,
    pub span: Span,
}

impl<T> Spanned<T> {
    /// Pairs a value with a span.
    pub fn new(token: T, span: Span) -> (s: Spanned<T>)
        ensures
            s.item == token,
            s.span == span,
    {
        Spanned { item: token, span }
    }
}

/// Pairs a value with a span; free-function form of `Spanned::new`.
pub fn stoken<T>(token: T, span: Span) -> (s: Spanned<T>)
    ensures
        s.item == token,
        s.span == span,
{
    Spanned { item: token, span }
}

/// Drops the spans from a token list, keeping the items in order.
pub fn strip_spans<T>(tokens: Vec<Spanned<T>>) -> (items: Vec<T>)
    ensures
        items@.len() == tokens@.len(),
        forall|i: int| 0 <= i < tokens@.len() ==> items@[i] == tokens@[i].item,
{
    let ghost all = tokens@;
    let mut rest = tokens;
    let mut items: Vec<T> = Vec::new();
    while rest.len() > 0
        invariant
            items@.len() + rest@.len() == all.len(),
            forall|i: int| 0 <= i < items@.len() ==> items@[i] == all[i].item,
            forall|i: int| 0 <= i < rest@.len() ==> rest@[i] == all[items@.len() + i],
        decreases rest@.len(),
    {
        let t = rest.remove(0);
        items.push(t.item);
    }
    items
}

/// A single-pass cursor over the input's characters that tracks how many have
/// been consumed and accumulates the spanned tokens emitted so far.
pub struct InputIterator<T> {
    pub chars: Vec<char>,
    pub offset: usize,
    pub tokens: Vec<Spanned<T>>,
}

impl<T> InputIterator<T> {
    /// The cursor has not run past the end of its input.
    pub open spec fn wf(self) -> bool {
        self.offset <= self.chars@.len()
    }

    /// A fresh cursor at offset 0 with no tokens yet.
    pub fn new(input: &str) -> (it: InputIterator<T>)
        ensures
            it.chars@ == input@,
            it.offset == 0,
            it.tokens@.len() == 0,
            it.wf(),
            input@.len() <= usize::MAX,
    {
        let n = input.unicode_len();
        let mut chars: Vec<char> = Vec::new();
        let mut i: usize = 0;
        while i < n
            invariant
                i <= n == input@.len(),
                chars@ == input@.take(i as int),
            decreases n - i,
        {
            chars.push(input.get_char(i));
            proof {
                assert(chars@ =~= input@.take(i + 1 as int));
            }
            i += 1;
        }
        proof {
            assert(chars@ =~= input@);
            assert(chars@.len() == chars.len());
        }
        InputIterator { chars, offset: 0, tokens: Vec::new() }
    }

    /// The next unconsumed character, if any, without advancing.
    pub fn peek(&self) -> (c: Option<char>)
        ensures
            self.offset < self.chars@.len() ==> c == Some(self.chars@[self.offset as int]),
            self.offset >= self.chars@.len() ==> c is None,
    {
        if self.offset < self.chars.len() {
            Some(self.chars[self.offset])
        } else {
            None
        }
    }

    /// Consumes and returns the next character; at end of input it returns
    /// `None` and leaves the cursor unchanged.
    pub fn next(&mut self) -> (c: Option<char>)
        ensures
            final(self).chars == old(self).chars,
            final(self).tokens == old(self).tokens,
            old(self).offset < old(self).chars@.len() ==> {
                &&& final(self).offset == old(self).offset + 1
                &&& c == Some(old(self).chars@[old(self).offset as int])
            },
            old(self).offset >= old(self).chars@.len() ==> {
                &&& final(self).offset == old(self).offset
                &&& c is None
            },
    {
        if self.offset < self.chars.len() {
            let c = self.chars[self.offset];
            self.offset += 1;
            Some(c)
        } else {
            None
        }
    }

    /// How many characters have been consumed so far.
    pub fn offset(&self) -> (n: usize)
        ensures
            n == self.offset,
    {
        self.offset
    }

    /// The span of the last `length` consumed characters.
    pub fn span(&self, length: usize) -> (s: Span)
        requires
            length <= self.offset,
        ensures
            s.start == self.offset - length,
            s.length == length,
    {
        Span::new(self.offset, length)
    }

    /// A token carrying the span of the last `length` consumed characters.
    pub fn stoken(&self, token: T, length: usize) -> (s: Spanned<T>)
        requires
            length <= self.offset,
        ensures
            s.item == token,
            s.span.start == self.offset - length,
            s.span.length == length,
    {
        let span = self.span(length);
        Spanned { item: token, span }
    }

    /// Consumes one character, then appends a token whose span covers the
    /// last `length` consumed characters.
    pub fn next_and_push(&mut self, token: T, length: usize)
        requires
            old(self).offset < old(self).chars@.len(),
            length <= old(self).offset + 1,
        ensures
            final(self).chars == old(self).chars,
            final(self).offset == old(self).offset + 1,
            final(self).tokens@ == old(self).tokens@.push(
                (Spanned {
                    item: token,
                    span: Span {
                        start: (old(self).offset + 1 - length) as usize,
                        length,
                    },
                }),
            ),
    {
        self.next();
        let t = self.stoken(token, length);
        self.tokens.push(t);
    }

    /// Appends a token whose span covers the last `length` consumed
    /// characters.
    pub fn push(&mut self, token: T, length: usize)
        requires
            length <= old(self).offset,
        ensures
            final(self).chars == old(self).chars,
            final(self).offset == old(self).offset,
            final(self).tokens@ == old(self).tokens@.push(
                (Spanned {
                    item: token,
                    span: Span {
                        start: (old(self).offset - length) as usize,
                        length,
                    },
                }),
            ),
    {
        let t = self.stoken(token, length);
        self.tokens.push(t);
    }

    /// A tokenization error whose span covers the last `length` consumed
    /// characters.
    pub fn tok_err(&self, message: &str, length: usize) -> (e: TokenizeError)
        requires
            length <= self.offset,
        ensures
            e.message@ == message@,
            e.span.start == self.offset - length,
            e.span.length == length,
    {
        tok_err(message, self.span(length))
    }
}

/// Whether the tokenizers treat a character as whitespace. The pipeline
/// deliberately fixes its character classes to the ASCII ones, so that
/// each class is itself fully specified here rather than delegated to a
/// library table.
pub open spec fn is_ws_char(c: char) -> bool {
    c == ' ' || c == '\t' || c == '\n' || c == '\r'
}

/// Executable counterpart of `is_ws_char`.
pub fn is_ws(c: char) -> (r: bool)
    ensures
        r == is_ws_char(c),
{
    c == ' ' || c == '\t' || c == '\n' || c == '\r'
}

/// Whether a character is a decimal digit. Like the other character
/// classes of this pipeline, deliberately the ASCII class.
pub open spec fn is_digit_char(c: char) -> bool {
    '0' as u32 <= c as u32 && c as u32 <= '9' as u32
}

/// Executable counterpart of `is_digit_char`.
pub fn is_digit(c: char) -> (r: bool)
    ensures
        r == is_digit_char(c),
{
    let u = c as u32;
    '0' as u32 <= u && u <= '9' as u32
}

/// Whether a character is a letter. Like the other character classes of
/// this pipeline, deliberately the ASCII class.
pub open spec fn is_letter_char(c: char) -> bool {
    ('a' as u32 <= c as u32 && c as u32 <= 'z' as u32) || ('A' as u32 <= c as u32 && c as u32
        <= 'Z' as u32)
}

/// Executable counterpart of `is_letter_char`.
pub fn is_letter(c: char) -> (r: bool)
    ensures
        r == is_letter_char(c),
{
    let u = c as u32;
    ('a' as u32 <= u && u <= 'z' as u32) || ('A' as u32 <= u && u <= 'Z' as u32)
}

/// `n` copies of the character `c`.
pub open spec fn char_repeat(c: char, n: nat) -> Seq<char> {
    Seq::new(n, |i: int| c)
}

/// The rendered diagnostic for an error with message `message` at `span` in
/// `input`: the message line, the echoed input, and a marker line of
/// `span.start` spaces followed by `span.length` carets underlining exactly
/// the offending range.
pub open spec fn render_error(message: Seq<char>, span: Span, input: Seq<char>) -> Seq<char> {
    "Error: "@ + message + "\n"@ + input + "\n"@ + char_repeat(' ', span.start as nat)
        + char_repeat('^', span.length as nat)
}

/// Relies on `String::push`: appends exactly one character to the string.
#[verifier::external_body]
pub(crate) fn push_char(s: &mut String, c: char)
    ensures
        final(s)@ == old(s)@.push(c),
{
    s.push(c);
}

/// Appends `n` copies of `c` to `out`.
pub(crate) fn push_repeat(out: &mut String, c: char, n: usize)
    ensures
        final(out)@ == old(out)@ + char_repeat(c, n as nat),
{
    let mut i: usize = 0;
    while i < n
        invariant
            i <= n,
            out@ == old(out)@ + char_repeat(c, i as nat),
        decreases n - i,
    {
        push_char(out, c);
        proof {
            assert(old(out)@ + char_repeat(c, i as nat).push(c) =~= old(out)@ + char_repeat(
                c,
                (i + 1) as nat,
            ));
        }
        i += 1;
    }
    proof {
        assert(out@ =~= old(out)@ + char_repeat(c, n as nat));
    }
}

/// The decimal digit character for `d`.
pub open spec fn spec_digit(d: int) -> char {
    if d == 0 {
        '0'
    } else if d == 1 {
        '1'
    } else if d == 2 {
        '2'
    } else if d == 3 {
        '3'
    } else if d == 4 {
        '4'
    } else if d == 5 {
        '5'
    } else if d == 6 {
        '6'
    } else if d == 7 {
        '7'
    } else if d == 8 {
        '8'
    } else {
        '9'
    }
}

/// The decimal spelling of `n`, without leading zeros.
pub open spec fn dec_str(n: nat) -> Seq<char>
    decreases n,
{
    if n < 10 {
        seq![spec_digit(n as int)]
    } else {
        dec_str(n / 10).push(spec_digit((n % 10) as int))
    }
}

/// The decimal digit character for `d`.
fn digit_char(d: usize) -> (c: char)
    requires
        d < 10,
    ensures
        c == spec_digit(d as int),
{
    match d {
        0 => '0',
        1 => '1',
        2 => '2',
        3 => '3',
        4 => '4',
        5 => '5',
        6 => '6',
        7 => '7',
        8 => '8',
        _ => '9',
    }
}

/// The decimal spelling of `n`.
pub fn usize_to_string(n: usize) -> (r: String)
    ensures
        r@ == dec_str(n as nat),
    decreases n,
{
    if n < 10 {
        let mut s = String::new();
        push_char(&mut s, digit_char(n));
        proof {
            assert(s@ =~= dec_str(n as nat));
        }
        s
    } else {
        let mut s = usize_to_string(n / 10);
        push_char(&mut s, digit_char(n % 10));
        s
    }
}

/// The decimal spelling of `n`.
pub fn u64_to_string(n: u64) -> (r: String)
    ensures
        r@ == dec_str(n as nat),
    decreases n,
{
    if n < 10 {
        let mut s = String::new();
        push_char(&mut s, digit_char((n % 10) as usize));
        proof {
            assert(s@ =~= dec_str(n as nat));
        }
        s
    } else {
        let mut s = u64_to_string(n / 10);
        push_char(&mut s, digit_char((n % 10) as usize));
        s
    }
}

/// The decimal spelling of an integer, with a leading minus sign when
/// negative.
pub open spec fn int_str(v: int) -> Seq<char> {
    if v < 0 {
        "-"@ + dec_str((-v) as nat)
    } else {
        dec_str(v as nat)
    }
}

/// The decimal spelling of `n`.
pub fn i64_to_string(n: i64) -> (r: String)
    ensures
        r@ == int_str(n as int),
{
    if n >= 0 {
        let m: u64 = n as u64;
        u64_to_string(m)
    } else {
        let m: u64 = (-(n as i128)) as u64;
        let mut out = String::new();
        out.append("-");
        let ds = u64_to_string(m);
        out.append(ds.as_str());
        proof {
            assert(out@ =~= int_str(n as int));
        }
        out
    }
}

/// Whether two string slices hold the same characters.
pub fn str_eq(a: &str, b: &str) -> (r: bool)
    ensures
        r == (a@ == b@),
{
    let na = a.unicode_len();
    let nb = b.unicode_len();
    if na != nb {
        return false;
    }
    let mut i: usize = 0;
    while i < na
        invariant
            i <= na,
            na == a@.len() == b@.len(),
            forall|j: int| 0 <= j < i ==> a@[j] == b@[j],
        decreases na - i,
    {
        if a.get_char(i) != b.get_char(i) {
            return false;
        }
        i += 1;
    }
    proof {
        assert(a@ =~= b@);
    }
    true
}

/// Renders a tokenization error against the input it arose from, underlining
/// the offending character range.
pub fn tokenize_error_to_string(err: TokenizeError, input: &str) -> (out: String)
    requires
        span_end(err.span) <= input@.len(),
    ensures
        out@ == render_error(err.message@, err.span, input@),
{
    render_span_error(&err.message, err.span, input)
}

/// Renders a parse error against the input it arose from, underlining the
/// offending character range.
pub fn parse_error_to_string(err: ParseError, input: &str) -> (out: String)
    requires
        span_end(err.span) <= input@.len(),
    ensures
        out@ == render_error(err.message@, err.span, input@),
{
    render_span_error(&err.message, err.span, input)
}

/// Shared body of the two diagnostic renderers.
fn render_span_error(message: &String, span: Span, input: &str) -> (out: String)
    requires
        span_end(span) <= input@.len(),
    ensures
        out@ == render_error(message@, span, input@),
{
    let mut out = String::new();
    out.append("Error: ");
    out.append(message.as_str());
    push_char(&mut out, '\n');
    out.append(input);
    push_char(&mut out, '\n');
    push_repeat(&mut out, ' ', span.start);
    push_repeat(&mut out, '^', span.length);
    proof {
        reveal_strlit("\n");
        assert(out@ =~= render_error(message@, span, input@));
    }
    out
}

} // verus!
