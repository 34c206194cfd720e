use lambda_repl::lisp::tokenizer::Token;
use lambda_repl::lisp::tokenizer::tokenize;
use lambda_repl::parsing_utils::strip_spans;

fn s(string: &str) -> String {
    string.to_string()
}

#[test]
fn test_tokenize() {
    let cases = vec![
        (
            "(\'`,+-*/=<>)",
            vec![
                Token::OpenParen,
                Token::Quote,
                Token::Backquote,
                Token::Comma,
                Token::Plus,
                Token::Minus,
                Token::Multiply,
                Token::Divide,
                Token::Equal,
                Token::LessThan,
                Token::GreaterThan,
                Token::CloseParen,
            ],
        ),
        (
            "(#t #f #n)",
            vec![
                Token::OpenParen,
                Token::True,
                Token::Whitespace(s(" ")),
                Token::False,
                Token::Whitespace(s(" ")),
                Token::Nil,
                Token::CloseParen,
            ],
        ),
        (
            "\"hello world\" \"rock\" \"paper\"",
            vec![
                Token::String(s("hello world")),
                Token::Whitespace(s(" ")),
                Token::String(s("rock")),
                Token::Whitespace(s(" ")),
                Token::String(s("paper")),
            ],
        ),
        (
            "123,456,4,789456123",
            vec![
                Token::Number(123),
                Token::Comma,
                Token::Number(456),
                Token::Comma,
                Token::Number(4),
                Token::Comma,
                Token::Number(789456123),
            ],
        ),
        (
            "hello world",
            vec![
                Token::Symbol(s("hello")),
                Token::Whitespace(s(" ")),
                Token::Symbol(s("world")),
            ],
        ),
    ];

    for case in cases {
        let (input, expected) = case;
        let tokens = tokenize(input).unwrap();
        assert_eq!(strip_spans(tokens), expected);
    }
}

#[test]
fn invalid_character_has_one_char_span_at_its_offset() {
    let err = tokenize("ab @ cd").unwrap_err();
    assert_eq!(err.message, "Invalid character: @");
    assert_eq!(err.span.start, 3);
    assert_eq!(err.span.length, 1);
}

#[test]
fn unterminated_string_spans_from_the_opening_quote() {
    let err = tokenize("ab \"oops").unwrap_err();
    assert_eq!(err.message, "Unterminated string");
    assert_eq!(err.span.start, 3);
    assert_eq!(err.span.length, 5);
}

#[test]
fn invalid_number_when_a_letter_follows_the_digits() {
    let err = tokenize("12a").unwrap_err();
    assert_eq!(err.message, "Invalid number");
    assert_eq!(err.span.start, 1);
    assert_eq!(err.span.length, 1);
}

#[test]
fn number_too_large_for_the_token_is_rejected() {
    let err = tokenize("99999999999999999999").unwrap_err();
    assert_eq!(err.message, "Invalid number");
    assert_eq!(err.span.start, 0);
    assert_eq!(err.span.length, 20);
}

#[test]
fn constants_need_a_known_letter_after_the_hash() {
    let err = tokenize("#x").unwrap_err();
    assert_eq!(err.message, "Invalid character after #: #x");
    assert_eq!(err.span.start, 0);
    assert_eq!(err.span.length, 2);
}

#[test]
fn comments_run_to_the_end_of_the_line() {
    let tokens = tokenize("a ;rest\nb").unwrap();
    let items = strip_spans(tokens);
    assert_eq!(
        items,
        vec![
            Token::Symbol(s("a")),
            Token::Whitespace(s(" ")),
            Token::Comment(s(";rest")),
            Token::Whitespace(s("\n")),
            Token::Symbol(s("b")),
        ]
    );
}

#[test]
fn every_token_span_reproduces_its_source_text() {
    let input = "(#t 12 \"hi\" sym ;end";
    let tokens = tokenize(input).unwrap();
    let chars: Vec<char> = input.chars().collect();
    for t in &tokens {
        let text: String = chars[t.span.start..t.span.start + t.span.length]
            .iter()
            .collect();
        match &t.item {
            Token::OpenParen => assert_eq!(text, "("),
            Token::True => assert_eq!(text, "#t"),
            Token::Number(n) => assert_eq!(text.parse::<i64>().unwrap(), *n),
            Token::String(x) => assert_eq!(text, format!("\"{}\"", x)),
            Token::Symbol(x) => assert_eq!(&text, x),
            Token::Whitespace(x) => assert_eq!(&text, x),
            Token::Comment(x) => assert_eq!(&text, x),
            other => panic!("unexpected token {:?}", other),
        }
    }
}

#[test]
fn hash_at_the_end_of_input_is_rejected() {
    let err = tokenize("ab #").unwrap_err();
    assert_eq!(err.message, "Unexpected end of input");
    assert_eq!(err.span.start, 3);
    assert_eq!(err.span.length, 1);
}
