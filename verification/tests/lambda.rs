use lambda_repl::untyped_lambda_calculus::Token;
use lambda_repl::untyped_lambda_calculus::UntypedLambdaCalculus;
use lambda_repl::untyped_lambda_calculus::parse;
use lambda_repl::untyped_lambda_calculus::term_to_string;
use lambda_repl::untyped_lambda_calculus::tokenize;
use lambda_repl::parsing_utils::strip_spans;

#[test]
fn lambda_whitespace_runs_are_kept_as_tokens() {
    let tokens = tokenize("a  b").unwrap();
    assert_eq!(
        strip_spans(tokens),
        vec![
            Token::Identifier("a".to_string()),
            Token::Whitespace("  ".to_string()),
            Token::Identifier("b".to_string()),
        ]
    );
}

#[test]
fn lambda_tokens_cover_both_spellings_of_the_glyph() {
    let tokens = tokenize("λx.x").unwrap();
    assert_eq!(
        strip_spans(tokens),
        vec![
            Token::Lambda,
            Token::Identifier("x".to_string()),
            Token::Dot,
            Token::Identifier("x".to_string()),
        ]
    );
    let tokens = tokenize("\\x.x").unwrap();
    assert_eq!(
        strip_spans(tokens),
        vec![
            Token::Lambda,
            Token::Identifier("x".to_string()),
            Token::Dot,
            Token::Identifier("x".to_string()),
        ]
    );
}

#[test]
fn lambda_token_spans_reproduce_their_source_text() {
    let input = "λab.(ab cd)";
    let tokens = tokenize(input).unwrap();
    let chars: Vec<char> = input.chars().collect();
    for t in &tokens {
        let text: String = chars[t.span.start..t.span.start + t.span.length]
            .iter()
            .collect();
        match &t.item {
            Token::Lambda => assert!(text == "λ" || text == "\\"),
            Token::Dot => assert_eq!(text, "."),
            Token::LParen => assert_eq!(text, "("),
            Token::RParen => assert_eq!(text, ")"),
            Token::Identifier(x) => assert_eq!(&text, x),
            Token::Whitespace(x) => assert_eq!(&text, x),
        }
    }
}

#[test]
fn unsupported_characters_fail_with_a_one_char_span() {
    let err = tokenize("ab @").unwrap_err();
    assert_eq!(err.message, "Unexpected character");
    assert_eq!(err.span.start, 3);
    assert_eq!(err.span.length, 1);
}

#[test]
fn application_is_left_associative() {
    let tokens = tokenize("x y z").unwrap();
    let term = parse(&tokens).unwrap();
    assert_eq!(term_to_string(&term), "((x y) z)");
}

#[test]
fn parenthesized_groups_are_atoms() {
    let tokens = tokenize("x (y z)").unwrap();
    let term = parse(&tokens).unwrap();
    assert_eq!(term_to_string(&term), "(x (y z))");
}

#[test]
fn abstractions_bind_as_the_rightmost_atom() {
    let tokens = tokenize("x λy.y z").unwrap();
    let term = parse(&tokens).unwrap();
    assert_eq!(term_to_string(&term), "(x λy.(y z))");
}

#[test]
fn missing_dot_is_reported_with_both_tokens() {
    let tokens = tokenize("λx x").unwrap();
    let err = parse(&tokens).unwrap_err();
    assert_eq!(err.message, "Unexpected token 'x', expected '.'");
}

#[test]
fn lambda_run_reports_tokens_and_the_parsed_term() {
    let out = UntypedLambdaCalculus.run("x y");
    assert_eq!(
        out,
        "input: x y\ntokens: [Identifier(\"x\"), Whitespace(\" \"), Identifier(\"y\"), ]\nparsed: (x y)\n"
    );
}

#[test]
fn lambda_run_underlines_a_bad_character() {
    let out = UntypedLambdaCalculus.run("x ?");
    assert_eq!(
        out,
        "input: x ?\nError: Unexpected character\nx ?\n  ^"
    );
}

#[test]
fn an_abstraction_needs_a_bound_identifier() {
    let tokens = tokenize("λ.x").unwrap();
    let err = parse(&tokens).unwrap_err();
    assert_eq!(err.message, "Expected identifier");
    assert_eq!(err.span.start, 1);
    assert_eq!(err.span.length, 1);
}

#[test]
fn a_term_cannot_start_with_a_dot() {
    let tokens = tokenize(". x").unwrap();
    let err = parse(&tokens).unwrap_err();
    assert_eq!(err.message, "Unexpected token");
    assert_eq!(err.span.start, 0);
    assert_eq!(err.span.length, 1);
}
