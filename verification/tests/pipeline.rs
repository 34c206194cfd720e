use lambda_repl::evaluator::Language;
use lambda_repl::evaluator::available_evaluators;
use lambda_repl::evaluator::pick;
use lambda_repl::lisp::Lisp;
use lambda_repl::lisp::ast::Expr;
use lambda_repl::lisp::parser::parse;
use lambda_repl::lisp::tokenizer::tokenize;
use lambda_repl::parsing_utils::Span;
use lambda_repl::parsing_utils::TokenizeError;
use lambda_repl::parsing_utils::tokenize_error_to_string;

#[test]
fn the_menu_offers_three_evaluators_in_order() {
    let evaluators = available_evaluators();
    let names: Vec<String> = evaluators.iter().map(|e| e.name()).collect();
    assert_eq!(
        names,
        vec![
            "Untyped Arithmetic".to_string(),
            "Untyped Lambda Calculus".to_string(),
            "Lisp".to_string(),
        ]
    );
}

#[test]
fn pick_accepts_only_the_menu_indexes() {
    assert_eq!(pick(1).unwrap().name(), "Untyped Arithmetic");
    assert_eq!(pick(2).unwrap().name(), "Untyped Lambda Calculus");
    assert_eq!(pick(3).unwrap().name(), "Lisp");
    assert_eq!(pick(0).unwrap_err(), "Invalid evaluator index");
    assert_eq!(pick(4).unwrap_err(), "Invalid evaluator index");
}

#[test]
fn the_language_choice_dispatches_to_its_pipeline() {
    let out = pick(1).unwrap().run("0");
    assert_eq!(
        out,
        "input: 0\ntokens: [Word(\"0\"), ]\nZero\nconsts: {\"0\"}\nsize: 1\ndepth: 1\nevaluation result: Zero\n"
    );
    let out = Language::Lisp(Lisp).run("9");
    assert_eq!(
        out,
        "input: 9\ntokens: [\n\tNumber(9), \n]\nparsed: Number(9)\n"
    );
}

#[test]
fn span_new_counts_back_from_the_cursor() {
    let span = Span::new(5, 2);
    assert_eq!(span.start, 3);
    assert_eq!(span.length, 2);
}

#[test]
fn span_merge_covers_every_input_span() {
    let spans = vec![
        Span { start: 4, length: 2 },
        Span { start: 1, length: 2 },
        Span { start: 5, length: 3 },
    ];
    let merged = Span::merge(&spans);
    assert_eq!(merged.start, 1);
    assert_eq!(merged.length, 7);
}

#[test]
fn the_caret_line_matches_the_span_exactly() {
    let err = TokenizeError {
        message: "Invalid character: @".to_string(),
        span: Span { start: 3, length: 1 },
    };
    let out = tokenize_error_to_string(err, "ab @ cd");
    assert_eq!(out, "Error: Invalid character: @\nab @ cd\n   ^");
    let lines: Vec<&str> = out.split('\n').collect();
    let marker = lines[2];
    assert_eq!(marker.chars().take_while(|c| *c == ' ').count(), 3);
    assert_eq!(marker.chars().filter(|c| *c == '^').count(), 1);
}

#[test]
fn lisp_lists_parse_with_spans_covering_the_parentheses() {
    let tokens = tokenize("(a (b 2))").unwrap();
    let expr = parse(&tokens).unwrap();
    assert_eq!(expr.span.start, 0);
    assert_eq!(expr.span.length, 9);
    match &expr.item {
        Expr::List(items) => {
            assert_eq!(items.len(), 2);
            assert_eq!(items[1].span.start, 3);
            assert_eq!(items[1].span.length, 5);
            match &items[0].item {
                Expr::Symbol(name) => assert_eq!(name, "a"),
                other => panic!("expected a symbol, got {:?}", other),
            }
        },
        other => panic!("expected a list, got {:?}", other),
    }
}

#[test]
fn lisp_reports_the_unexpected_token_with_its_span() {
    let tokens = tokenize(")").unwrap();
    let err = parse(&tokens).unwrap_err();
    assert_eq!(err.message, "Unexpected token: CloseParen");
    assert_eq!(err.span.start, 0);
    assert_eq!(err.span.length, 1);

    let tokens = tokenize("(a").unwrap();
    let err = parse(&tokens).unwrap_err();
    assert_eq!(err.message, "Unexpected end of input");
    assert_eq!(err.span, Span { start: 0, length: 0 });
}

#[test]
fn lisp_run_skips_whitespace_and_comments_while_parsing() {
    let out = Lisp.run("( a ) ;done");
    assert!(out.ends_with("parsed: List([Symbol(\"a\")])\n"), "{}", out);
}
