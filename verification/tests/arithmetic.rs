use lambda_repl::parsing_utils::Span;
use lambda_repl::untyped_arithmetic::Term;
use lambda_repl::untyped_arithmetic::Token;
use lambda_repl::untyped_arithmetic::UntypedArithmetic;
use lambda_repl::untyped_arithmetic::consts;
use lambda_repl::untyped_arithmetic::depth;
use lambda_repl::untyped_arithmetic::eval;
use lambda_repl::untyped_arithmetic::if_;
use lambda_repl::untyped_arithmetic::isnumericval;
use lambda_repl::untyped_arithmetic::isval;
use lambda_repl::untyped_arithmetic::iszero;
use lambda_repl::untyped_arithmetic::parser;
use lambda_repl::untyped_arithmetic::pred;
use lambda_repl::untyped_arithmetic::size;
use lambda_repl::untyped_arithmetic::succ;
use lambda_repl::untyped_arithmetic::tokenize;

fn pipeline(input: &str) -> Result<Term, String> {
    let tokens = tokenize(input);
    let (term, _) = parser(&tokens, 0).map_err(|e| e.message)?;
    eval(&term).map_err(|e| e.message)
}

#[test]
fn bare_constants_evaluate_to_themselves() {
    for input in ["true", "false", "0"] {
        let tokens = tokenize(input);
        let (term, next) = parser(&tokens, 0).unwrap();
        assert_eq!(next, 1);
        assert!(isval(&term));
        let value = eval(&term).unwrap();
        assert_eq!(value, term);
        let again = eval(&value).unwrap();
        assert_eq!(again, value);
    }
}

#[test]
fn nested_succ_has_matching_size_and_depth() {
    let n = 7;
    let mut input = String::new();
    for _ in 0..n {
        input.push_str("succ ");
    }
    input.push('0');
    let tokens = tokenize(&input);
    let (term, _) = parser(&tokens, 0).unwrap();
    assert!(isnumericval(&term));
    assert_eq!(size(&term), n + 1);
    assert_eq!(depth(&term), n + 1);
    let value = eval(&term).unwrap();
    assert_eq!(value, term);
}

#[test]
fn iszero_and_pred_follow_the_small_step_rules() {
    assert_eq!(pipeline("iszero pred succ 0").unwrap(), Term::True);
    assert_eq!(pipeline("iszero succ 0").unwrap(), Term::False);
    assert_eq!(pipeline("pred 0").unwrap(), Term::Zero);
}

#[test]
fn conditionals_pick_the_matching_branch() {
    assert_eq!(pipeline("if true then 0 else succ 0").unwrap(), Term::Zero);
    let expected = succ(Term::Zero);
    assert_eq!(pipeline("if false then 0 else succ 0").unwrap(), expected);
}

#[test]
fn ill_typed_terms_get_stuck_instead_of_looping() {
    let tokens = tokenize("succ true");
    let (term, _) = parser(&tokens, 0).unwrap();
    let err = eval(&term).unwrap_err();
    assert_eq!(err.message, "No rule applies");
    assert_eq!(err.term, succ(Term::True));
}

#[test]
fn missing_else_clause_is_an_unexpected_end_of_input() {
    let tokens = tokenize("if true then 0");
    let err = parser(&tokens, 0).unwrap_err();
    assert_eq!(err.message, "Unexpected end of input");
    assert_eq!(err.span, Span { start: 0, length: 0 });
}

#[test]
fn wrong_keyword_is_reported_at_its_source_span() {
    let tokens = tokenize("if true 0 else 0");
    let err = parser(&tokens, 0).unwrap_err();
    assert_eq!(err.message, "Expected 'then'");
    assert_eq!(err.span, Span { start: 8, length: 1 });

    let tokens = tokenize("banana");
    let err = parser(&tokens, 0).unwrap_err();
    assert_eq!(err.message, "Unexpected token");
    assert_eq!(err.span, Span { start: 0, length: 6 });
}

#[test]
fn arithmetic_tokens_carry_spans_and_keep_whitespace() {
    let tokens = tokenize("if  x");
    assert_eq!(tokens.len(), 3);
    assert_eq!(tokens[0].item, Token::Word("if".to_string()));
    assert_eq!(tokens[0].span, Span { start: 0, length: 2 });
    assert_eq!(tokens[1].item, Token::Whitespace("  ".to_string()));
    assert_eq!(tokens[1].span, Span { start: 2, length: 2 });
    assert_eq!(tokens[2].item, Token::Word("x".to_string()));
    assert_eq!(tokens[2].span, Span { start: 4, length: 1 });
}

#[test]
fn constants_are_collected_without_duplicates() {
    let tokens = tokenize("if true then 0 else succ 0");
    let (term, _) = parser(&tokens, 0).unwrap();
    let cs = consts(&term);
    assert_eq!(cs, vec!["true".to_string(), "0".to_string()]);
}

#[test]
fn conditional_guards_step_before_their_branches() {
    let guard = iszero(Term::Zero);
    let term = if_(guard, Term::Zero, succ(Term::Zero));
    assert_eq!(eval(&term).unwrap(), Term::Zero);

    let inner = pred(succ(Term::Zero));
    assert_eq!(eval(&iszero(inner)).unwrap(), Term::True);
}

#[test]
fn run_reports_the_term_its_measures_and_the_result() {
    let out = UntypedArithmetic.run("succ 0");
    assert_eq!(
        out,
        "input: succ 0\ntokens: [Word(\"succ\"), Whitespace(\" \"), Word(\"0\"), ]\nSucc(Zero)\nconsts: {\"0\"}\nsize: 2\ndepth: 2\nevaluation result: Succ(Zero)\n"
    );
}

#[test]
fn run_renders_parse_errors_against_the_source() {
    let out = UntypedArithmetic.run("if true then 0");
    assert_eq!(
        out,
        "input: if true then 0\ntokens: [Word(\"if\"), Whitespace(\" \"), Word(\"true\"), Whitespace(\" \"), Word(\"then\"), Whitespace(\" \"), Word(\"0\"), ]\nError: Unexpected end of input\nif true then 0\n"
    );
}

#[test]
fn run_underlines_the_offending_token() {
    let out = UntypedArithmetic.run("if true 0 else 0");
    assert_eq!(
        out,
        "input: if true 0 else 0\ntokens: [Word(\"if\"), Whitespace(\" \"), Word(\"true\"), Whitespace(\" \"), Word(\"0\"), Whitespace(\" \"), Word(\"else\"), Whitespace(\" \"), Word(\"0\"), ]\nError: Expected 'then'\nif true 0 else 0\n        ^"
    );
}

#[test]
fn run_reports_stuck_terms() {
    let out = UntypedArithmetic.run("succ true");
    assert_eq!(
        out,
        "input: succ true\ntokens: [Word(\"succ\"), Whitespace(\" \"), Word(\"true\"), ]\nSucc(True)\nconsts: {\"true\"}\nsize: 2\ndepth: 2\nError: No rule applies\nSucc(True)\n"
    );
}
