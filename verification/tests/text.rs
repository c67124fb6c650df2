use bunlang::expr::Expr;
use bunlang::number::{parse_i64, render_i64, render_u64};
use bunlang::parser::parse;
use bunlang::render::{format_value, render};
use bunlang::repl::run_line;
use bunlang::table::InternTable;
use bunlang::tokenizer::tokenize;

#[test]
fn parse_i64_reads_plain_numbers() {
    assert_eq!(parse_i64("0"), Some(0));
    assert_eq!(parse_i64("42"), Some(42));
    assert_eq!(parse_i64("-17"), Some(-17));
    assert_eq!(parse_i64("+42"), Some(42));
    assert_eq!(parse_i64("007"), Some(7));
}

#[test]
fn parse_i64_handles_the_limits() {
    assert_eq!(parse_i64("9223372036854775807"), Some(i64::MAX));
    assert_eq!(parse_i64("-9223372036854775808"), Some(i64::MIN));
    assert_eq!(parse_i64("9223372036854775808"), None);
    assert_eq!(parse_i64("-9223372036854775809"), None);
    assert_eq!(parse_i64("99999999999999999999999999"), None);
}

#[test]
fn parse_i64_rejects_non_numbers() {
    assert_eq!(parse_i64(""), None);
    assert_eq!(parse_i64("-"), None);
    assert_eq!(parse_i64("+"), None);
    assert_eq!(parse_i64("12a"), None);
    assert_eq!(parse_i64("a12"), None);
    assert_eq!(parse_i64("1 2"), None);
    assert_eq!(parse_i64("--5"), None);
}

#[test]
fn render_numbers_in_decimal() {
    assert_eq!(render_i64(0), "0");
    assert_eq!(render_i64(-7), "-7");
    assert_eq!(render_i64(1234567890), "1234567890");
    assert_eq!(render_i64(i64::MIN), "-9223372036854775808");
    assert_eq!(render_i64(i64::MAX), "9223372036854775807");
    assert_eq!(render_u64(0), "0");
    assert_eq!(render_u64(10), "10");
}

#[test]
fn render_canonical_form() {
    let mut table = InternTable::new();
    let tokens = tokenize("( if #t (+ 1  2) x )", &mut table);
    let exprs = parse(tokens, &table).expect("should parse");
    assert_eq!(render(&exprs[0], &table), "(if #t (+ 1 2) x)");
}

#[test]
fn round_trip_reproduces_the_tree() {
    let mut table = InternTable::new();
    let tokens = tokenize("(if #t (pear -5 ()) #f)", &mut table);
    let exprs = parse(tokens, &table).expect("should parse");
    let text = render(&exprs[0], &table);
    let tokens2 = tokenize(&text, &mut table);
    let exprs2 = parse(tokens2, &table).expect("rendered text should parse");
    assert_eq!(exprs2.len(), 1);
    assert_eq!(exprs, exprs2);
}

#[test]
fn round_trip_of_a_bare_atom() {
    let mut table = InternTable::new();
    let tokens = tokenize("-9223372036854775808", &mut table);
    let exprs = parse(tokens, &table).expect("should parse");
    let text = render(&exprs[0], &table);
    assert_eq!(text, "-9223372036854775808");
    let tokens2 = tokenize(&text, &mut table);
    let exprs2 = parse(tokens2, &table).expect("rendered text should parse");
    assert_eq!(exprs, exprs2);
}

#[test]
fn format_results_for_the_caller() {
    let mut table = InternTable::new();
    let h = table.intern("pear");
    assert_eq!(format_value(&Expr::Number(-3), &table), "-3");
    assert_eq!(format_value(&Expr::Bool(true), &table), "true");
    assert_eq!(format_value(&Expr::Bool(false), &table), "false");
    assert_eq!(format_value(&Expr::Symbol(h), &table), "#:pear");
    let list = Expr::List(vec![Expr::Number(1), Expr::Bool(false)]);
    assert_eq!(format_value(&list, &table), "(1 #f)");
}

#[test]
fn run_line_evaluates_each_expression() {
    let mut table = InternTable::new();
    assert_eq!(run_line("(+ 1 2)", &mut table), vec!["3"]);
    assert_eq!(run_line("1 2 #t", &mut table), vec!["1", "2", "true"]);
    assert_eq!(run_line("pear", &mut table), vec!["#:pear"]);
}

#[test]
fn run_line_reports_parse_errors() {
    let mut table = InternTable::new();
    assert_eq!(run_line(")", &mut table), vec!["Unmatched closing delimiter"]);
    assert_eq!(
        run_line("((", &mut table),
        vec!["2 unmatched opening delimiter"]
    );
}

#[test]
fn run_line_reports_evaluation_errors() {
    let mut table = InternTable::new();
    assert_eq!(
        run_line("(/ 1 0)", &mut table),
        vec!["ERROR: Divide by zero!"]
    );
    assert_eq!(
        run_line("(if 1 2 3)", &mut table),
        vec!["ERROR: Non boolean condition to if statement"]
    );
    assert_eq!(run_line("(pear)", &mut table), vec!["ERROR: Unknown op"]);
}

#[test]
fn run_line_keeps_sibling_results_independent() {
    let mut table = InternTable::new();
    assert_eq!(
        run_line("(/ 1 0) (+ 1 1)", &mut table),
        vec!["ERROR: Divide by zero!", "2"]
    );
}

#[test]
fn run_line_on_a_blank_line_says_nothing() {
    let mut table = InternTable::new();
    assert_eq!(run_line("", &mut table).len(), 0);
    assert_eq!(run_line("   ", &mut table).len(), 0);
}
