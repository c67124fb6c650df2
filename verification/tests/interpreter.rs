use bunlang::eval::eval;
use bunlang::expr::{EvalError, Expr, ParseError};
use bunlang::parser::parse;
use bunlang::table::InternTable;
use bunlang::tokenizer::tokenize;

fn eval_line(line: &str) -> Result<Expr, EvalError> {
    let mut table = InternTable::new();
    let tokens = tokenize(line, &mut table);
    let exprs = parse(tokens, &table).expect("line should parse");
    assert_eq!(exprs.len(), 1);
    eval(&exprs[0], &table)
}

#[test]
fn intern_is_idempotent() {
    let mut table = InternTable::new();
    let h1 = table.intern("hello-world");
    let h2 = table.intern("hello-world");
    assert_eq!(h1, h2);
    assert_eq!(table.resolve(h1), "hello-world");
}

#[test]
fn intern_distinguishes_texts() {
    let mut table = InternTable::new();
    assert_eq!(table.len(), 9);
    let h1 = table.intern("foo");
    let h2 = table.intern("bar");
    assert_ne!(h1, h2);
    assert_eq!(table.resolve(h1), "foo");
    assert_eq!(table.resolve(h2), "bar");
    assert_eq!(table.len(), 11);
    table.intern("foo");
    assert_eq!(table.len(), 11);
}

#[test]
fn tokenize_simple_form() {
    let mut table = InternTable::new();
    let tokens = tokenize("(+ 1 2)", &mut table);
    let texts: Vec<String> = tokens.iter().map(|&t| table.resolve(t)).collect();
    assert_eq!(texts, vec!["(", "+", "1", "2", ")"]);
}

#[test]
fn tokenize_needs_no_spaces_around_parens() {
    let mut table = InternTable::new();
    let tokens = tokenize("a(b", &mut table);
    let texts: Vec<String> = tokens.iter().map(|&t| table.resolve(t)).collect();
    assert_eq!(texts, vec!["a", "(", "b"]);
}

#[test]
fn tokenize_blank_line_is_empty() {
    let mut table = InternTable::new();
    assert_eq!(tokenize("", &mut table).len(), 0);
    assert_eq!(tokenize(" \t \r\n", &mut table).len(), 0);
}

#[test]
fn parse_simple_form() {
    let mut table = InternTable::new();
    let tokens = tokenize("(+ 1 2)", &mut table);
    let exprs = parse(tokens, &table).expect("should parse");
    assert_eq!(exprs.len(), 1);
    let expected = Expr::List(vec![
        Expr::Symbol(table.add_symbol),
        Expr::Number(1),
        Expr::Number(2),
    ]);
    assert_eq!(exprs[0], expected);
}

#[test]
fn parse_unmatched_closer() {
    let mut table = InternTable::new();
    let tokens = tokenize(")", &mut table);
    let errs = parse(tokens, &table).expect_err("should fail");
    assert_eq!(errs, vec![ParseError::UnmatchedCloser]);
}

#[test]
fn parse_unmatched_openers() {
    let mut table = InternTable::new();
    let tokens = tokenize("((", &mut table);
    let errs = parse(tokens, &table).expect_err("should fail");
    assert_eq!(errs, vec![ParseError::UnmatchedOpeners { depth: 2 }]);
}

#[test]
fn parse_recovers_after_stray_closer() {
    let mut table = InternTable::new();
    let tokens = tokenize(") 1 )", &mut table);
    let errs = parse(tokens, &table).expect_err("should fail");
    assert_eq!(
        errs,
        vec![ParseError::UnmatchedCloser, ParseError::UnmatchedCloser]
    );
}

#[test]
fn parse_collects_both_error_kinds_in_order() {
    let mut table = InternTable::new();
    let tokens = tokenize(") (", &mut table);
    let errs = parse(tokens, &table).expect_err("should fail");
    assert_eq!(
        errs,
        vec![
            ParseError::UnmatchedCloser,
            ParseError::UnmatchedOpeners { depth: 1 }
        ]
    );
}

#[test]
fn eval_addition() {
    assert_eq!(eval_line("(+ 1 2)"), Ok(Expr::Number(3)));
}

#[test]
fn eval_negation() {
    assert_eq!(eval_line("(- 5)"), Ok(Expr::Number(-5)));
}

#[test]
fn eval_subtraction_folds_left() {
    assert_eq!(eval_line("(- 10 3 2)"), Ok(Expr::Number(5)));
}

#[test]
fn eval_empty_product_is_one() {
    assert_eq!(eval_line("(* )"), Ok(Expr::Number(1)));
}

#[test]
fn eval_empty_sum_is_zero() {
    assert_eq!(eval_line("(+)"), Ok(Expr::Number(0)));
}

#[test]
fn eval_division_truncates() {
    assert_eq!(eval_line("(/ 7 2)"), Ok(Expr::Number(3)));
    assert_eq!(eval_line("(/ -7 2)"), Ok(Expr::Number(-3)));
}

#[test]
fn eval_divide_by_zero() {
    assert_eq!(eval_line("(/ 7 0)"), Err(EvalError::DivideByZero));
}

#[test]
fn eval_if_true_branch() {
    assert_eq!(eval_line("(if #t 1 2)"), Ok(Expr::Number(1)));
}

#[test]
fn eval_if_false_branch() {
    assert_eq!(eval_line("(if #f 1 2)"), Ok(Expr::Number(2)));
}

#[test]
fn eval_if_non_boolean_condition() {
    assert_eq!(eval_line("(if 1 1 2)"), Err(EvalError::NonBooleanCondition));
}

#[test]
fn eval_if_skips_unselected_branch() {
    assert_eq!(eval_line("(if #t 1 (/ 1 0))"), Ok(Expr::Number(1)));
}

#[test]
fn eval_if_wrong_arity() {
    assert_eq!(eval_line("(if #t 1)"), Err(EvalError::ArityError));
}

#[test]
fn eval_nested_arithmetic() {
    assert_eq!(eval_line("(+ (+ 1 2) 3)"), Ok(Expr::Number(6)));
}

#[test]
fn eval_empty_call() {
    assert_eq!(eval_line("()"), Err(EvalError::EmptyCall));
}

#[test]
fn eval_non_symbol_head() {
    assert_eq!(eval_line("(1 2)"), Err(EvalError::NonSymbolHead));
}

#[test]
fn eval_unknown_operator() {
    assert_eq!(eval_line("(frobnicate 1)"), Err(EvalError::UnknownOperator));
}

#[test]
fn eval_subtraction_without_arguments() {
    assert_eq!(eval_line("(-)"), Err(EvalError::ArityError));
}

#[test]
fn eval_division_without_arguments() {
    assert_eq!(eval_line("(/)"), Err(EvalError::EmptyCall));
}

#[test]
fn eval_type_mismatch() {
    assert_eq!(eval_line("(+ 1 #t)"), Err(EvalError::TypeMismatch));
}

#[test]
fn eval_atoms_are_self_evaluating() {
    assert_eq!(eval_line("7"), Ok(Expr::Number(7)));
    assert_eq!(eval_line("#t"), Ok(Expr::Bool(true)));
    let mut table = InternTable::new();
    let tokens = tokenize("pear", &mut table);
    let exprs = parse(tokens, &table).expect("should parse");
    let h = table.intern("pear");
    assert_eq!(eval(&exprs[0], &table), Ok(Expr::Symbol(h)));
}

#[test]
fn eval_addition_wraps() {
    assert_eq!(
        eval_line("(+ 9223372036854775807 1)"),
        Ok(Expr::Number(i64::MIN))
    );
}

#[test]
fn eval_division_overflow_wraps() {
    assert_eq!(
        eval_line("(/ -9223372036854775808 -1)"),
        Ok(Expr::Number(i64::MIN))
    );
}

#[test]
fn eval_sibling_expressions_are_independent() {
    let mut table = InternTable::new();
    let tokens = tokenize("(/ 1 0) (+ 1 1)", &mut table);
    let exprs = parse(tokens, &table).expect("should parse");
    assert_eq!(exprs.len(), 2);
    assert_eq!(eval(&exprs[0], &table), Err(EvalError::DivideByZero));
    assert_eq!(eval(&exprs[1], &table), Ok(Expr::Number(2)));
}
