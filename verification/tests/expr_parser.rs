use lox::ast::{BinaryOperator, Expr, Identifier, LogicalOperator, UnaryOperator};
use lox::expr_parser::parse;
use lox::number::Number;
use lox::parser::Parser;
use lox::position::{Diagnostic, Span, WithSpan};
use lox::tokenizer::tokenize_with_context;
use std::ops::Range;

fn parse_str(data: &str) -> Result<WithSpan<Expr>, Vec<Diagnostic>> {
    let tokens = tokenize_with_context(data);
    let mut parser = Parser::new(tokens);
    match parse(&mut parser) {
        Ok(e) => Ok(e),
        Err(_) => Err(parser.diagnostics().to_vec()),
    }
}

fn assert_errs(data: &str, errs: &[&str]) {
    let x = parse_str(data);
    assert!(x.is_err());
    let diagnostics = x.unwrap_err();
    for diag in diagnostics {
        assert!(errs.contains(&diag.message.as_str()), "{}", diag.message);
    }
}

/// Make WithSpan
fn ws<T>(value: T, range: Range<u32>) -> WithSpan<T> {
    WithSpan::new_unchecked(value, range.start, range.end)
}

/// Make Expr::Number
fn n(value: f64) -> Expr {
    Expr::Number(Number::from_literal(&format!("{}", value)).unwrap())
}

/// Make WithSpan<Expr::Number>
fn wsn(value: f64, range: Range<u32>) -> WithSpan<Expr> {
    ws(n(value), range)
}

/// Make a Minus Number with span
fn wsmn(value: f64, range: Range<u32>) -> WithSpan<Expr> {
    ws(Expr::Unary(ws(UnaryOperator::Minus, range.start..range.start + 1), Box::new(ws(n(value), range.start + 1..range.end))), range)
}

/// Make Expr::String
fn s(value: &str) -> Expr {
    Expr::String(value.to_owned())
}

/// Make Expr::Variable
fn v(value: &str, range: Range<u32>) -> Expr {
    Expr::Variable(ws(value.to_owned(), range))
}

/// Make WithSpan<Expr::Boolean>
fn wsb(value: bool, range: Range<u32>) -> WithSpan<Expr> {
    ws(Expr::Boolean(value), range)
}

/// Make Expr::Unary
fn uo(operator: UnaryOperator, operator_range: Range<u32>, expr: Expr, expr_range: Range<u32>) -> Expr {
    Expr::Unary(ws(operator, operator_range), Box::new(ws(expr, expr_range)))
}

/// Make WithSpan<Expr::Binary>
fn wsbo(left: WithSpan<Expr>, op: WithSpan<BinaryOperator>, right: WithSpan<Expr>) -> WithSpan<Expr> {
    let span = Span::union(&left, &right);
    WithSpan::new(Expr::Binary(Box::new(left), op, Box::new(right)), span)
}

/// Make WithSpan<Expr::Logical>
fn wslo(left: WithSpan<Expr>, op: WithSpan<LogicalOperator>, right: WithSpan<Expr>) -> WithSpan<Expr> {
    let span = Span::union(&left, &right);
    WithSpan::new(Expr::Logical(Box::new(left), op, Box::new(right)), span)
}

/// Make grouping with span
fn wsg(expr: WithSpan<Expr>, range: Range<u32>) -> WithSpan<Expr> {
    ws(Expr::Grouping(Box::new(expr)), range)
}

/// Make assignment with span
fn wsa(left: WithSpan<Identifier>, right: WithSpan<Expr>) -> WithSpan<Expr> {
    let span = Span::union(&left, &right);
    WithSpan::new(Expr::Assign(left, Box::new(right)), span)
}

/// WithSpan<Identifier>
fn wsi(value: &str, range: Range<u32>) -> WithSpan<Identifier> {
    ws(value.into(), range)
}

fn wscall(left: WithSpan<Expr>, args: Vec<WithSpan<Expr>>, range: Range<u32>) -> WithSpan<Expr> {
    ws(Expr::Call(Box::new(left), args), range)
}

fn wsget(left: WithSpan<Expr>, right: WithSpan<Identifier>) -> WithSpan<Expr> {
    let span = Span::union(&left, &right);
    WithSpan::new(Expr::Get(Box::new(left), right), span)
}

fn wsset(left: WithSpan<Expr>, right: WithSpan<Identifier>, set: WithSpan<Expr>) -> WithSpan<Expr> {
    let span = Span::union(&left, &set);
    WithSpan::new(Expr::SetProperty(Box::new(left), right, Box::new(set)), span)
}

fn assert_parses(expr: &str, expected: WithSpan<Expr>) {
    assert_eq!(parse_str(expr), Ok(expected));
}

fn assert2(expr: &str, expected: Expr, range: Range<u32>) {
    assert_eq!(parse_str(expr), Ok(ws(expected, range)));
}

fn simple_binary2(op: BinaryOperator, op_len: u32, start: u32) -> Expr {
    let left = ws(n(1.0), 0 + start..1 + start);
    let op = ws(op, 1 + start..1 + start + op_len);
    let right = ws(n(2.0), 1 + start + op_len..2 + start + op_len);

    Expr::Binary(Box::new(left), op, Box::new(right))
}

fn simple_binary(op: BinaryOperator, op_len: u32) -> Expr {
    simple_binary2(op, op_len, 0)
}

#[test]
fn test_primary() {
    assert_parses("nil", ws(Expr::Nil, 0..3));
    assert_parses("1.0", ws(n(1.0), 0..3));
    assert_parses("1", ws(n(1.0), 0..1));
    assert_parses("true", ws(Expr::Boolean(true), 0..4));
    assert_parses("false", ws(Expr::Boolean(false), 0..5));
    assert_parses("\"iets\"", ws(s("iets"), 0..6));
    assert_parses("iets", ws(v("iets", 0..4), 0..4));
    assert_parses("this", ws(Expr::This, 0..4));
    assert_parses("super.iets", ws(Expr::Super(ws("iets".into(), 6..10)), 0..10));
}

#[test]
fn test_unary() {
    assert2("-nil", uo(UnaryOperator::Minus, 0..1, Expr::Nil, 1..4), 0..4);
    assert2("!nil", uo(UnaryOperator::Bang, 0..1, Expr::Nil, 1..4), 0..4);
    assert2("!!nil", uo(UnaryOperator::Bang, 0..1, uo(UnaryOperator::Bang, 1..2, Expr::Nil, 2..5), 1..5), 0..5);
    assert2("!-nil", uo(UnaryOperator::Bang, 0..1, uo(UnaryOperator::Minus, 1..2, Expr::Nil, 2..5), 1..5), 0..5);
    assert2("-!nil", uo(UnaryOperator::Minus, 0..1, uo(UnaryOperator::Bang, 1..2, Expr::Nil, 2..5), 1..5), 0..5);
}

#[test]
fn test_binary() {
    assert2("1+2", simple_binary(BinaryOperator::Plus, 1), 0..3);
    assert2("1-2", simple_binary(BinaryOperator::Minus, 1), 0..3);
    assert2("1>2", simple_binary(BinaryOperator::Greater, 1), 0..3);
    assert2("1<2", simple_binary(BinaryOperator::Less, 1), 0..3);
    assert2("1*2", simple_binary(BinaryOperator::Star, 1), 0..3);
    assert2("1/2", simple_binary(BinaryOperator::Slash, 1), 0..3);

    assert2("1!=2", simple_binary(BinaryOperator::BangEqual, 2), 0..4);
    assert2("1==2", simple_binary(BinaryOperator::EqualEqual, 2), 0..4);
    assert2("1>=2", simple_binary(BinaryOperator::GreaterEqual, 2), 0..4);
    assert2("1<=2", simple_binary(BinaryOperator::LessEqual, 2), 0..4);
}

#[test]
fn test_binary_precedence() {
    let expr = wsbo(
        wsbo(wsn(1., 0..1), ws(BinaryOperator::Star, 1..2), wsn(2., 2..3)),
        ws(BinaryOperator::Plus, 3..4),
        wsbo(wsn(3., 4..5), ws(BinaryOperator::Star, 5..6), wsn(4., 6..7)),
    );
    assert_parses("1*2+3*4", expr);

    let expr = wsbo(wsmn(1., 0..2), ws(BinaryOperator::Star, 2..3), wsmn(2., 3..5));
    assert_parses("-1*-2", expr);
}

#[test]
fn test_errors() {
    // Test infinite loops and extra tokens
    assert2("1+2 3", simple_binary(BinaryOperator::Plus, 1), 0..3);

    assert_errs("1+", &["Unexpected <EOF>"]);
}

#[test]
fn test_grouping() {
    let expr = wsg(wsn(1., 1..2), 0..3);
    assert_parses("(1)", expr);

    let expr = wsg(wsbo(wsn(1., 1..2), ws(BinaryOperator::Plus, 2..3), wsn(2., 3..4)), 0..5);
    assert_parses("(1+2)", expr);

    assert_errs("(1", &["Expected ')' got <EOF>"]);
    assert_errs("(1}", &["Expected ')' got '}'"]);
}

#[test]
fn test_logical() {
    let expr = wslo(wsb(true, 0..4), ws(LogicalOperator::Or, 5..7), wsb(false, 8..13));
    assert_parses("true or false", expr);

    let expr = wslo(wsb(true, 0..4), ws(LogicalOperator::And, 5..8), wsb(false, 9..14));
    assert_parses("true and false", expr);
}

#[test]
fn test_logical_precedence() {
    let left = wslo(wsn(1., 0..1), ws(LogicalOperator::And, 2..5), wsn(2., 6..7));
    let right = wslo(wsn(3., 11..12), ws(LogicalOperator::And, 13..16), wsn(4., 17..18));
    let expr = wslo(left, ws(LogicalOperator::Or, 8..10), right);
    assert_parses("1 and 2 or 3 and 4", expr);
}

#[test]
fn test_assignment() {
    let expr = wsa(wsi("a", 0..1), wsn(3., 2..3));
    assert_parses("a=3", expr);
    let expr = wsa(wsi("a", 0..1), wsa(wsi("b", 2..3), wsn(3., 4..5)));
    assert_parses("a=b=3", expr);
    let expr = wsa(wsi("a", 0..1), ws(simple_binary2(BinaryOperator::Plus, 1, 2), 2..5));
    assert_parses("a=1+2", expr);

    assert_errs("a=", &["Unexpected <EOF>"]);
    assert_errs("3=3", &["Invalid left value"]);
}

#[test]
fn test_call() {
    let expr = wscall(ws(v("a", 0..1), 0..1), vec![], 0..3);
    assert_parses("a()", expr);

    let expr = wscall(ws(v("a", 0..1), 0..1), vec![wsn(3., 2..3)], 0..4);
    assert_parses("a(3)", expr);

    let expr = wscall(ws(v("a", 0..1), 0..1), vec![wsn(3., 2..3), wsn(4., 4..5)], 0..6);
    assert_parses("a(3,4)", expr);

    let expr = wscall(ws(v("a", 1..2), 1..2), vec![], 1..4);
    let expr = ws(Expr::Unary(ws(UnaryOperator::Minus, 0..1), Box::new(expr)), 0..4);
    assert_parses("-a()", expr);

    let left = wscall(ws(v("a", 0..1), 0..1), vec![], 0..3);
    let right = wscall(ws(v("b", 4..5), 4..5), vec![], 4..7);
    let expr = wsbo(left, ws(BinaryOperator::Plus, 3..4), right);
    assert_parses("a()+b()", expr);

    assert_errs("a(3,)", &["Unexpected ')'"]);
}

#[test]
fn test_get() {
    let left = wsget(ws(v("a", 0..1), 0..1), wsi("b", 2..3));
    let expr = wsget(left, wsi("c", 4..5));
    assert_parses("a.b.c", expr);
}

#[test]
fn test_set() {
    let expr = wsset(ws(v("a", 0..1), 0..1), wsi("b", 2..3), wsn(3., 4..5));
    assert_parses("a.b=3", expr);
}
