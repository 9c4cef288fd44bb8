use lox::ast::{Expr, Stmt};
use lox::number::Number;
use lox::parser::Parser;
use lox::position::{Diagnostic, WithSpan};
use lox::stmt_parser::parse;
use lox::tokenizer::tokenize_with_context;
use std::ops::Range;

fn parse_str(data: &str) -> Result<Vec<WithSpan<Stmt>>, Vec<Diagnostic>> {
    let tokens = tokenize_with_context(data);
    let mut parser = Parser::new(tokens);
    match parse(&mut parser) {
        Ok(ast) => Ok(ast),
        Err(_) => Err(parser.diagnostics().to_vec()),
    }
}

fn ws<T>(value: T, range: Range<u32>) -> WithSpan<T> {
    WithSpan::new_unchecked(value, range.start, range.end)
}

fn assert_errs(data: &str, errs: &[&str]) {
    let x = parse_str(data);
    assert!(x.is_err());
    let diagnostics = x.unwrap_err();
    for diag in diagnostics {
        assert!(errs.contains(&diag.message.as_str()), "{}", diag.message);
    }
}

#[test]
fn test_expr_stmt() {
    assert_eq!(
        parse_str("nil;"),
        Ok(vec![
            ws(Stmt::Expression(Box::new(ws(Expr::Nil, 0..3))), 0..4)
        ])
    );
    assert_eq!(
        parse_str("nil;nil;"),
        Ok(vec![
            ws(Stmt::Expression(Box::new(ws(Expr::Nil, 0..3))), 0..4),
            ws(Stmt::Expression(Box::new(ws(Expr::Nil, 4..7))), 4..8),
        ])
    );
}

#[test]
fn test_print_stmt() {
    assert_eq!(
        parse_str("print nil;"),
        Ok(vec![
            ws(Stmt::Print(Box::new(ws(Expr::Nil, 6..9))), 0..10),
        ])
    );
}

fn make_span_string(string: &str, offset: u32) -> WithSpan<String> {
    { WithSpan::new_unchecked(string.into(), offset, offset+string.len() as u32) }
}

#[test]
fn test_var_decl() {
    assert_eq!(
        parse_str("var beverage;"),
        Ok(vec![
            ws(Stmt::Var(make_span_string("beverage", 4), None), 0..13),
        ])
    );
    assert_eq!(
        parse_str("var beverage = nil;"),
        Ok(vec![
            ws(Stmt::Var(
                make_span_string("beverage", 4),
                Some(Box::new(ws(Expr::Nil, 15..18)))
            ), 0..19),
        ])
    );

    {
        assert_eq!(
            parse_str("var beverage = x = nil;"),
            Ok(vec![
                ws(Stmt::Var(
                    make_span_string("beverage", 4),
                    Some(Box::new(ws(Expr::Assign(
                        WithSpan::new_unchecked("x".into(), 15, 16),
                        Box::new(ws(Expr::Nil, 19..22))
                    ), 15..22)))
                ), 0..23),
            ])
        );
    }

    assert_errs("if (nil) var beverage = nil;", &["Unexpected 'var'"]);
}

#[test]
fn test_if_stmt() {
    assert_eq!(
        parse_str("if(nil) print nil;"),
        Ok(vec![
            ws(Stmt::If(
                Box::new(ws(Expr::Nil, 3..6)),
                Box::new(ws(Stmt::Print(Box::new(ws(Expr::Nil, 14..17))), 8..18)),
                None,
            ), 0..18),
        ])
    );
    assert_eq!(
        parse_str("if(nil) print nil; else print false;"),
        Ok(vec![
            ws(Stmt::If(
                Box::new(ws(Expr::Nil, 3..6)),
                Box::new(ws(Stmt::Print(Box::new(ws(Expr::Nil, 14..17))), 8..18)),
                Some(Box::new(
                    ws(Stmt::Print(Box::new(ws(Expr::Boolean(false), 30..35))), 24..36),
                )),
            ), 0..36),
        ])
    );
}

#[test]
fn test_block_stmt() {
    assert_eq!(parse_str("{}"), Ok(vec![
        ws(Stmt::Block(vec![]), 0..2),
    ]));
    assert_eq!(
        parse_str("{nil;}"),
        Ok(vec![
            ws(Stmt::Block(vec![
                ws(Stmt::Expression(Box::new(
                    ws(Expr::Nil, 1..4)
                )), 1..5),
            ]), 0..6),
        ])
    );
    assert_eq!(
        parse_str("{nil;nil;}"),
        Ok(vec![
            ws(Stmt::Block(vec![
                ws(Stmt::Expression(Box::new(ws(Expr::Nil, 1..4))), 1..5),
                ws(Stmt::Expression(Box::new(ws(Expr::Nil, 5..8))), 5..9),
            ]), 0..10),
        ])
    );
}

#[test]
fn test_while_stmt() {
    assert_eq!(
        parse_str("while(nil)false;"),
        Ok(vec![
            ws(Stmt::While(
                Box::new(ws(Expr::Nil, 6..9)),
                Box::new(ws(Stmt::Expression(Box::new(ws(Expr::Boolean(false), 10..15))), 10..16)),
            ), 0..16),
        ])
    );
}

#[test]
fn test_return_stmt() {
    assert_eq!(parse_str("return;"), Ok(vec![
        ws(Stmt::Return(None), 0..7),
    ]));
    assert_eq!(
        parse_str("return nil;"),
        Ok(vec![
            ws(Stmt::Return(Some(Box::new(ws(Expr::Nil, 7..10)))), 0..11),
        ])
    );
}

#[test]
fn test_import_stmt() {
    assert_eq!(parse_str("import \"mymodule\";"), Ok(vec![
        ws(Stmt::Import(
            ws("mymodule".into(), 7..17), 
            None
        ), 0..18),
    ]));

    assert_eq!(parse_str("import \"mymodule\" for message;"), Ok(vec![
        ws(Stmt::Import(
            ws("mymodule".into(), 7..17), 
            Some(vec![
                ws("message".into(), 22..29),
            ])
        ), 0..30),
    ]));
}

#[test]
fn test_function_stmt() {
    {
        assert_eq!(
            parse_str("fun test(){}"),
            Ok(vec![
                ws(Stmt::Function(
                    WithSpan::new_unchecked("test".into(), 4, 8),
                    vec![],
                    vec![]
                ), 0..12),
            ])
        );
        assert_eq!(
            parse_str("fun test(a){}"),
            Ok(vec![
                ws(Stmt::Function(
                    WithSpan::new_unchecked("test".into(), 4, 8),
                    vec![WithSpan::new_unchecked("a".into(), 9, 10)],
                    vec![]
                ), 0..13),
            ])
        );
        assert_eq!(
            parse_str("fun test(){nil;}"),
            Ok(vec![
                ws(Stmt::Function(
                    WithSpan::new_unchecked("test".into(), 4, 8),
                    vec![],
                    vec![ws(Stmt::Expression(Box::new(ws(Expr::Nil, 11..14))), 11..15),]
                ), 0..16),
            ])
        );
    }
}

#[test]
fn test_class_stmt() {
    {
        assert_eq!(
            parse_str("class test{}"),
            Ok(vec![
                ws(Stmt::Class(
                    WithSpan::new_unchecked("test".into(), 6, 10),
                    None,
                    vec![]
                ), 0..12),
            ])
        );
        assert_eq!(
            parse_str("class test{a(){}}"),
            Ok(vec![
                ws(Stmt::Class(
                    WithSpan::new_unchecked("test".into(), 6, 10),
                    None,
                    vec![ws(Stmt::Function(
                        WithSpan::new_unchecked("a".into(), 11, 12),
                        vec![],
                        vec![]
                    ), 11..16), ]
                ), 0..17),
            ])
        );
    }
}

#[test]
fn test_class_inheritance() {
    {
        assert_eq!(
            parse_str("class BostonCream < Doughnut {}"),
            Ok(vec![
                ws(Stmt::Class(
                    WithSpan::new_unchecked("BostonCream".into(), 6, 17),
                    Some(WithSpan::new_unchecked("Doughnut".into(), 20, 28)),
                    vec![]
                ), 0..31),
            ])
        );
    }
    assert_errs("class BostonCream < {}", &["Expected identifier got '{'"]);
    assert_errs("class BostonCream < Doughnut < BakedGood {}", &["Expected '{' got '<'"]);
}

#[test]
fn stmt_parser_test_for() {
    fn block(what: Vec<WithSpan<Stmt>>, r: Range<u32>) -> WithSpan<Stmt> {
        ws(Stmt::Block(what), r)
    }
    fn var_i_zero(start: u32, r: Range<u32>) -> WithSpan<Stmt> {
        ws(Stmt::Var(make_span_string("i", 8), Some(Box::new(ws(Expr::Number(Number::from_literal("0").unwrap()), start..start+1)))), r)
    }
    fn nil() -> Expr {
        Expr::Nil
    }
    fn while_stmt(e: WithSpan<Expr>, s: WithSpan<Stmt>, r: Range<u32>) -> WithSpan<Stmt> {
        ws(Stmt::While(Box::new(e), Box::new(s)), r)
    }

    assert_eq!(
        parse_str("for(;;){}"),
        Ok(vec![
            while_stmt(ws(Expr::Boolean(true), 0..0), ws(Stmt::Block(vec![]), 7..9), 0..9),
        ])
    );
    assert_eq!(
        parse_str("for(var i=0;;){}"),
        Ok(vec![block(vec![
            var_i_zero(10, 4..12),
            while_stmt(ws(Expr::Boolean(true), 0..0), ws(Stmt::Block(vec![]), 14..16), 0..16),
        ], 0..16)])
    );
    assert_eq!(
        parse_str("for(nil;nil;nil){}"),
        Ok(vec![block(vec![
            ws(Stmt::Expression(Box::new(ws(nil(), 4..7))), 4..8),
            while_stmt(
                ws(Expr::Nil, 8..11),
                ws(Stmt::Block(vec![ws(Stmt::Block(vec![]), 16..18), ws(Stmt::Expression(Box::new(ws(nil(), 12..15))), 12..15), ]), 12..15),
                8..15,
            ),
        ], 4..15)])
    );
}


#[test]
fn simple_statements_parse() {
    let ast = parse_str("print a;\n1;\n{}\nfor(;;) print nil;").unwrap();
    assert_eq!(4, ast.len());
    assert!(matches!(&ast[0].value, Stmt::Print(e) if matches!(&e.value, Expr::Variable(v) if v.value == "a")));
    assert!(matches!(&ast[1].value, Stmt::Expression(_)));
    assert!(matches!(&ast[2].value, Stmt::Block(ss) if ss.is_empty()));
    assert!(matches!(&ast[3].value, Stmt::While(c, b)
        if c.value == Expr::Boolean(true) && matches!(&b.value, Stmt::Print(e) if e.value == Expr::Nil)));
}
