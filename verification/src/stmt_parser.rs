use vstd::prelude::*;
use crate::ast::{Expr, Identifier, Stmt};
use crate::expr_parser::{atom_at, atom_expr, expect_identifier, expect_string, expr_yield, is_atom, parsed_atom, parsed_expr, Precedence};
use crate::parser::{eof_token, Parser};
use crate::position::{Span, WithSpan};
use crate::token::{Token, TokenKind};

verus! {

/// The tokens of a list of names: the names separated by commas.
pub open spec fn params_yield(params: Seq<WithSpan<Identifier>>) -> Seq<Token>
    decreases params.len(),
{
    if params.len() == 0 {
        Seq::empty()
    } else if params.len() == 1 {
        seq![Token::Identifier(params[0].value)]
    } else {
        params_yield(params.drop_last()) + seq![Token::Comma, Token::Identifier(params.last().value)]
    }
}

/// The tokens of an optional expression.
pub open spec fn opt_yield(e: Option<Box<WithSpan<Expr>>>) -> Seq<Token> {
    match e {
        Some(e) => expr_yield(*e),
        None => Seq::empty(),
    }
}

/// `t` is a text of the statement `s`: reading exactly the tokens `t` gives
/// `s`.  A `for` loop reads as the `while` loop it stands for, in a block
/// with its initializer when it has one.
pub open spec fn stmt_text(s: WithSpan<Stmt>, t: Seq<Token>) -> bool
    decreases s, 3nat,
{
    match s.value {
        Stmt::Expression(e) => t == expr_yield(*e) + seq![Token::Semicolon],
        Stmt::Print(e) => t == seq![Token::Print] + expr_yield(*e) + seq![Token::Semicolon],
        Stmt::Var(name, init) => t == seq![Token::Var, Token::Identifier(name.value)]
            + (match init { Some(e) => seq![Token::Equal] + expr_yield(*e), None => Seq::<Token>::empty() })
            + seq![Token::Semicolon],
        Stmt::Return(e) => t == seq![Token::Return] + opt_yield(e) + seq![Token::Semicolon],
        Stmt::Import(name, params) => t == seq![Token::Import, Token::String(name.value)]
            + (match params { Some(ps) => seq![Token::For] + params_yield(ps@), None => Seq::<Token>::empty() })
            + seq![Token::Semicolon],
        Stmt::Block(ss) => {
            ||| (t.len() >= 2 && t[0] == Token::LeftBrace && t.last() == Token::RightBrace
                && stmts_text(ss@, t.subrange(1, t.len() - 1)))
            ||| for_text(s, t)
        },
        Stmt::While(c, b) => {
            let head = seq![Token::While, Token::LeftParen] + expr_yield(*c) + seq![Token::RightParen];
            ||| (t.len() >= head.len() && t.take(head.len() as int) == head
                && stmt_text(*b, t.skip(head.len() as int)))
            ||| for_text(s, t)
        },
        Stmt::If(c, a, e) => {
            let head = seq![Token::If, Token::LeftParen] + expr_yield(*c) + seq![Token::RightParen];
            &&& t.len() >= head.len()
            &&& t.take(head.len() as int) == head
            &&& match e {
                Some(x) => exists|k: int| head.len() <= k < t.len() && t[k] == Token::Else
                    && stmt_text(*a, (#[trigger] t.take(k)).skip(head.len() as int)) && stmt_text(*x, t.skip(k + 1)),
                None => stmt_text(*a, t.skip(head.len() as int)),
            }
        },
        Stmt::Function(..) => t.len() >= 1 && t[0] == Token::Fun && function_text(s, t.subrange(1, t.len() as int)),
        Stmt::Class(name, superclass, methods) => {
            let head = seq![Token::Class, Token::Identifier(name.value)]
                + (match superclass { Some(sc) => seq![Token::Less, Token::Identifier(sc.value)], None => Seq::<Token>::empty() })
                + seq![Token::LeftBrace];
            &&& t.len() >= head.len() + 1
            &&& t.subrange(0, head.len() as int) == head
            &&& t.last() == Token::RightBrace
            &&& methods_text(methods@, t.subrange(head.len() as int, t.len() - 1))
        },
        Stmt::Error => false,
    }
}

/// `t` is a text of the statements `ss`, one after the other.
pub open spec fn stmts_text(ss: Seq<WithSpan<Stmt>>, t: Seq<Token>) -> bool
    decreases ss, 0nat,
{
    if ss.len() == 0 {
        t.len() == 0
    } else {
        exists|k: int| 0 <= k <= t.len() && stmts_text(ss.drop_last(), #[trigger] t.take(k))
            && stmt_text(ss.last(), t.skip(k))
    }
}

/// `t` is a text of the function `s` after the word `fun`: its name, its
/// parameters in parentheses and its body in braces.
pub open spec fn function_text(s: WithSpan<Stmt>, t: Seq<Token>) -> bool
    decreases s, 2nat,
{
    match s.value {
        Stmt::Function(name, params, body) => {
            let head = seq![Token::Identifier(name.value), Token::LeftParen] + params_yield(params@)
                + seq![Token::RightParen, Token::LeftBrace];
            &&& t.len() >= head.len() + 1
            &&& t.subrange(0, head.len() as int) == head
            &&& t.last() == Token::RightBrace
            &&& stmts_text(body@, t.subrange(head.len() as int, t.len() - 1))
        },
        _ => false,
    }
}

/// `t` is a text of the methods `ms` of a class, one after the other.
pub open spec fn methods_text(ms: Seq<WithSpan<Stmt>>, t: Seq<Token>) -> bool
    decreases ms, 0nat,
{
    if ms.len() == 0 {
        t.len() == 0
    } else {
        exists|k: int| 0 <= k <= t.len() && methods_text(ms.drop_last(), #[trigger] t.take(k))
            && function_text(ms.last(), t.skip(k))
    }
}

/// The condition of a `for` loop: written out, or left out for `true`.
pub open spec fn cond_text(c: WithSpan<Expr>, t: Seq<Token>) -> bool {
    t == expr_yield(c) || (t.len() == 0 && c.value == Expr::Boolean(true))
}

/// The body of a `for` loop, `b` read from `bt`, with the increment read
/// from `it` run after it.
pub open spec fn loop_body_text(b: WithSpan<Stmt>, it: Seq<Token>, bt: Seq<Token>) -> bool
    decreases b, 0nat,
{
    match b.value {
        Stmt::Block(v) => v@.len() == 2 && (v@[1].value matches Stmt::Expression(e) && it == expr_yield(*e))
            && stmt_text(v@[0], bt),
        _ => false,
    }
}

/// `w` is the `while` loop of a `for` loop whose text, after its
/// initializer, is `rest`: condition, `;`, increment, `)` and body.
pub open spec fn loop_text(w: WithSpan<Stmt>, rest: Seq<Token>) -> bool
    decreases w, 1nat,
{
    match w.value {
        Stmt::While(c, b) => exists|i: int, j: int| {
            &&& 0 <= i < j < rest.len()
            &&& rest[i] == Token::Semicolon
            &&& rest[j] == Token::RightParen
            &&& cond_text(*c, #[trigger] rest.take(i))
            &&& {
                let it = (#[trigger] rest.take(j)).skip(i + 1);
                let bt = rest.skip(j + 1);
                ||| (it.len() == 0 && stmt_text(*b, bt))
                ||| loop_body_text(*b, it, bt)
            }
        },
        _ => false,
    }
}

/// `t` is the text of a `for` loop that reads as `s`.
pub open spec fn for_text(s: WithSpan<Stmt>, t: Seq<Token>) -> bool
    decreases s, 2nat,
{
    ||| (t.len() >= 3 && t.take(3) == seq![Token::For, Token::LeftParen, Token::Semicolon]
        && loop_text(s, t.skip(3)))
    ||| (s.value matches Stmt::Block(v) && v@.len() == 2 && t.len() >= 2
        && t.take(2) == seq![Token::For, Token::LeftParen]
        && exists|k: int| 2 <= k <= t.len() && stmt_text(v@[0], (#[trigger] t.take(k)).skip(2))
            && loop_text(v@[1], t.skip(k)))
}

/// The result of parsing one statement from `before` to `after`: the
/// parser only moved forward, a success consumed at least one token and,
/// unless it recorded a diagnostic, the tokens consumed are a text of the
/// statement; a failure added a diagnostic.
pub open spec fn parsed_stmt(before: Parser, after: Parser, res: Result<WithSpan<Stmt>, ()>) -> bool {
    &&& before.advanced_to(&after)
    &&& (res is Ok ==> before.spec_cursor() < after.spec_cursor())
    &&& (res matches Ok(s) ==> (after.spec_diagnostics().len() == before.spec_diagnostics().len()
        ==> stmt_text(s, before.consumed(&after))))
    &&& (res is Err ==> before.spec_diagnostics().len() < after.spec_diagnostics().len())
}

/// Like `parsed_stmt`, for a function read after the word `fun` or in a
/// class body.
pub open spec fn parsed_function(before: Parser, after: Parser, res: Result<WithSpan<Stmt>, ()>) -> bool {
    &&& before.advanced_to(&after)
    &&& (res is Ok ==> before.spec_cursor() < after.spec_cursor())
    &&& (res matches Ok(s) ==> (after.spec_diagnostics().len() == before.spec_diagnostics().len()
        ==> function_text(s, before.consumed(&after))))
    &&& (res is Err ==> before.spec_diagnostics().len() < after.spec_diagnostics().len())
}

/// Token `i` of `toks`, or the end-of-file token past the last one.
pub open spec fn tok_at(toks: Seq<WithSpan<Token>>, i: int) -> WithSpan<Token> {
    if 0 <= i < toks.len() {
        toks[i]
    } else {
        eof_token()
    }
}

/// The number of tokens a simple statement takes at `i`, 0 where there is
/// none.  A simple statement is `print a;` or `a;` with `a` an atom (a
/// literal, `this` or a name), an empty block `{}`, or `for (;;)` over a
/// simple statement.
pub open spec fn simple_stmt_len(toks: Seq<WithSpan<Token>>, i: int) -> int
    decreases toks.len() - i,
{
    if tok_at(toks, i).value == Token::Print && is_atom(tok_at(toks, i + 1).value)
        && tok_at(toks, i + 2).value == Token::Semicolon {
        3
    } else if is_atom(tok_at(toks, i).value) && tok_at(toks, i + 1).value == Token::Semicolon {
        2
    } else if tok_at(toks, i).value == Token::LeftBrace && tok_at(toks, i + 1).value == Token::RightBrace {
        2
    } else if tok_at(toks, i).value == Token::For && tok_at(toks, i + 1).value == Token::LeftParen
        && tok_at(toks, i + 2).value == Token::Semicolon && tok_at(toks, i + 3).value == Token::Semicolon
        && tok_at(toks, i + 4).value == Token::RightParen && 0 <= i && i + 5 < toks.len()
        && simple_stmt_len(toks, i + 5) > 0 {
        5 + simple_stmt_len(toks, i + 5)
    } else {
        0
    }
}

/// `v` is the simple statement at `i`, spans aside: the print or the
/// expression of the atom, an empty block, or for `for (;;)` a loop `while
/// (true)` over the statement after it.
pub open spec fn simple_stmt_is(toks: Seq<WithSpan<Token>>, i: int, v: Stmt) -> bool
    decreases toks.len() - i,
{
    if tok_at(toks, i).value == Token::Print && is_atom(tok_at(toks, i + 1).value)
        && tok_at(toks, i + 2).value == Token::Semicolon {
        v == Stmt::Print(Box::new(atom_expr(tok_at(toks, i + 1))))
    } else if is_atom(tok_at(toks, i).value) && tok_at(toks, i + 1).value == Token::Semicolon {
        v == Stmt::Expression(Box::new(atom_expr(tok_at(toks, i))))
    } else if tok_at(toks, i).value == Token::LeftBrace && tok_at(toks, i + 1).value == Token::RightBrace {
        v matches Stmt::Block(ss) && ss@.len() == 0
    } else if tok_at(toks, i).value == Token::For && 0 <= i && i + 5 < toks.len() {
        v matches Stmt::While(c, b) && c.value == Expr::Boolean(true) && simple_stmt_is(toks, i + 5, b.value)
    } else {
        false
    }
}

/// From `i` on, the tokens are simple statements up to the end of the
/// input.
pub open spec fn simple_program_from(toks: Seq<WithSpan<Token>>, i: int) -> bool
    decreases toks.len() - i,
{
    if i >= toks.len() || tok_at(toks, i).value == Token::Eof {
        true
    } else {
        proof { lemma_simple_len_bound(toks, i); }
        simple_stmt_len(toks, i) > 0 && simple_program_from(toks, i + simple_stmt_len(toks, i))
    }
}

/// A simple statement does not reach past the tokens.
pub proof fn lemma_simple_len_bound(toks: Seq<WithSpan<Token>>, i: int)
    requires
        0 <= i <= toks.len(),
    ensures
        i + simple_stmt_len(toks, i) <= toks.len(),
    decreases toks.len() - i,
{
    assert(eof_token().value == Token::Eof);
    if i + 5 < toks.len() {
        lemma_simple_len_bound(toks, i + 5);
    }
    if tok_at(toks, i + 2).value == Token::Semicolon {
        assert(i + 2 < toks.len());
    }
    if tok_at(toks, i + 1).value == Token::Semicolon || tok_at(toks, i + 1).value == Token::RightBrace {
        assert(i + 1 < toks.len());
    }
}

/// `ss` are the simple statements from `i` on, spans aside, up to the end
/// of the input.
pub open spec fn simple_stmts_from(toks: Seq<WithSpan<Token>>, i: int, ss: Seq<WithSpan<Stmt>>) -> bool
    decreases toks.len() - i,
{
    if i >= toks.len() || tok_at(toks, i).value == Token::Eof {
        ss.len() == 0
    } else {
        proof { lemma_simple_len_bound(toks, i); }
        &&& simple_stmt_len(toks, i) > 0
        &&& ss.len() > 0
        &&& simple_stmt_is(toks, i, ss[0].value)
        &&& simple_stmts_from(toks, i + simple_stmt_len(toks, i), ss.drop_first())
    }
}

/// The parse read the simple statement at the cursor of `before`, and
/// nothing else, without a diagnostic.
pub open spec fn parsed_simple(before: Parser, after: Parser, res: Result<WithSpan<Stmt>, ()>) -> bool {
    let toks = before.spec_tokens();
    let c = before.spec_cursor();
    &&& res matches Ok(st) && simple_stmt_is(toks, c, st.value)
    &&& after.spec_cursor() == c + simple_stmt_len(toks, c)
    &&& after.spec_diagnostics() == before.spec_diagnostics()
}

/// The result of a parse that may consume nothing.
pub open spec fn parsed_any<T>(before: Parser, after: Parser, res: Result<T, ()>) -> bool {
    &&& before.advanced_to(&after)
    &&& (res is Err ==> before.spec_diagnostics().len() < after.spec_diagnostics().len())
}

fn parse_program(it: &mut Parser) -> (res: Result<Vec<WithSpan<Stmt>>, ()>)
    requires
        old(it).wf(),
    ensures
        simple_program_from(old(it).spec_tokens(), old(it).spec_cursor()) ==> res is Ok && final(it).spec_diagnostics() == old(it).spec_diagnostics()
            && (res matches Ok(ss) && simple_stmts_from(old(it).spec_tokens(), old(it).spec_cursor(), ss@)),
        parsed_any(*old(it), *final(it), res),
        res is Ok ==> final(it).spec_current().value == Token::Eof,
        res matches Ok(ss) ==> (final(it).spec_diagnostics().len() == old(it).spec_diagnostics().len()
            ==> stmts_text(ss@, old(it).consumed(final(it)))),
{
    let ghost p0 = *it;
    let mut statements: Vec<WithSpan<Stmt>> = Vec::new();
    proof {
        lemma_none(p0);
        assert forall|rest: Seq<WithSpan<Stmt>>| #[trigger] simple_stmts_from(it.spec_tokens(), it.spec_cursor(), rest)
            implies simple_stmts_from(p0.spec_tokens(), p0.spec_cursor(), statements@ + rest) by {
            assert(statements@ + rest =~= rest);
        }
    }
    while !it.is_eof()
        invariant
            p0 == *old(it),
            p0.advanced_to(it),
            it.spec_diagnostics().len() == p0.spec_diagnostics().len() ==> stmts_text(statements@, p0.consumed(it)),
            simple_program_from(p0.spec_tokens(), p0.spec_cursor()) ==> simple_program_from(it.spec_tokens(), it.spec_cursor())
                && it.spec_diagnostics() == p0.spec_diagnostics()
                && forall|rest: Seq<WithSpan<Stmt>>| #[trigger] simple_stmts_from(it.spec_tokens(), it.spec_cursor(), rest)
                    ==> simple_stmts_from(p0.spec_tokens(), p0.spec_cursor(), statements@ + rest),
        decreases it.spec_remaining(),
    {
        let ghost q = *it;
        let ghost before = statements@;
        proof {
            if simple_program_from(p0.spec_tokens(), p0.spec_cursor()) {
                assert(tok_at(q.spec_tokens(), q.spec_cursor()) == q.spec_current());
            }
        }
        let st = parse_declaration(it)?;
        proof {
            lemma_concat(p0, q, *it);
            if it.spec_diagnostics().len() == p0.spec_diagnostics().len() {
                lemma_stmts_push(statements@, st, p0.consumed(&q), q.consumed(it));
            }
        }
        statements.push(st);
        proof {
            if simple_program_from(p0.spec_tokens(), p0.spec_cursor()) {
                let toks = p0.spec_tokens();
                assert forall|rest: Seq<WithSpan<Stmt>>| #[trigger] simple_stmts_from(it.spec_tokens(), it.spec_cursor(), rest)
                    implies simple_stmts_from(toks, p0.spec_cursor(), statements@ + rest) by {
                    let rest2 = seq![st] + rest;
                    assert(rest2.drop_first() =~= rest);
                    assert(rest2[0] == st);
                    assert(simple_stmts_from(toks, q.spec_cursor(), rest2));
                    assert(before + rest2 =~= statements@ + rest);
                }
            }
        }
    }
    proof {
        crate::token::lemma_plain_kind(it.spec_current().value);
        if simple_program_from(p0.spec_tokens(), p0.spec_cursor()) {
            assert(simple_stmts_from(it.spec_tokens(), it.spec_cursor(), Seq::<WithSpan<Stmt>>::empty()));
            assert(statements@ + Seq::<WithSpan<Stmt>>::empty() =~= statements@);
        }
    }
    Ok(statements)
}

fn parse_declaration(it: &mut Parser) -> (res: Result<WithSpan<Stmt>, ()>)
    requires
        old(it).wf(),
    ensures
        simple_stmt_len(old(it).spec_tokens(), old(it).spec_cursor()) > 0 ==> parsed_simple(*old(it), *final(it), res),
        parsed_stmt(*old(it), *final(it), res),
    decreases old(it).spec_remaining(), 3nat,
{
    match it.peek() {
        TokenKind::Var => parse_var_declaration(it),
        TokenKind::Fun => parse_function_declaration(it),
        TokenKind::Class => parse_class_declaration(it),
        _ => parse_statement(it),
    }
}

fn parse_statement(it: &mut Parser) -> (res: Result<WithSpan<Stmt>, ()>)
    requires
        old(it).wf(),
    ensures
        simple_stmt_len(old(it).spec_tokens(), old(it).spec_cursor()) > 0 ==> parsed_simple(*old(it), *final(it), res),
        parsed_stmt(*old(it), *final(it), res),
    decreases old(it).spec_remaining(), 2nat,
{
    match it.peek() {
        TokenKind::Print => parse_print_statement(it),
        TokenKind::If => parse_if_statement(it),
        TokenKind::LeftBrace => parse_block_statement(it),
        TokenKind::While => parse_while_statement(it),
        TokenKind::Return => parse_return_statement(it),
        TokenKind::For => parse_for_statement(it),
        TokenKind::Import => parse_import_statement(it),
        _ => parse_expr_statement(it),
    }
}

fn parse_class_declaration(it: &mut Parser) -> (res: Result<WithSpan<Stmt>, ()>)
    requires
        old(it).wf(),
    ensures
        parsed_stmt(*old(it), *final(it), res),
    decreases old(it).spec_remaining(), 1nat,
{
    let ghost p0 = *old(it);
    let begin_span = it.expect(TokenKind::Class)?;
    let ghost p1 = *it;
    let name = expect_identifier(it)?;
    let ghost p2 = *it;
    let superclass = if it.optionally(TokenKind::Less)? {
        let ghost p3 = *it;
        let name = expect_identifier(it)?;
        proof {
            crate::token::lemma_plain_kind(p2.spec_current().value);
            lemma_one(p2, p3);
            lemma_one(p3, *it);
            lemma_concat(p2, p3, *it);
        }
        Some(name)
    } else {
        proof {
            lemma_none(p2);
            assert(p2.consumed(it) =~= p2.consumed(&p2));
        }
        None
    };
    let ghost p4 = *it;
    it.expect(TokenKind::LeftBrace)?;
    let ghost p5 = *it;
    let mut functions: Vec<WithSpan<Stmt>> = Vec::new();
    proof {
        lemma_none(p5);
    }
    while !it.check(TokenKind::RightBrace)
        invariant
            p0 == *old(it),
            p0.advanced_to(it),
            p0.advanced_to(&p5),
            p5.advanced_to(it),
            p0.spec_cursor() < it.spec_cursor(),
            it.spec_diagnostics().len() == p5.spec_diagnostics().len() ==> methods_text(functions@, p5.consumed(it)),
        decreases it.spec_remaining(),
    {
        let ghost q = *it;
        let f = parse_function(it)?;
        proof {
            lemma_concat(p5, q, *it);
            if it.spec_diagnostics().len() == p5.spec_diagnostics().len() {
                lemma_methods_push(functions@, f, p5.consumed(&q), q.consumed(it));
            }
        }
        functions.push(f);
    }
    let ghost p6 = *it;
    let end_span = it.expect(TokenKind::RightBrace)?;
    proof {
        lemma_one(p0, p1);
        lemma_one(p1, p2);
        lemma_one(p4, p5);
        lemma_one(p6, *it);
        lemma_concat(p0, p1, p2);
        lemma_concat(p0, p2, p4);
        lemma_concat(p0, p4, p5);
        lemma_concat(p0, p5, p6);
        lemma_concat(p0, p6, *it);
        let head = seq![Token::Class, Token::Identifier(name.value)]
            + (match &superclass { Some(sc) => seq![Token::Less, Token::Identifier(sc.value)], None => Seq::<Token>::empty() })
            + seq![Token::LeftBrace];
        let t = p0.consumed(it);
        assert(p0.consumed(&p5) =~= head);
        assert(t.subrange(0, head.len() as int) =~= head);
        assert(t.subrange(head.len() as int, t.len() - 1) =~= p5.consumed(&p6));
    }

    Ok(WithSpan::new(Stmt::Class(name, superclass, functions), Span::union_span(begin_span.span, end_span.span)))
}

fn parse_function_declaration(it: &mut Parser) -> (res: Result<WithSpan<Stmt>, ()>)
    requires
        old(it).wf(),
    ensures
        parsed_stmt(*old(it), *final(it), res),
    decreases old(it).spec_remaining(), 1nat,
{
    let ghost p0 = *it;
    let begin_span = it.expect(TokenKind::Fun)?;
    let ghost p1 = *it;
    let fun = parse_function(it)?;
    proof {
        lemma_one(p0, p1);
        lemma_concat(p0, p1, *it);
        assert(p0.consumed(it).subrange(1, p0.consumed(it).len() as int) =~= p1.consumed(it));
    }
    let span = Span::union_span(begin_span.span, fun.span);
    let ghost fun_g = fun;
    let res = WithSpan::new(fun.value, span);
    proof {
        if it.spec_diagnostics().len() == p0.spec_diagnostics().len() {
            lemma_function_text_value(fun_g, res, p1.consumed(it));
        }
    }
    Ok(res)
}

fn parse_function(it: &mut Parser) -> (res: Result<WithSpan<Stmt>, ()>)
    requires
        old(it).wf(),
    ensures
        parsed_function(*old(it), *final(it), res),
    decreases old(it).spec_remaining(), 0nat,
{
    let ghost p0 = *old(it);
    let name = expect_identifier(it)?;
    let ghost p1 = *it;
    it.expect(TokenKind::LeftParen)?;
    let ghost p2 = *it;
    let params = if !it.check(TokenKind::RightParen) {
        parse_params(it)?
    } else {
        proof { lemma_none(p2); }
        Vec::new()
    };
    let ghost p3 = *it;
    it.expect(TokenKind::RightParen)?;
    let ghost p4 = *it;
    it.expect(TokenKind::LeftBrace)?;
    let ghost p5 = *it;
    let mut body: Vec<WithSpan<Stmt>> = Vec::new();
    proof {
        lemma_none(p5);
    }
    while !it.check(TokenKind::RightBrace)
        invariant
            p0 == *old(it),
            p0.advanced_to(it),
            p0.advanced_to(&p5),
            p5.advanced_to(it),
            p0.spec_cursor() < it.spec_cursor(),
            it.spec_diagnostics().len() == p5.spec_diagnostics().len() ==> stmts_text(body@, p5.consumed(it)),
        decreases it.spec_remaining(),
    {
        let ghost q = *it;
        let st = parse_declaration(it)?;
        proof {
            lemma_concat(p5, q, *it);
            if it.spec_diagnostics().len() == p5.spec_diagnostics().len() {
                lemma_stmts_push(body@, st, p5.consumed(&q), q.consumed(it));
            }
        }
        body.push(st);
    }
    let ghost p6 = *it;
    let end_span = it.expect(TokenKind::RightBrace)?;
    proof {
        lemma_one(p0, p1);
        lemma_one(p1, p2);
        lemma_one(p3, p4);
        lemma_one(p4, p5);
        lemma_one(p6, *it);
        lemma_concat(p0, p1, p2);
        lemma_concat(p0, p2, p3);
        lemma_concat(p0, p3, p4);
        lemma_concat(p0, p4, p5);
        lemma_concat(p0, p5, p6);
        lemma_concat(p0, p6, *it);
        let head = seq![Token::Identifier(name.value), Token::LeftParen] + params_yield(params@)
            + seq![Token::RightParen, Token::LeftBrace];
        let t = p0.consumed(it);
        assert(p0.consumed(&p5) =~= head);
        assert(t.subrange(0, head.len() as int) =~= head);
        assert(t.subrange(head.len() as int, t.len() - 1) =~= p5.consumed(&p6));
    }
    let span = Span::union_span(name.span, end_span.span);
    Ok(WithSpan::new(Stmt::Function(name, params, body), span))
}

fn parse_params(it: &mut Parser) -> (res: Result<Vec<WithSpan<Identifier>>, ()>)
    requires
        old(it).wf(),
    ensures
        parsed_any(*old(it), *final(it), res),
        res matches Ok(params) ==> params@.len() >= 1 && old(it).spec_cursor() < final(it).spec_cursor()
            && old(it).consumed(final(it)) == params_yield(params@),
{
    let mut params: Vec<WithSpan<Identifier>> = Vec::new();
    let ghost p0 = *old(it);
    let first = expect_identifier(it)?;
    proof {
        lemma_one(p0, *it);
    }
    params.push(first);
    while it.check(TokenKind::Comma)
        invariant
            p0 == *old(it),
            p0.advanced_to(it),
            p0.spec_cursor() < it.spec_cursor(),
            params@.len() >= 1,
            p0.consumed(it) == params_yield(params@),
        decreases it.spec_remaining(),
    {
        let ghost q0 = *it;
        it.expect(TokenKind::Comma)?;
        let ghost q1 = *it;
        let name = expect_identifier(it)?;
        proof {
            lemma_one(q0, q1);
            lemma_one(q1, *it);
            lemma_concat(q0, q1, *it);
            lemma_concat(p0, q0, *it);
            assert(params@.push(name).drop_last() =~= params@);
            assert(p0.consumed(it) =~= params_yield(params@.push(name)));
        }
        params.push(name);
    }
    Ok(params)
}

fn parse_var_declaration(it: &mut Parser) -> (res: Result<WithSpan<Stmt>, ()>)
    requires
        old(it).wf(),
    ensures
        parsed_stmt(*old(it), *final(it), res),
        res matches Ok(s) ==> s.value matches Stmt::Var(name, init) && old(it).consumed(final(it)) == seq![Token::Var, Token::Identifier(name.value)]
            + (match init { Some(e) => seq![Token::Equal] + expr_yield(*e), None => Seq::<Token>::empty() })
            + seq![Token::Semicolon],
{
    let ghost p0 = *it;
    let begin_span = it.expect(TokenKind::Var)?;
    let ghost p1 = *it;
    let name = expect_identifier(it)?;
    let ghost p2 = *it;
    let mut initializer: Option<Box<WithSpan<Expr>>> = None;

    if it.optionally(TokenKind::Equal)? {
        let ghost p3 = *it;
        let e = parse_expr(it)?;
        proof {
            crate::token::lemma_plain_kind(p2.spec_current().value);
            lemma_one(p2, p3);
            lemma_concat(p2, p3, *it);
        }
        initializer = Some(Box::new(e));
    } else {
        proof { lemma_none(p2); }
    }
    let ghost p4 = *it;
    let end_span = it.expect(TokenKind::Semicolon)?;
    proof {
        lemma_one(p0, p1);
        lemma_one(p1, p2);
        lemma_concat(p0, p1, p2);
        lemma_concat(p0, p2, p4);
        lemma_one(p4, *it);
        lemma_concat(p0, p4, *it);
        assert(p0.consumed(it) =~= seq![Token::Var, Token::Identifier(name.value)]
            + (match initializer { Some(e) => seq![Token::Equal] + expr_yield(*e), None => Seq::<Token>::empty() })
            + seq![Token::Semicolon]);
    }

    Ok(WithSpan::new(Stmt::Var(name, initializer), Span::union_span(begin_span.span, end_span.span)))
}

fn parse_expr(it: &mut Parser) -> (res: Result<WithSpan<Expr>, ()>)
    requires
        old(it).wf(),
    ensures
        atom_at(*old(it), Precedence::Lowest) ==> parsed_atom(*old(it), *final(it), res),
        parsed_expr(*old(it), *final(it), res, Seq::empty()),
{
    crate::expr_parser::parse(it)
}

#[verifier::rlimit(80)]
fn parse_for_statement(it: &mut Parser) -> (res: Result<WithSpan<Stmt>, ()>)
    requires
        old(it).wf(),
    ensures
        tok_at(old(it).spec_tokens(), old(it).spec_cursor()).value == Token::For
            && simple_stmt_len(old(it).spec_tokens(), old(it).spec_cursor()) > 0 ==> parsed_simple(*old(it), *final(it), res),
        parsed_stmt(*old(it), *final(it), res),
    decreases old(it).spec_remaining(), 1nat,
{
    let ghost p0 = *it;
    it.expect(TokenKind::For)?;
    let ghost p1 = *it;
    it.expect(TokenKind::LeftParen)?;
    let ghost p2 = *it;
    let initializer = match it.peek() {
        TokenKind::Var => Some(parse_var_declaration(it)?),
        TokenKind::Semicolon => {
            it.expect(TokenKind::Semicolon)?;
            proof { lemma_one(p2, *it); }
            None
        },
        _ => Some(parse_expr_statement(it)?),
    };
    let ghost p3 = *it;
    let condition = if !it.check(TokenKind::Semicolon) {
        parse_expr(it)?
    } else {
        proof { lemma_none(p3); }
        WithSpan::empty(Expr::Boolean(true))
    };
    let ghost p4 = *it;
    it.expect(TokenKind::Semicolon)?;
    let ghost p5 = *it;
    let increment = if !it.check(TokenKind::RightParen) {
        Some(parse_expr(it)?)
    } else {
        proof { lemma_none(p5); }
        None
    };
    let ghost p6 = *it;
    it.expect(TokenKind::RightParen)?;
    let ghost p7 = *it;
    let body = parse_statement(it)?;
    proof {
        lemma_one(p0, p1);
        lemma_one(p1, p2);
        lemma_one(p4, p5);
        lemma_one(p6, p7);
        lemma_concat(p0, p1, p2);
        lemma_concat(p0, p2, p3);
        lemma_concat(p3, p4, p5);
        lemma_concat(p3, p5, p6);
        lemma_concat(p3, p6, p7);
        lemma_concat(p3, p7, *it);
        lemma_concat(p0, p3, *it);
        assert(p3.consumed(it) =~= p3.consumed(&p4) + seq![Token::Semicolon] + p5.consumed(&p6)
            + seq![Token::RightParen] + p7.consumed(it));
        assert(p0.consumed(it) =~= seq![Token::For, Token::LeftParen] + p2.consumed(&p3) + p3.consumed(it));
        if it.spec_diagnostics().len() == p0.spec_diagnostics().len() {
            assert(cond_text(condition, p3.consumed(&p4)));
        }
    }
    let ghost condition_g = condition;
    let ghost body_g = body;

    // Add increment if it exists
    let body = match increment {
        Some(expr) => {
            let span = expr.span;
            let ghost expr_g = expr;
            let mut stmts: Vec<WithSpan<Stmt>> = Vec::new();
            stmts.push(body);
            stmts.push(WithSpan::new(Stmt::Expression(Box::new(expr)), span));
            let block = WithSpan::new(Stmt::Block(stmts), span);
            proof {
                if it.spec_diagnostics().len() == p0.spec_diagnostics().len() {
                    assert(stmts@[0] == body_g);
                    assert(loop_body_text(block, p5.consumed(&p6), p7.consumed(it)));
                }
            }
            block
        },
        None => body,
    };
    let span = Span::union_span(condition.span, body.span);
    let body = WithSpan::new(Stmt::While(Box::new(condition), Box::new(body)), span);
    proof {
        if it.spec_diagnostics().len() == p0.spec_diagnostics().len() {
            lemma_loop_text(body, p3.consumed(&p4), p5.consumed(&p6), p7.consumed(it));
        }
    }
    let body = match initializer {
        Some(stmt) => {
            let span = Span::union_span(stmt.span, body.span);
            let ghost stmt_g = stmt;
            let ghost while_g = body;
            let mut stmts: Vec<WithSpan<Stmt>> = Vec::new();
            stmts.push(stmt);
            stmts.push(body);
            let block = WithSpan::new(Stmt::Block(stmts), span);
            proof {
                if it.spec_diagnostics().len() == p0.spec_diagnostics().len() {
                    assert(stmts@[0] == stmt_g && stmts@[1] == while_g);
                    lemma_for_init(block, p2.consumed(&p3), p3.consumed(it));
                }
            }
            block
        },
        None => {
            proof {
                if it.spec_diagnostics().len() == p0.spec_diagnostics().len() {
                    assert(p2.consumed(&p3) == seq![Token::Semicolon]);
                    assert(p0.consumed(it) =~= seq![Token::For, Token::LeftParen, Token::Semicolon] + p3.consumed(it));
                    lemma_for_no_init(body, p3.consumed(it));
                }
            }
            body
        },
    };

    Ok(body)
}

fn parse_import_statement(it: &mut Parser) -> (res: Result<WithSpan<Stmt>, ()>)
    requires
        old(it).wf(),
    ensures
        parsed_stmt(*old(it), *final(it), res),
{
    let ghost p0 = *it;
    let begin_span = it.expect(TokenKind::Import)?;
    let ghost p1 = *it;
    let name = expect_string(it)?;
    let ghost p2 = *it;
    let params = if it.check(TokenKind::For) {
        it.expect(TokenKind::For)?;
        let ghost p3 = *it;
        let ps = parse_params(it)?;
        proof {
            lemma_one(p2, p3);
            lemma_concat(p2, p3, *it);
        }
        Some(ps)
    } else {
        proof { lemma_none(p2); }
        None
    };
    let ghost p4 = *it;
    let end_span = it.expect(TokenKind::Semicolon)?;
    proof {
        lemma_one(p0, p1);
        lemma_one(p1, p2);
        lemma_one(p4, *it);
        lemma_concat(p0, p1, p2);
        lemma_concat(p0, p2, p4);
        lemma_concat(p0, p4, *it);
        assert(p0.consumed(it) =~= seq![Token::Import, Token::String(name.value)]
            + (match params { Some(ps) => seq![Token::For] + params_yield(ps@), None => Seq::<Token>::empty() })
            + seq![Token::Semicolon]);
    }

    Ok(WithSpan::new(Stmt::Import(name, params), Span::union_span(begin_span.span, end_span.span)))
}

fn parse_return_statement(it: &mut Parser) -> (res: Result<WithSpan<Stmt>, ()>)
    requires
        old(it).wf(),
    ensures
        parsed_stmt(*old(it), *final(it), res),
        res matches Ok(s) ==> s.value matches Stmt::Return(e) && old(it).consumed(final(it)) == seq![Token::Return]
            + (match e { Some(e) => expr_yield(*e), None => Seq::<Token>::empty() })
            + seq![Token::Semicolon],
{
    let ghost p0 = *it;
    let begin_span = it.expect(TokenKind::Return)?;
    let ghost p1 = *it;
    let mut expr: Option<Box<WithSpan<Expr>>> = None;
    if !it.check(TokenKind::Semicolon) {
        expr = Some(Box::new(parse_expr(it)?));
    } else {
        proof { lemma_none(p1); }
    }
    let ghost p2 = *it;
    let end_span = it.expect(TokenKind::Semicolon)?;
    proof {
        lemma_one(p0, p1);
        lemma_concat(p0, p1, p2);
        lemma_one(p2, *it);
        lemma_concat(p0, p2, *it);
        assert(p0.consumed(it) =~= seq![Token::Return]
            + (match expr { Some(e) => expr_yield(*e), None => Seq::<Token>::empty() })
            + seq![Token::Semicolon]);
    }
    Ok(WithSpan::new(Stmt::Return(expr), Span::union_span(begin_span.span, end_span.span)))
}

fn parse_expr_statement(it: &mut Parser) -> (res: Result<WithSpan<Stmt>, ()>)
    requires
        old(it).wf(),
    ensures
        is_atom(tok_at(old(it).spec_tokens(), old(it).spec_cursor()).value)
            && simple_stmt_len(old(it).spec_tokens(), old(it).spec_cursor()) > 0 ==> parsed_simple(*old(it), *final(it), res),
        parsed_stmt(*old(it), *final(it), res),
        res matches Ok(s) ==> (s.value matches Stmt::Expression(e) && old(it).consumed(final(it))
            == expr_yield(*e) + seq![Token::Semicolon])
            || (s.value == Stmt::Error && final(it).spec_diagnostics().len() > old(it).spec_diagnostics().len()),
{
    let ghost p0 = *it;
    let expr = parse_expr(it)?;
    let ghost p1 = *it;
    let end_span = match it.expect2(TokenKind::Semicolon) {
        Some(token) => token,
        None => {
            return Ok(WithSpan::empty(Stmt::Error));
        },
    };
    proof {
        lemma_one(p1, *it);
        lemma_concat(p0, p1, *it);
    }
    let span = Span::union_span(expr.span, end_span);
    Ok(WithSpan::new(Stmt::Expression(Box::new(expr)), span))
}

fn parse_block_statement(it: &mut Parser) -> (res: Result<WithSpan<Stmt>, ()>)
    requires
        old(it).wf(),
    ensures
        tok_at(old(it).spec_tokens(), old(it).spec_cursor()).value == Token::LeftBrace
            && simple_stmt_len(old(it).spec_tokens(), old(it).spec_cursor()) > 0 ==> parsed_simple(*old(it), *final(it), res),
        parsed_stmt(*old(it), *final(it), res),
    decreases old(it).spec_remaining(), 1nat,
{
    let ghost p0 = *old(it);
    let begin_span = it.expect(TokenKind::LeftBrace)?;
    let ghost p1 = *it;
    let mut statements: Vec<WithSpan<Stmt>> = Vec::new();
    proof {
        lemma_none(p1);
    }
    while !it.check(TokenKind::RightBrace)
        invariant
            p0 == *old(it),
            p0.advanced_to(it),
            p0.advanced_to(&p1),
            p1.advanced_to(it),
            p0.spec_cursor() < it.spec_cursor(),
            it.spec_diagnostics().len() == p1.spec_diagnostics().len() ==> stmts_text(statements@, p1.consumed(it)),
            tok_at(p0.spec_tokens(), p0.spec_cursor()).value == Token::LeftBrace
                && simple_stmt_len(p0.spec_tokens(), p0.spec_cursor()) > 0
                ==> *it == p1 && statements@.len() == 0 && p1.spec_diagnostics() == p0.spec_diagnostics()
                    && p1.spec_cursor() == p0.spec_cursor() + 1,
        decreases it.spec_remaining(),
    {
        let ghost q = *it;
        let st = parse_declaration(it)?;
        proof {
            lemma_concat(p1, q, *it);
            if it.spec_diagnostics().len() == p1.spec_diagnostics().len() {
                lemma_stmts_push(statements@, st, p1.consumed(&q), q.consumed(it));
            }
        }
        statements.push(st);
    }
    let ghost p2 = *it;
    let end_span = it.expect(TokenKind::RightBrace)?;
    proof {
        lemma_one(p0, p1);
        lemma_one(p2, *it);
        lemma_concat(p0, p1, p2);
        lemma_concat(p0, p2, *it);
        let t = p0.consumed(it);
        assert(t.subrange(1, t.len() - 1) =~= p1.consumed(&p2));
    }
    Ok(WithSpan::new(Stmt::Block(statements), Span::union_span(begin_span.span, end_span.span)))
}

fn parse_while_statement(it: &mut Parser) -> (res: Result<WithSpan<Stmt>, ()>)
    requires
        old(it).wf(),
    ensures
        parsed_stmt(*old(it), *final(it), res),
    decreases old(it).spec_remaining(), 1nat,
{
    let ghost p0 = *it;
    let begin_span = it.expect(TokenKind::While)?;
    let ghost p1 = *it;
    it.expect(TokenKind::LeftParen)?;
    let ghost p2 = *it;
    let condition = parse_expr(it)?;
    let ghost p3 = *it;
    it.expect(TokenKind::RightParen)?;
    let ghost p4 = *it;
    let statement = parse_statement(it)?;
    proof {
        lemma_one(p0, p1);
        lemma_one(p1, p2);
        lemma_one(p3, p4);
        lemma_concat(p0, p1, p2);
        lemma_concat(p0, p2, p3);
        lemma_concat(p0, p3, p4);
        lemma_concat(p0, p4, *it);
        let head = seq![Token::While, Token::LeftParen] + expr_yield(condition) + seq![Token::RightParen];
        assert(p0.consumed(&p4) =~= head);
        lemma_split(head, p4.consumed(it));
    }
    let span = Span::union_span(begin_span.span, statement.span);
    Ok(WithSpan::new(Stmt::While(Box::new(condition), Box::new(statement)), span))
}

fn parse_if_statement(it: &mut Parser) -> (res: Result<WithSpan<Stmt>, ()>)
    requires
        old(it).wf(),
    ensures
        parsed_stmt(*old(it), *final(it), res),
    decreases old(it).spec_remaining(), 1nat,
{
    let ghost p0 = *it;
    let begin_token = it.expect(TokenKind::If)?;
    let ghost p1 = *it;
    it.expect(TokenKind::LeftParen)?;
    let ghost p2 = *it;
    let condition = parse_expr(it)?;
    let ghost p3 = *it;
    it.expect(TokenKind::RightParen)?;
    let ghost p4 = *it;
    let if_stmt = parse_statement(it)?;
    let ghost p5 = *it;
    let mut end_span = if_stmt.span;
    let mut else_stmt: Option<Box<WithSpan<Stmt>>> = None;
    let ghost head = seq![Token::If, Token::LeftParen] + expr_yield(condition) + seq![Token::RightParen];
    proof {
        lemma_one(p0, p1);
        lemma_one(p1, p2);
        lemma_one(p3, p4);
        lemma_concat(p0, p1, p2);
        lemma_concat(p0, p2, p3);
        lemma_concat(p0, p3, p4);
        lemma_concat(p0, p4, p5);
        assert(p0.consumed(&p4) =~= head);
    }

    if it.optionally(TokenKind::Else)? {
        let ghost p6 = *it;
        let stmt = parse_statement(it)?;
        proof {
            crate::token::lemma_plain_kind(p5.spec_current().value);
            lemma_one(p5, p6);
            lemma_concat(p0, p5, p6);
            lemma_concat(p0, p6, *it);
            let t = p0.consumed(it);
            let k: int = head.len() as int + p4.consumed(&p5).len() as int;
            assert(t.take(k).skip(head.len() as int) =~= p4.consumed(&p5));
            assert(t.skip(k + 1) =~= p6.consumed(it));
            assert(t.take(head.len() as int) =~= head);
            assert(t[k] == Token::Else);
        }
        end_span = stmt.span;
        else_stmt = Some(Box::new(stmt));
    } else {
        proof {
            lemma_none(p5);
            assert(p0.consumed(it) =~= p0.consumed(&p5));
            lemma_split(head, p4.consumed(&p5));
        }
    }

    Ok(WithSpan::new(Stmt::If(Box::new(condition), Box::new(if_stmt), else_stmt),
        Span::union_span(begin_token.span, end_span)))
}

fn parse_print_statement(it: &mut Parser) -> (res: Result<WithSpan<Stmt>, ()>)
    requires
        old(it).wf(),
    ensures
        tok_at(old(it).spec_tokens(), old(it).spec_cursor()).value == Token::Print
            && simple_stmt_len(old(it).spec_tokens(), old(it).spec_cursor()) > 0 ==> parsed_simple(*old(it), *final(it), res),
        parsed_stmt(*old(it), *final(it), res),
        res matches Ok(s) ==> s.value matches Stmt::Print(e) && old(it).consumed(final(it))
            == seq![Token::Print] + expr_yield(*e) + seq![Token::Semicolon],
{
    let ghost p0 = *it;
    let begin_token = it.expect(TokenKind::Print)?;
    let ghost p1 = *it;
    let expr = parse_expr(it)?;
    let ghost p2 = *it;
    let end_token = it.expect(TokenKind::Semicolon)?;
    proof {
        lemma_one(p0, p1);
        lemma_concat(p0, p1, p2);
        lemma_one(p2, *it);
        lemma_concat(p0, p2, *it);
    }
    Ok(WithSpan::new(Stmt::Print(Box::new(expr)), Span::union_span(begin_token.span, end_token.span)))
}

/// Parses a whole program.
pub fn parse(it: &mut Parser) -> (res: Result<Vec<WithSpan<Stmt>>, ()>)
    requires
        old(it).wf(),
    ensures
        simple_program_from(old(it).spec_tokens(), old(it).spec_cursor()) ==> res is Ok && final(it).spec_diagnostics() == old(it).spec_diagnostics()
            && (res matches Ok(ss) && simple_stmts_from(old(it).spec_tokens(), old(it).spec_cursor(), ss@)),
        parsed_any(*old(it), *final(it), res),
        res is Ok ==> final(it).spec_current().value == Token::Eof,
        res matches Ok(ss) ==> (final(it).spec_diagnostics().len() == old(it).spec_diagnostics().len()
            ==> stmts_text(ss@, old(it).consumed(final(it)))),
{
    parse_program(it)
}

proof fn lemma_split(a: Seq<Token>, b: Seq<Token>)
    ensures
        (a + b).take(a.len() as int) == a,
        (a + b).skip(a.len() as int) == b,
{
    assert((a + b).take(a.len() as int) =~= a);
    assert((a + b).skip(a.len() as int) =~= b);
}

proof fn lemma_stmts_push(ss: Seq<WithSpan<Stmt>>, s: WithSpan<Stmt>, a: Seq<Token>, b: Seq<Token>)
    requires
        stmts_text(ss, a),
        stmt_text(s, b),
    ensures
        stmts_text(ss.push(s), a + b),
{
    let t = a + b;
    lemma_split(a, b);
    assert(ss.push(s).drop_last() =~= ss);
    assert(ss.push(s).last() == s);
    let k = a.len() as int;
    assert(stmts_text(ss.push(s).drop_last(), t.take(k)));
    assert(stmt_text(ss.push(s).last(), t.skip(k)));
}

proof fn lemma_methods_push(ms: Seq<WithSpan<Stmt>>, s: WithSpan<Stmt>, a: Seq<Token>, b: Seq<Token>)
    requires
        methods_text(ms, a),
        function_text(s, b),
    ensures
        methods_text(ms.push(s), a + b),
{
    let t = a + b;
    lemma_split(a, b);
    assert(ms.push(s).drop_last() =~= ms);
    assert(ms.push(s).last() == s);
    let k = a.len() as int;
    assert(methods_text(ms.push(s).drop_last(), t.take(k)));
    assert(function_text(ms.push(s).last(), t.skip(k)));
}

proof fn lemma_loop_text(w: WithSpan<Stmt>, ct: Seq<Token>, it: Seq<Token>, bt: Seq<Token>)
    requires
        w.value matches Stmt::While(c, b) && cond_text(*c, ct)
            && ((it.len() == 0 && stmt_text(*b, bt)) || loop_body_text(*b, it, bt)),
    ensures
        loop_text(w, ct + seq![Token::Semicolon] + it + seq![Token::RightParen] + bt),
{
    let rest = ct + seq![Token::Semicolon] + it + seq![Token::RightParen] + bt;
    let i = ct.len() as int;
    let j = i + 1 + it.len();
    assert(rest.take(i) =~= ct);
    assert(rest.take(j).skip(i + 1) =~= it);
    assert(rest.skip(j + 1) =~= bt);
    assert(rest[i] == Token::Semicolon);
    assert(rest[j] == Token::RightParen);
}

proof fn lemma_for_no_init(s: WithSpan<Stmt>, rest: Seq<Token>)
    requires
        loop_text(s, rest),
    ensures
        stmt_text(s, seq![Token::For, Token::LeftParen, Token::Semicolon] + rest),
{
    let t = seq![Token::For, Token::LeftParen, Token::Semicolon] + rest;
    assert(t.take(3) =~= seq![Token::For, Token::LeftParen, Token::Semicolon]);
    assert(t.skip(3) =~= rest);
    assert(for_text(s, t));
}

proof fn lemma_for_init(s: WithSpan<Stmt>, init: Seq<Token>, rest: Seq<Token>)
    requires
        s.value matches Stmt::Block(v) && v@.len() == 2 && stmt_text(v@[0], init) && loop_text(v@[1], rest),
    ensures
        stmt_text(s, seq![Token::For, Token::LeftParen] + init + rest),
{
    let t = seq![Token::For, Token::LeftParen] + init + rest;
    let k: int = 2 + init.len() as int;
    assert(t.take(2) =~= seq![Token::For, Token::LeftParen]);
    assert(t.take(k).skip(2) =~= init);
    assert(t.skip(k) =~= rest);
    assert(for_text(s, t));
}

proof fn lemma_function_text_value(a: WithSpan<Stmt>, b: WithSpan<Stmt>, t: Seq<Token>)
    requires
        function_text(a, t),
        a.value == b.value,
    ensures
        function_text(b, t),
{
}

proof fn lemma_concat(a: Parser, b: Parser, c: Parser)
    requires
        a.advanced_to(&b),
        b.advanced_to(&c),
    ensures
        a.advanced_to(&c),
        a.consumed(&c) == a.consumed(&b) + b.consumed(&c),
{
    crate::expr_parser::lemma_consumed_concat(a, b, c);
}

proof fn lemma_one(a: Parser, b: Parser)
    requires
        a.advanced_to(&b),
        b.spec_cursor() == a.spec_cursor() + 1,
    ensures
        a.consumed(&b) == seq![a.spec_current().value],
{
    crate::expr_parser::lemma_consumed_one(a, b);
}

proof fn lemma_none(a: Parser)
    requires
        a.wf(),
    ensures
        a.advanced_to(&a),
        a.consumed(&a) == Seq::<Token>::empty(),
{
    crate::expr_parser::lemma_consumed_none(a);
}

} // verus!
