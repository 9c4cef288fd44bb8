use vstd::prelude::*;
use crate::ast::{BinaryOperator, Expr, Identifier, LogicalOperator, UnaryOperator};
use crate::parser::{eof_token, expected_message, expected_text, token_values, unexpected_message, unexpected_text, Parser};
use crate::position::{Span, WithSpan};
use crate::token::{kind_name, token_kind, Token, TokenKind};

verus! {

/// How tightly an operator binds; a higher level binds tighter.
#[derive(Copy, Clone, Debug, PartialEq, Eq, Structural)]
pub enum Precedence {
    Lowest,
    Assign, // =
    Or,
    And,
    Equality,   // == !=
    Comparison, // < <= > >=
    Term,       // + -
    Factor,     // * /
    Unary,      // ! -
    Call,       // ()
    Primary,
}

pub open spec fn spec_level(p: Precedence) -> nat {
    match p {
        Precedence::Lowest => 0,
        Precedence::Assign => 1,
        Precedence::Or => 2,
        Precedence::And => 3,
        Precedence::Equality => 4,
        Precedence::Comparison => 5,
        Precedence::Term => 6,
        Precedence::Factor => 7,
        Precedence::Unary => 8,
        Precedence::Call => 9,
        Precedence::Primary => 10,
    }
}

/// The precedence of a token used as an infix operator.
pub open spec fn spec_precedence(token: TokenKind) -> Precedence {
    match token {
        TokenKind::Equal => Precedence::Assign,
        TokenKind::Or => Precedence::Or,
        TokenKind::And => Precedence::And,
        TokenKind::BangEqual | TokenKind::EqualEqual => Precedence::Equality,
        TokenKind::Less | TokenKind::LessEqual | TokenKind::Greater | TokenKind::GreaterEqual => Precedence::Comparison,
        TokenKind::Plus | TokenKind::Minus => Precedence::Term,
        TokenKind::Star | TokenKind::Slash => Precedence::Factor,
        TokenKind::Bang => Precedence::Unary,
        TokenKind::LeftParen => Precedence::Call,
        TokenKind::Dot => Precedence::Call,
        _ => Precedence::Lowest,
    }
}

impl Precedence {
    /// The precedence of a token used as an infix operator.
    pub fn from_kind(token: TokenKind) -> (res: Precedence)
        ensures
            res == spec_precedence(token),
    {
        match token {
            TokenKind::Equal => Precedence::Assign,
            TokenKind::Or => Precedence::Or,
            TokenKind::And => Precedence::And,
            TokenKind::BangEqual | TokenKind::EqualEqual => Precedence::Equality,
            TokenKind::Less | TokenKind::LessEqual | TokenKind::Greater | TokenKind::GreaterEqual => Precedence::Comparison,
            TokenKind::Plus | TokenKind::Minus => Precedence::Term,
            TokenKind::Star | TokenKind::Slash => Precedence::Factor,
            TokenKind::Bang => Precedence::Unary,
            TokenKind::LeftParen => Precedence::Call,
            TokenKind::Dot => Precedence::Call,
            _ => Precedence::Lowest,
        }
    }

    /// The level of the precedence.
    pub fn level(self) -> (res: u8)
        ensures
            res == spec_level(self),
    {
        match self {
            Precedence::Lowest => 0,
            Precedence::Assign => 1,
            Precedence::Or => 2,
            Precedence::And => 3,
            Precedence::Equality => 4,
            Precedence::Comparison => 5,
            Precedence::Term => 6,
            Precedence::Factor => 7,
            Precedence::Unary => 8,
            Precedence::Call => 9,
            Precedence::Primary => 10,
        }
    }
}

pub open spec fn unary_token(op: UnaryOperator) -> Token {
    match op {
        UnaryOperator::Bang => Token::Bang,
        UnaryOperator::Minus => Token::Minus,
    }
}

pub open spec fn binary_token(op: BinaryOperator) -> Token {
    match op {
        BinaryOperator::Slash => Token::Slash,
        BinaryOperator::Star => Token::Star,
        BinaryOperator::Plus => Token::Plus,
        BinaryOperator::Minus => Token::Minus,
        BinaryOperator::Greater => Token::Greater,
        BinaryOperator::GreaterEqual => Token::GreaterEqual,
        BinaryOperator::Less => Token::Less,
        BinaryOperator::LessEqual => Token::LessEqual,
        BinaryOperator::BangEqual => Token::BangEqual,
        BinaryOperator::EqualEqual => Token::EqualEqual,
    }
}

pub open spec fn logical_token(op: LogicalOperator) -> Token {
    match op {
        LogicalOperator::And => Token::And,
        LogicalOperator::Or => Token::Or,
    }
}

/// How tightly a binary operator binds: products over sums over
/// comparisons over equalities.
pub open spec fn binary_level(op: BinaryOperator) -> nat {
    match op {
        BinaryOperator::Star | BinaryOperator::Slash => spec_level(Precedence::Factor),
        BinaryOperator::Plus | BinaryOperator::Minus => spec_level(Precedence::Term),
        BinaryOperator::Less | BinaryOperator::LessEqual | BinaryOperator::Greater
        | BinaryOperator::GreaterEqual => spec_level(Precedence::Comparison),
        BinaryOperator::BangEqual | BinaryOperator::EqualEqual => spec_level(Precedence::Equality),
    }
}

/// How tightly a logical operator binds: `and` over `or`.
pub open spec fn logical_level(op: LogicalOperator) -> nat {
    match op {
        LogicalOperator::And => spec_level(Precedence::And),
        LogicalOperator::Or => spec_level(Precedence::Or),
    }
}

/// How tightly the outermost operator of `e` binds: the level of the infix
/// operator it was built around (assignment, `or`, `and`, a binary operator,
/// a call or a property), or 11, above every level, for an expression that
/// starts with its own operator or is a single term.
pub open spec fn infix_level(e: Expr) -> nat {
    match e {
        Expr::Binary(_, op, _) => binary_level(op.value),
        Expr::Logical(_, op, _) => logical_level(op.value),
        Expr::Assign(_, _) | Expr::SetProperty(_, _, _) => spec_level(Precedence::Assign),
        Expr::Call(_, _) | Expr::Get(_, _) => spec_level(Precedence::Call),
        _ => 11,
    }
}

/// Along its binary and logical operators, `e` is nested as precedence and
/// left associativity say: the left operand of an operator binds at least as
/// tightly as it, the right operand strictly more tightly.
pub open spec fn well_nested(e: Expr) -> bool
    decreases e,
{
    match e {
        Expr::Binary(l, op, r) => {
            &&& infix_level(l.value) >= binary_level(op.value)
            &&& infix_level(r.value) > binary_level(op.value)
            &&& well_nested(l.value)
            &&& well_nested(r.value)
        },
        Expr::Logical(l, op, r) => {
            &&& infix_level(l.value) >= logical_level(op.value)
            &&& infix_level(r.value) > logical_level(op.value)
            &&& well_nested(l.value)
            &&& well_nested(r.value)
        },
        _ => true,
    }
}

/// In a well-nested expression an operator never has, as its right operand,
/// an operator that binds no more tightly, nor, as its left operand, one
/// that binds less tightly: `a / b / c` and `a / b * c` nest to the left,
/// `a + b * c` keeps the product on the right, and `a * b + c` keeps it on
/// the left.
pub proof fn law_binary_nesting(e: Expr)
    requires
        well_nested(e),
    ensures
        e matches Expr::Binary(l, op, r) ==> {
            &&& (r.value matches Expr::Binary(_, op2, _) ==> binary_level(op2.value) > binary_level(op.value))
            &&& (l.value matches Expr::Binary(_, op3, _) ==> binary_level(op3.value) >= binary_level(op.value))
            &&& (r.value matches Expr::Logical(_, _, _) ==> false)
            &&& (l.value matches Expr::Logical(_, _, _) ==> false)
        },
{
}

/// The level of the token under the cursor, read as an infix operator.
pub open spec fn next_level(it: Parser) -> nat {
    spec_level(spec_precedence(token_kind(it.spec_current().value)))
}

/// The tokens an expression is written with, in order: the expression is a
/// parse of exactly these tokens.  (The list forms have no token syntax.)
pub open spec fn expr_yield(e: WithSpan<Expr>) -> Seq<Token>
    decreases e,
{
    match e.value {
        Expr::Binary(l, op, r) => expr_yield(*l) + seq![binary_token(op.value)] + expr_yield(*r),
        Expr::Grouping(x) => seq![Token::LeftParen] + expr_yield(*x) + seq![Token::RightParen],
        Expr::Number(n) => seq![Token::Number(n)],
        Expr::Boolean(b) => if b { seq![Token::True] } else { seq![Token::False] },
        Expr::Nil => seq![Token::Nil],
        Expr::This => seq![Token::This],
        Expr::Super(name) => seq![Token::Super, Token::Dot, Token::Identifier(name.value)],
        Expr::String(s) => seq![Token::String(s)],
        Expr::Unary(op, r) => seq![unary_token(op.value)] + expr_yield(*r),
        Expr::Variable(v) => seq![Token::Identifier(v.value)],
        Expr::Logical(l, op, r) => expr_yield(*l) + seq![logical_token(op.value)] + expr_yield(*r),
        Expr::Assign(name, r) => seq![Token::Identifier(name.value), Token::Equal] + expr_yield(*r),
        Expr::Call(f, args) => expr_yield(*f) + seq![Token::LeftParen] + args_yield(args@) + seq![Token::RightParen],
        Expr::Get(obj, name) => expr_yield(*obj) + seq![Token::Dot, Token::Identifier(name.value)],
        Expr::SetProperty(obj, name, r) => expr_yield(*obj) + seq![Token::Dot, Token::Identifier(name.value), Token::Equal]
            + expr_yield(*r),
        _ => Seq::empty(),
    }
}

/// The tokens of call arguments: the arguments separated by commas.
pub open spec fn args_yield(args: Seq<WithSpan<Expr>>) -> Seq<Token>
    decreases args,
{
    if args.len() == 0 {
        Seq::empty()
    } else if args.len() == 1 {
        expr_yield(args[0])
    } else {
        args_yield(args.drop_last()) + seq![Token::Comma] + expr_yield(args.last())
    }
}


/// A token that is an expression on its own: a literal, `this` or a name.
pub open spec fn is_atom(t: Token) -> bool {
    match t {
        Token::Nil | Token::This | Token::Number(_) | Token::True | Token::False | Token::String(_)
        | Token::Identifier(_) => true,
        _ => false,
    }
}

/// The expression an atom token stands for, with the token's span.
pub open spec fn atom_expr(t: WithSpan<Token>) -> WithSpan<Expr> {
    WithSpan {
        span: t.span,
        value: match t.value {
            Token::This => Expr::This,
            Token::Number(n) => Expr::Number(n),
            Token::True => Expr::Boolean(true),
            Token::False => Expr::Boolean(false),
            Token::String(s) => Expr::String(s),
            Token::Identifier(s) => Expr::Variable(WithSpan { span: t.span, value: s }),
            _ => Expr::Nil,
        },
    }
}

/// The parser stands on an atom that no operator binding tighter than `p`
/// follows.
pub open spec fn atom_at(it: Parser, p: Precedence) -> bool {
    &&& is_atom(it.spec_current().value)
    &&& spec_level(spec_precedence(token_kind(it.spec_token_at(it.spec_cursor() + 1).value))) <= spec_level(p)
}

/// The parse read the atom under the cursor of `before`, and nothing else,
/// without a diagnostic.
pub open spec fn parsed_atom(before: Parser, after: Parser, res: Result<WithSpan<Expr>, ()>) -> bool {
    &&& res == Ok::<WithSpan<Expr>, ()>(atom_expr(before.spec_current()))
    &&& after.spec_cursor() == before.spec_cursor() + 1
    &&& after.spec_diagnostics() == before.spec_diagnostics()
}

/// The result of one parsing step from `before` to `after`: the parser only
/// moved forward; a success consumed at least one token and its expression
/// is written with `prefix` followed by the tokens consumed; a failure added
/// a diagnostic.
pub open spec fn parsed_expr(before: Parser, after: Parser, res: Result<WithSpan<Expr>, ()>, prefix: Seq<Token>) -> bool {
    &&& before.advanced_to(&after)
    &&& (res matches Ok(e) ==> expr_yield(e) == prefix + before.consumed(&after) && before.spec_cursor() < after.spec_cursor())
    &&& (res is Err ==> before.spec_diagnostics().len() < after.spec_diagnostics().len())
}

pub(crate) proof fn lemma_consumed_concat(a: Parser, b: Parser, c: Parser)
    requires
        a.advanced_to(&b),
        b.advanced_to(&c),
    ensures
        a.advanced_to(&c),
        a.consumed(&c) == a.consumed(&b) + b.consumed(&c),
{
    let t = token_values(a.spec_tokens());
    assert(t.len() == a.spec_tokens().len());

    assert(t.subrange(a.spec_cursor(), c.spec_cursor()) =~= t.subrange(a.spec_cursor(), b.spec_cursor())
        + t.subrange(b.spec_cursor(), c.spec_cursor()));
    let da = a.spec_diagnostics();
    let db = b.spec_diagnostics();
    let dc = c.spec_diagnostics();
    assert(dc.subrange(0, da.len() as int) =~= dc.subrange(0, db.len() as int).subrange(0, da.len() as int));
}

pub(crate) proof fn lemma_consumed_one(a: Parser, b: Parser)
    requires
        a.advanced_to(&b),
        b.spec_cursor() == a.spec_cursor() + 1,
    ensures
        a.consumed(&b) == seq![a.spec_current().value],
{
    let t = token_values(a.spec_tokens());
    assert(a.consumed(&b) =~= seq![t[a.spec_cursor()]]);
}

pub(crate) proof fn lemma_consumed_none(a: Parser)
    requires
        a.wf(),
    ensures
        a.advanced_to(&a),
        a.consumed(&a) == Seq::<Token>::empty(),
{
    assert(a.consumed(&a) =~= Seq::<Token>::empty());
    assert(a.spec_diagnostics().subrange(0, a.spec_diagnostics().len() as int) =~= a.spec_diagnostics());
}

/// Parses an expression whose operators bind tighter than `precedence`.
fn parse_expr(it: &mut Parser, precedence: Precedence) -> (res: Result<WithSpan<Expr>, ()>)
    requires
        old(it).wf(),
    ensures
        res matches Ok(e) ==> well_nested(e.value) && infix_level(e.value) > spec_level(precedence)
            && next_level(*final(it)) <= spec_level(precedence),
        parsed_expr(*old(it), *final(it), res, Seq::empty()),
        atom_at(*old(it), precedence) ==> parsed_atom(*old(it), *final(it), res),
    decreases old(it).spec_remaining(), 3nat,
{
    let mut expr = parse_prefix(it)?;
    let ghost start = *old(it);
    while !it.is_eof()
        invariant
            start == *old(it),
            start.advanced_to(it),
            start.spec_cursor() < it.spec_cursor(),
            expr_yield(expr) == start.consumed(it),
            atom_at(start, precedence) ==> parsed_atom(start, *it, Ok::<WithSpan<Expr>, ()>(expr)),
            well_nested(expr.value),
            infix_level(expr.value) > spec_level(precedence),
            next_level(*it) <= infix_level(expr.value),
        ensures
            next_level(*it) <= spec_level(precedence),
        decreases it.spec_remaining(),
    {
        let next_precedence = Precedence::from_kind(it.peek());
        if precedence.level() >= next_precedence.level() {
            break;
        }
        let ghost mid = *it;
        expr = parse_infix(it, expr)?;
        proof { lemma_consumed_concat(start, mid, *it); }
    }
    Ok(expr)
}

fn parse_infix(it: &mut Parser, left: WithSpan<Expr>) -> (res: Result<WithSpan<Expr>, ()>)
    requires
        old(it).wf(),
    ensures
        well_nested(left.value) && next_level(*old(it)) <= infix_level(left.value) ==> (res matches Ok(e)
            ==> well_nested(e.value) && infix_level(e.value) == next_level(*old(it))
                && next_level(*final(it)) <= infix_level(e.value)),
        parsed_expr(*old(it), *final(it), res, expr_yield(left)),
    decreases old(it).spec_remaining(), 2nat,
{
    match it.peek() {
        TokenKind::BangEqual
        | TokenKind::EqualEqual
        | TokenKind::Less
        | TokenKind::LessEqual
        | TokenKind::Greater
        | TokenKind::GreaterEqual
        | TokenKind::Plus
        | TokenKind::Minus
        | TokenKind::Star
        | TokenKind::Slash => parse_binary(it, left),
        TokenKind::Or | TokenKind::And => parse_logical(it, left),
        TokenKind::Equal => parse_assign(it, left),
        TokenKind::LeftParen => parse_call(it, left),
        TokenKind::Dot => parse_get(it, left),
        _ => {
            let message = unexpected_text(&it.peek_token().value);
            let span = it.peek_token().span;
            it.error(message.as_str(), span);
            Err(())
        },
    }
}

fn parse_prefix(it: &mut Parser) -> (res: Result<WithSpan<Expr>, ()>)
    requires
        old(it).wf(),
    ensures
        res matches Ok(e) ==> infix_level(e.value) == 11,
        parsed_expr(*old(it), *final(it), res, Seq::empty()),
        is_atom(old(it).spec_current().value) ==> parsed_atom(*old(it), *final(it), res),
    decreases old(it).spec_remaining(), 2nat,
{
    match it.peek() {
        TokenKind::Number
        | TokenKind::Nil
        | TokenKind::This
        | TokenKind::True
        | TokenKind::False
        | TokenKind::Identifier
        | TokenKind::Super
        | TokenKind::String => parse_primary(it),
        TokenKind::Bang | TokenKind::Minus => parse_unary(it),
        TokenKind::LeftParen => parse_grouping(it),
        _ => {
            let message = unexpected_text(&it.peek_token().value);
            let span = it.peek_token().span;
            it.error(message.as_str(), span);
            Err(())
        },
    }
}

fn parse_get(it: &mut Parser, left: WithSpan<Expr>) -> (res: Result<WithSpan<Expr>, ()>)
    requires
        old(it).wf(),
    ensures
        well_nested(left.value) && next_level(*old(it)) <= infix_level(left.value) ==> (res matches Ok(e)
            ==> well_nested(e.value) && infix_level(e.value) == next_level(*old(it))
                && next_level(*final(it)) <= infix_level(e.value)),
        parsed_expr(*old(it), *final(it), res, expr_yield(left)),
    decreases old(it).spec_remaining(), 1nat,
{
    let ghost p0 = *it;
    it.expect(TokenKind::Dot)?;
    let ghost p1 = *it;
    let tc = it.advance();
    match tc.value {
        Token::Identifier(i) => {
            let span = Span::union_span(left.span, tc.span);
            proof {
                lemma_consumed_one(p0, p1);
                assert(p1.spec_cursor() < p1.spec_tokens().len());
                lemma_consumed_one(p1, *it);
                lemma_consumed_concat(p0, p1, *it);
            }
            let ghost lg = left;
            let res = WithSpan::new(Expr::Get(Box::new(left), WithSpan::new(i, tc.span)), span);
            assert(expr_yield(lg) + p0.consumed(it) =~= expr_yield(res));
            Ok(res)
        },
        other => {
            let message = expected_text("identifier", &other);
            it.error(message.as_str(), tc.span);
            Err(())
        },
    }
}

fn parse_call(it: &mut Parser, left: WithSpan<Expr>) -> (res: Result<WithSpan<Expr>, ()>)
    requires
        old(it).wf(),
    ensures
        well_nested(left.value) && next_level(*old(it)) <= infix_level(left.value) ==> (res matches Ok(e)
            ==> well_nested(e.value) && infix_level(e.value) == next_level(*old(it))
                && next_level(*final(it)) <= infix_level(e.value)),
        parsed_expr(*old(it), *final(it), res, expr_yield(left)),
    decreases old(it).spec_remaining(), 1nat,
{
    let ghost p0 = *it;
    it.expect(TokenKind::LeftParen)?;
    let ghost p1 = *it;
    let args = parse_arguments(it)?;
    let ghost p2 = *it;
    let most_right = it.expect(TokenKind::RightParen)?;
    let span = Span::union_span(left.span, most_right.span);
    proof {
        lemma_consumed_one(p0, p1);
        lemma_consumed_concat(p0, p1, p2);
        lemma_consumed_one(p2, *it);
        lemma_consumed_concat(p0, p2, *it);
    }
    let ghost lg = left;
    let res = WithSpan::new(Expr::Call(Box::new(left), args), span);
    assert(expr_yield(lg) + p0.consumed(it) =~= expr_yield(res));
    Ok(res)
}

fn parse_arguments(it: &mut Parser) -> (res: Result<Vec<WithSpan<Expr>>, ()>)
    requires
        old(it).wf(),
    ensures
        old(it).advanced_to(final(it)),
        res matches Ok(args) ==> args_yield(args@) == old(it).consumed(final(it)),
        res matches Ok(args) ==> (args@.len() == 0 <==> token_kind(old(it).spec_current().value) == TokenKind::RightParen),
        res is Ok ==> token_kind(final(it).spec_current().value) != TokenKind::Comma,
        res is Err ==> old(it).spec_diagnostics().len() < final(it).spec_diagnostics().len(),
    decreases old(it).spec_remaining(), 4nat,
{
    let ghost p0 = *it;
    let mut args: Vec<WithSpan<Expr>> = Vec::new();
    if !it.check(TokenKind::RightParen) {
        args.push(parse_expr(it, Precedence::Lowest)?);
        while it.check(TokenKind::Comma)
            invariant
                p0 == *old(it),
                p0.advanced_to(it),
                p0.spec_cursor() < it.spec_cursor(),
                args@.len() >= 1,
                args_yield(args@) == p0.consumed(it),
            decreases it.spec_remaining(),
        {
            let ghost p1 = *it;
            it.expect(TokenKind::Comma)?;
            let ghost p2 = *it;
            let e = parse_expr(it, Precedence::Lowest)?;
            proof {
                lemma_consumed_one(p1, p2);
                lemma_consumed_concat(p1, p2, *it);
                lemma_consumed_concat(p0, p1, *it);
                assert(args@.push(e).drop_last() =~= args@);
            }
            args.push(e);
        }
    } else {
        proof { lemma_consumed_none(p0); }
    }
    Ok(args)
}

fn parse_assign(it: &mut Parser, left: WithSpan<Expr>) -> (res: Result<WithSpan<Expr>, ()>)
    requires
        old(it).wf(),
    ensures
        well_nested(left.value) && next_level(*old(it)) <= infix_level(left.value) ==> (res matches Ok(e)
            ==> well_nested(e.value) && infix_level(e.value) == next_level(*old(it))
                && next_level(*final(it)) <= infix_level(e.value)),
        parsed_expr(*old(it), *final(it), res, expr_yield(left)),
    decreases old(it).spec_remaining(), 1nat,
{
    let ghost p0 = *it;
    it.expect(TokenKind::Equal)?;
    let ghost p1 = *it;
    let right = parse_expr(it, Precedence::Lowest)?;
    let span = Span::union_span(left.span, right.span);
    proof {
        lemma_consumed_one(p0, p1);
        lemma_consumed_concat(p0, p1, *it);
    }
    let left_span = left.span;
    let ghost lg = left;
    match left.value {
        Expr::Variable(i) => {
            let res = WithSpan::new(Expr::Assign(i, Box::new(right)), span);
            assert(expr_yield(lg) + p0.consumed(it) =~= expr_yield(res));
            Ok(res)
        },
        Expr::Get(l, i) => {
            let res = WithSpan::new(Expr::SetProperty(l, i, Box::new(right)), span);
            assert(expr_yield(lg) + p0.consumed(it) =~= expr_yield(res));
            Ok(res)
        },
        _ => {
            it.error("Invalid left value", left_span);
            Err(())
        },
    }
}

fn parse_logical(it: &mut Parser, left: WithSpan<Expr>) -> (res: Result<WithSpan<Expr>, ()>)
    requires
        old(it).wf(),
    ensures
        well_nested(left.value) && next_level(*old(it)) <= infix_level(left.value) ==> (res matches Ok(e)
            ==> well_nested(e.value) && infix_level(e.value) == next_level(*old(it))
                && next_level(*final(it)) <= infix_level(e.value)),
        parsed_expr(*old(it), *final(it), res, expr_yield(left)),
    decreases old(it).spec_remaining(), 1nat,
{
    let ghost p0 = *it;
    let precedence = Precedence::from_kind(it.peek());
    let operator = parse_logical_op(it)?;
    let ghost p1 = *it;
    let right = parse_expr(it, precedence)?;
    let span = Span::union_span(left.span, right.span);
    proof {
        lemma_consumed_one(p0, p1);
        lemma_consumed_concat(p0, p1, *it);
    }
    let ghost lg = left;
    let res = WithSpan::new(Expr::Logical(Box::new(left), operator, Box::new(right)), span);
    assert(expr_yield(lg) + p0.consumed(it) =~= expr_yield(res));
    Ok(res)
}

fn parse_grouping(it: &mut Parser) -> (res: Result<WithSpan<Expr>, ()>)
    requires
        old(it).wf(),
    ensures
        res matches Ok(e) ==> infix_level(e.value) == 11,
        parsed_expr(*old(it), *final(it), res, Seq::empty()),
    decreases old(it).spec_remaining(), 1nat,
{
    let ghost p0 = *it;
    let left_paren = it.expect(TokenKind::LeftParen)?;
    let ghost p1 = *it;
    let expr = parse_expr(it, Precedence::Lowest)?;
    let ghost p2 = *it;
    let right_paren = it.expect(TokenKind::RightParen)?;
    let span = Span::union_span(left_paren.span, right_paren.span);
    proof {
        lemma_consumed_one(p0, p1);
        lemma_consumed_concat(p0, p1, p2);
        lemma_consumed_one(p2, *it);
        lemma_consumed_concat(p0, p2, *it);
    }
    let res = WithSpan::new(Expr::Grouping(Box::new(expr)), span);
    assert(Seq::<Token>::empty() + p0.consumed(it) =~= expr_yield(res));
    Ok(res)
}

fn parse_binary(it: &mut Parser, left: WithSpan<Expr>) -> (res: Result<WithSpan<Expr>, ()>)
    requires
        old(it).wf(),
    ensures
        res matches Ok(e) ==> (e.value matches Expr::Binary(l, op, r) && *l == left
            && infix_level(r.value) > binary_level(op.value)
            && e.span == crate::position::span_union(left.span, r.span)),
        well_nested(left.value) && next_level(*old(it)) <= infix_level(left.value) ==> (res matches Ok(e)
            ==> well_nested(e.value) && infix_level(e.value) == next_level(*old(it))
                && next_level(*final(it)) <= infix_level(e.value)),
        parsed_expr(*old(it), *final(it), res, expr_yield(left)),
    decreases old(it).spec_remaining(), 1nat,
{
    let ghost p0 = *it;
    let precedence = Precedence::from_kind(it.peek());
    let operator = parse_binary_op(it)?;
    let ghost p1 = *it;
    let right = parse_expr(it, precedence)?;
    let span = Span::union_span(left.span, right.span);
    proof {
        lemma_consumed_one(p0, p1);
        lemma_consumed_concat(p0, p1, *it);
    }
    let ghost lg = left;
    let res = WithSpan::new(Expr::Binary(Box::new(left), operator, Box::new(right)), span);
    assert(expr_yield(lg) + p0.consumed(it) =~= expr_yield(res));
    Ok(res)
}

fn parse_unary(it: &mut Parser) -> (res: Result<WithSpan<Expr>, ()>)
    requires
        old(it).wf(),
    ensures
        res matches Ok(e) ==> infix_level(e.value) == 11,
        parsed_expr(*old(it), *final(it), res, Seq::empty()),
    decreases old(it).spec_remaining(), 1nat,
{
    let ghost p0 = *it;
    let operator = parse_unary_op(it)?;
    let ghost p1 = *it;
    let right = parse_expr(it, Precedence::Unary)?;
    let span = Span::union_span(operator.span, right.span);
    proof {
        lemma_consumed_one(p0, p1);
        lemma_consumed_concat(p0, p1, *it);
    }
    let res = WithSpan::new(Expr::Unary(operator, Box::new(right)), span);
    assert(Seq::<Token>::empty() + p0.consumed(it) =~= expr_yield(res));
    Ok(res)
}

/// The result of reading one operator token.
pub open spec fn parsed_op<T>(before: Parser, after: Parser, res: Result<WithSpan<T>, ()>, token: spec_fn(T) -> Token) -> bool {
    &&& before.advanced_to(&after)
    &&& (res matches Ok(op) ==> token(op.value) == before.spec_current().value
        && after.spec_cursor() == before.spec_cursor() + 1
        && op.span == before.spec_current().span
        && after.spec_diagnostics() == before.spec_diagnostics())
    &&& (res is Err ==> before.spec_diagnostics().len() < after.spec_diagnostics().len())
}

fn parse_logical_op(it: &mut Parser) -> (res: Result<WithSpan<LogicalOperator>, ()>)
    requires
        old(it).wf(),
    ensures
        parsed_op(*old(it), *final(it), res, |op: LogicalOperator| logical_token(op)),
{
    let tc = it.advance();
    let operator = match tc.value {
        Token::And => LogicalOperator::And,
        Token::Or => LogicalOperator::Or,
        _ => {
            let message = expected_text("logical operator", &tc.value);
            it.error(message.as_str(), tc.span);
            return Err(());
        },
    };
    assert(it.spec_diagnostics().subrange(0, old(it).spec_diagnostics().len() as int) =~= old(it).spec_diagnostics());
    Ok(WithSpan::new(operator, tc.span))
}

fn parse_unary_op(it: &mut Parser) -> (res: Result<WithSpan<UnaryOperator>, ()>)
    requires
        old(it).wf(),
    ensures
        parsed_op(*old(it), *final(it), res, |op: UnaryOperator| unary_token(op)),
{
    let tc = it.advance();
    assert(it.spec_diagnostics().subrange(0, old(it).spec_diagnostics().len() as int) =~= old(it).spec_diagnostics());
    match tc.value {
        Token::Bang => Ok(WithSpan::new(UnaryOperator::Bang, tc.span)),
        Token::Minus => Ok(WithSpan::new(UnaryOperator::Minus, tc.span)),
        _ => {
            let message = expected_text("unary operator", &tc.value);
            it.error(message.as_str(), tc.span);
            Err(())
        },
    }
}

fn parse_binary_op(it: &mut Parser) -> (res: Result<WithSpan<BinaryOperator>, ()>)
    requires
        old(it).wf(),
    ensures
        parsed_op(*old(it), *final(it), res, |op: BinaryOperator| binary_token(op)),
{
    let tc = it.advance();
    let operator = match tc.value {
        Token::BangEqual => BinaryOperator::BangEqual,
        Token::EqualEqual => BinaryOperator::EqualEqual,
        Token::Less => BinaryOperator::Less,
        Token::LessEqual => BinaryOperator::LessEqual,
        Token::Greater => BinaryOperator::Greater,
        Token::GreaterEqual => BinaryOperator::GreaterEqual,
        Token::Plus => BinaryOperator::Plus,
        Token::Minus => BinaryOperator::Minus,
        Token::Star => BinaryOperator::Star,
        Token::Slash => BinaryOperator::Slash,
        _ => {
            let message = expected_text("binary operator", &tc.value);
            it.error(message.as_str(), tc.span);
            return Err(());
        },
    };
    assert(it.spec_diagnostics().subrange(0, old(it).spec_diagnostics().len() as int) =~= old(it).spec_diagnostics());
    Ok(WithSpan::new(operator, tc.span))
}

fn parse_primary(it: &mut Parser) -> (res: Result<WithSpan<Expr>, ()>)
    requires
        old(it).wf(),
    ensures
        res matches Ok(e) ==> infix_level(e.value) == 11,
        parsed_expr(*old(it), *final(it), res, Seq::empty()),
        is_atom(old(it).spec_current().value) ==> parsed_atom(*old(it), *final(it), res),
    decreases old(it).spec_remaining(), 1nat,
{
    let ghost p0 = *it;
    let tc = it.advance();
    let ghost p1 = *it;
    proof {
        assert(it.spec_diagnostics().subrange(0, p0.spec_diagnostics().len() as int) =~= p0.spec_diagnostics());
        if p0.spec_cursor() < p0.spec_tokens().len() {
            lemma_consumed_one(p0, p1);
        }
    }
    match tc.value {
        Token::Nil => Ok(WithSpan::new(Expr::Nil, tc.span)),
        Token::This => Ok(WithSpan::new(Expr::This, tc.span)),
        Token::Number(n) => Ok(WithSpan::new(Expr::Number(n), tc.span)),
        Token::True => Ok(WithSpan::new(Expr::Boolean(true), tc.span)),
        Token::False => Ok(WithSpan::new(Expr::Boolean(false), tc.span)),
        Token::String(s) => Ok(WithSpan::new(Expr::String(s), tc.span)),
        Token::Identifier(s) => Ok(WithSpan::new(Expr::Variable(WithSpan::new(s, tc.span)), tc.span)),
        Token::Super => {
            let r = parse_super(it, tc.span);
            proof {
                if r is Ok {
                    lemma_consumed_concat(p0, p1, *it);
                }
            }
            r
        },
        other => {
            let message = expected_text("primary", &other);
            it.error(message.as_str(), tc.span);
            Err(())
        },
    }
}

fn parse_super(it: &mut Parser, keyword: Span) -> (res: Result<WithSpan<Expr>, ()>)
    requires
        old(it).wf(),
    ensures
        res matches Ok(e) ==> infix_level(e.value) == 11,
        parsed_expr(*old(it), *final(it), res, seq![Token::Super]),
{
    let ghost p0 = *it;
    it.expect(TokenKind::Dot)?;
    let ghost p1 = *it;
    let name = expect_identifier(it)?;
    let span = Span::union_span(keyword, name.span);
    proof {
        lemma_consumed_one(p0, p1);
        lemma_consumed_one(p1, *it);
        lemma_consumed_concat(p0, p1, *it);
        assert(p0.advanced_to(it));
        assert(p0.consumed(it) == seq![Token::Dot, Token::Identifier(name.value)]);
        assert(p0.spec_cursor() < it.spec_cursor());
        let e = WithSpan { span, value: Expr::Super(name) };
        assert(expr_yield(e) == seq![Token::Super, Token::Dot, Token::Identifier(name.value)]);
        assert(seq![Token::Super] + p0.consumed(it) =~= expr_yield(e));
    }
    Ok(WithSpan::new(Expr::Super(name), span))
}

/// Consumes an identifier; anything else is reported.
pub fn expect_identifier(p: &mut Parser) -> (res: Result<WithSpan<Identifier>, ()>)
    requires
        old(p).wf(),
    ensures
        old(p).advanced_to(final(p)),
        res matches Ok(id) ==> old(p).spec_current().value == Token::Identifier(id.value)
            && id.span == old(p).spec_current().span
            && final(p).spec_cursor() == old(p).spec_cursor() + 1
            && final(p).spec_diagnostics() == old(p).spec_diagnostics(),
        res is Err ==> old(p).spec_diagnostics().len() < final(p).spec_diagnostics().len()
            && final(p).spec_diagnostics().last().message@ == expected_message(kind_name(TokenKind::Identifier), old(p).spec_current().value),
{
    let token = p.advance();
    match token.value {
        Token::Identifier(ident) => {
            assert(p.spec_diagnostics().subrange(0, old(p).spec_diagnostics().len() as int) =~= old(p).spec_diagnostics());
            Ok(WithSpan::new(ident, token.span))
        },
        other => {
            let message = expected_text(TokenKind::Identifier.name(), &other);
            p.error(message.as_str(), token.span);
            Err(())
        },
    }
}

/// Consumes a string literal; anything else is reported.
pub fn expect_string(p: &mut Parser) -> (res: Result<WithSpan<String>, ()>)
    requires
        old(p).wf(),
    ensures
        old(p).advanced_to(final(p)),
        res matches Ok(id) ==> old(p).spec_current().value == Token::String(id.value)
            && id.span == old(p).spec_current().span
            && final(p).spec_cursor() == old(p).spec_cursor() + 1
            && final(p).spec_diagnostics() == old(p).spec_diagnostics(),
        res is Err ==> old(p).spec_diagnostics().len() < final(p).spec_diagnostics().len()
            && final(p).spec_diagnostics().last().message@ == expected_message(kind_name(TokenKind::String), old(p).spec_current().value),
{
    let token = p.advance();
    match token.value {
        Token::String(s) => {
            assert(p.spec_diagnostics().subrange(0, old(p).spec_diagnostics().len() as int) =~= old(p).spec_diagnostics());
            Ok(WithSpan::new(s, token.span))
        },
        other => {
            let message = expected_text(TokenKind::String.name(), &other);
            p.error(message.as_str(), token.span);
            Err(())
        },
    }
}

/// Parses one expression at the cursor.  An atom that no operator follows
/// is read on its own.
pub fn parse(it: &mut Parser) -> (res: Result<WithSpan<Expr>, ()>)
    requires
        old(it).wf(),
    ensures
        res matches Ok(e) ==> well_nested(e.value),
        parsed_expr(*old(it), *final(it), res, Seq::empty()),
        atom_at(*old(it), Precedence::Lowest) ==> parsed_atom(*old(it), *final(it), res),
{
    parse_expr(it, Precedence::Lowest)
}

} // verus!
