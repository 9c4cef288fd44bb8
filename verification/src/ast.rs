use vstd::prelude::*;
use crate::number::Number;
use crate::position::WithSpan;

verus! {

pub type Identifier = String;

/// A program: its statements in order.
pub type Ast = Vec<WithSpan<Stmt>>;

#[derive(Copy, Clone, Debug, PartialEq, Eq, Structural)]
pub enum UnaryOperator {
    Bang,
    Minus,
}

#[derive(Copy, Clone, Debug, PartialEq, Eq, Structural)]
pub enum BinaryOperator {
    Slash,
    Star,
    Plus,
    Minus,
    Greater,
    GreaterEqual,
    Less,
    LessEqual,
    BangEqual,
    EqualEqual,
}

#[derive(Copy, Clone, Debug, PartialEq, Eq, Structural)]
pub enum LogicalOperator {
    And,
    Or,
}

/// An expression.
#[derive(Debug, PartialEq)]
pub enum Expr {
    Binary(Box<WithSpan<Expr>>, WithSpan<BinaryOperator>, Box<WithSpan<Expr>>),
    Grouping(Box<WithSpan<Expr>>),
    Number(Number),
    Boolean(bool),
    Nil,
    This,
    Super(WithSpan<Identifier>),
    String(String),
    Unary(WithSpan<UnaryOperator>, Box<WithSpan<Expr>>),
    Variable(WithSpan<Identifier>),
    Logical(Box<WithSpan<Expr>>, WithSpan<LogicalOperator>, Box<WithSpan<Expr>>),
    Assign(WithSpan<Identifier>, Box<WithSpan<Expr>>),
    Call(Box<WithSpan<Expr>>, Vec<WithSpan<Expr>>),
    Get(Box<WithSpan<Expr>>, WithSpan<Identifier>),
    SetProperty(Box<WithSpan<Expr>>, WithSpan<Identifier>, Box<WithSpan<Expr>>),
    List(Vec<WithSpan<Expr>>),
    ListGet(Box<WithSpan<Expr>>, Box<WithSpan<Expr>>),
    ListSet(Box<WithSpan<Expr>>, Box<WithSpan<Expr>>, Box<WithSpan<Expr>>),
}

/// A statement.
#[derive(Debug, PartialEq)]
pub enum Stmt {
    Expression(Box<WithSpan<Expr>>),
    Print(Box<WithSpan<Expr>>),
    Var(WithSpan<Identifier>, Option<Box<WithSpan<Expr>>>),
    Block(Vec<WithSpan<Stmt>>),
    If(Box<WithSpan<Expr>>, Box<WithSpan<Stmt>>, Option<Box<WithSpan<Stmt>>>),
    While(Box<WithSpan<Expr>>, Box<WithSpan<Stmt>>),
    Function(WithSpan<Identifier>, Vec<WithSpan<Identifier>>, Vec<WithSpan<Stmt>>),
    Return(Option<Box<WithSpan<Expr>>>),
    Class(WithSpan<Identifier>, Option<WithSpan<Identifier>>, Vec<WithSpan<Stmt>>),
    Import(WithSpan<String>, Option<Vec<WithSpan<String>>>),
    Error,
}

} // verus!
