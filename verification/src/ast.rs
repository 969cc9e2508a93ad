//! The syntax tree.

use vstd::prelude::*;

use crate::token::{Literal, Token};

verus! {

/// A statement.
#[derive(Debug, PartialEq)]
pub enum Stmt {
    Expression(Expr),
    Assignment { name: Token, initializer: Expr },
    Block(Vec<Stmt>),
    If { condition: Expr, then_body: Box<Stmt>, else_body: Option<Box<Stmt>> },
    While { condition: Expr, body: Box<Stmt> },
    Function { name: Token, params: Vec<Token>, body: Vec<Stmt> },
    Class { name: Token, body: Vec<Stmt> },
    Return { keyword: Token, value: Option<Expr> },
    Pass,
    SetProperty { object: Expr, name: Token, value: Expr },
}

/// An expression.
#[derive(Debug, PartialEq)]
pub enum Expr {
    Literal(Literal),
    Grouping(Box<Expr>),
    Unary { operator: Token, right: Box<Expr> },
    Binary { left: Box<Expr>, operator: Token, right: Box<Expr> },
    Logical { left: Box<Expr>, operator: Token, right: Box<Expr> },
    Variable(Token),
    Call { callee: Box<Expr>, paren: Token, arguments: Vec<Expr> },
    Get { object: Box<Expr>, name: Token },
}

} // verus!
