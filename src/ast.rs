//! The syntax tree, and the token sequence that each expression is written as.
use vstd::prelude::*;
use crate::tokens::{Token, TokenType};
use std::rc::Rc;

verus! {

/// A whole program: its top-level statements in order.
#[derive(Debug)]
pub struct Program {
    pub statements: Vec<Statement>,
}

#[derive(Debug)]
pub enum Statement {
    Expression(Expression),
    Print(Expression),
    Declaration(Declaration),
    Function(Rc<Function>),
    Block(Block),
    Conditional(Conditional),
    Iteration(Iteration),
    Return(Expression),
}

/// `var name = value;`
#[derive(Debug)]
pub struct Declaration {
    pub name: String,
    pub value: Option<Expression>,
}

/// `fun name(params) body`; the body is a block.
#[derive(Debug)]
pub struct Function {
    pub name: String,
    pub params: Vec<String>,
    pub body: Box<Statement>,
}

#[derive(Debug)]
pub struct Block {
    pub statements: Vec<Statement>,
}

/// `if (cond) success else failure`
#[derive(Debug)]
pub struct Conditional {
    pub cond: Expression,
    pub success: Box<Statement>,
    pub failure: Option<Box<Statement>>,
}

/// `while (cond) body`
#[derive(Debug)]
pub struct Iteration {
    pub cond: Expression,
    pub body: Box<Statement>,
}

#[derive(Debug)]
pub enum Expression {
    Literal(Literal),
    Unary(Unary),
    Binary(Binary),
    Logical(Logical),
    Grouping(Box<Expression>),
    Assignment(Assignment),
    Call(Call),
}

#[derive(Debug)]
pub enum Literal {
    Variable(String),
    Primary(Primary),
}

/// A constant written in the program. A number is kept as the digits it was
/// written with.
#[derive(Debug)]
pub enum Primary {
    Number(String),
    String(String),
    Boolean(bool),
    Nil,
}

#[derive(Debug)]
pub struct Unary {
    pub op: UnaryOp,
    pub expression: Box<Expression>,
}

#[derive(Debug)]
pub struct Binary {
    pub op: BinaryOp,
    pub left: Box<Expression>,
    pub right: Box<Expression>,
}

#[derive(Debug)]
pub struct Logical {
    pub op: LogicalOp,
    pub left: Box<Expression>,
    pub right: Box<Expression>,
}

#[derive(Debug)]
pub struct Assignment {
    pub variable: String,
    pub value: Box<Expression>,
}

#[derive(Debug, Clone, Copy, PartialEq, Eq, Structural)]
pub enum UnaryOp {
    Not,
    Minus,
}

#[derive(Debug, Clone, Copy, PartialEq, Eq, Structural)]
pub enum BinaryOp {
    EqualEqual,
    NotEqual,
    Less,
    LessEqual,
    Greater,
    GreaterEqual,
    Plus,
    Minus,
    Multiply,
    Divide,
}

#[derive(Debug, Clone, Copy, PartialEq, Eq, Structural)]
pub enum LogicalOp {
    And,
    Or,
}

#[derive(Debug)]
pub struct Call {
    pub callee: Box<Expression>,
    pub arguments: Vec<Expression>,
}

/// A runtime value. A number is held as the bit pattern of an IEEE-754 double;
/// a function is the index of a closure held by the interpreter.
#[derive(Debug)]
pub enum Value {
    Number(u64),
    String(String),
    Boolean(bool),
    Nil,
    Function(usize),
}

/// Only `false` and `nil` are falsy.
pub open spec fn truthy(v: Value) -> bool {
    !(v is Nil || v == Value::Boolean(false))
}

/// Equality of two values that are not both numbers: same kind and same
/// contents; functions are the same closure.
pub open spec fn same_value(a: Value, b: Value) -> bool {
    match (a, b) {
        (Value::String(x), Value::String(y)) => x@ == y@,
        (Value::Boolean(x), Value::Boolean(y)) => x == y,
        (Value::Nil, Value::Nil) => true,
        (Value::Function(x), Value::Function(y)) => x == y,
        _ => false,
    }
}

impl Value {
    pub fn is_truthy(&self) -> (r: bool)
        ensures
            r == truthy(*self),
    {
        match self {
            Value::Boolean(b) => *b,
            Value::Nil => false,
            _ => true,
        }
    }

    /// A copy of the value.
    pub fn copy(&self) -> (r: Value)
        ensures
            r == *self,
    {
        match self {
            Value::Number(n) => Value::Number(*n),
            Value::String(s) => Value::String(s.clone()),
            Value::Boolean(b) => Value::Boolean(*b),
            Value::Nil => Value::Nil,
            Value::Function(f) => Value::Function(*f),
        }
    }
}

/// The kinds of a token sequence.
pub open spec fn kinds(tokens: Seq<Token>) -> Seq<TokenType> {
    tokens.map_values(|t: Token| t.token_type)
}

/// The token that writes a binary operator.
pub open spec fn binary_token(op: BinaryOp) -> TokenType {
    match op {
        BinaryOp::EqualEqual => TokenType::EQUAL_EQUAL,
        BinaryOp::NotEqual => TokenType::BANG_EQUAL,
        BinaryOp::Less => TokenType::LESS,
        BinaryOp::LessEqual => TokenType::LESS_EQUAL,
        BinaryOp::Greater => TokenType::GREATER,
        BinaryOp::GreaterEqual => TokenType::GREATER_EQUAL,
        BinaryOp::Plus => TokenType::PLUS,
        BinaryOp::Minus => TokenType::HYPHEN,
        BinaryOp::Multiply => TokenType::ASTERICS,
        BinaryOp::Divide => TokenType::SLASH,
    }
}

/// The token that writes a constant.
pub open spec fn primary_token(p: Primary) -> TokenType {
    match p {
        Primary::Number(text) => TokenType::NUMBER(text),
        Primary::String(value) => TokenType::STRING(value),
        Primary::Boolean(b) => if b {
            TokenType::TRUE
        } else {
            TokenType::FALSE
        },
        Primary::Nil => TokenType::NIL,
    }
}

/// The tokens that write an expression, with the parentheses of its groupings.
pub open spec fn unparse(e: Expression) -> Seq<TokenType>
    decreases e,
{
    match e {
        Expression::Literal(Literal::Variable(name)) => seq![TokenType::IDENTIFIER(name)],
        Expression::Literal(Literal::Primary(p)) => seq![primary_token(p)],
        Expression::Unary(u) => seq![
            if u.op == UnaryOp::Not {
                TokenType::BANG
            } else {
                TokenType::HYPHEN
            },
        ] + unparse(*u.expression),
        Expression::Binary(b) => unparse(*b.left) + seq![binary_token(b.op)] + unparse(*b.right),
        Expression::Logical(l) => unparse(*l.left) + seq![
            if l.op == LogicalOp::And {
                TokenType::AND
            } else {
                TokenType::OR
            },
        ] + unparse(*l.right),
        Expression::Grouping(inner) => seq![TokenType::LEFT_PAREN] + unparse(*inner) + seq![
            TokenType::RIGHT_PAREN,
        ],
        Expression::Assignment(a) => seq![TokenType::IDENTIFIER(a.variable), TokenType::EQUAL]
            + unparse(*a.value),
        Expression::Call(c) => unparse(*c.callee) + seq![TokenType::LEFT_PAREN] + unparse_list(c.arguments@) + seq![TokenType::RIGHT_PAREN],
    }
}

/// The tokens of call arguments, separated by commas.
pub open spec fn unparse_list(args: Seq<Expression>) -> Seq<TokenType>
    decreases args,
{
    if args.len() == 0 {
        Seq::empty()
    } else if args.len() == 1 {
        unparse(args[0])
    } else {
        unparse_list(args.subrange(0, args.len() - 1)) + seq![TokenType::COMMA] + unparse(
            args[args.len() - 1],
        )
    }
}

} // verus!
