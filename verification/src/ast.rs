//! Syntax trees of Lua programs.
use vstd::prelude::*;

verus! {

/// A numeral.
///
/// A numeral with a fraction or an exponent is lowered to the integer that it
/// truncates to, so `Float` carries that integer (saturated to the range of
/// `i64`, and zero for a NaN).
#[derive(Clone, Copy, PartialEq, Eq, Structural, Debug)]
pub enum Number {
    Integer(i64),
    Float(i64),
}

#[derive(Clone, Copy, PartialEq, Eq, Structural, Debug)]
pub enum UnaryOp {
    Minus,
    Not,
    Len,
    BitNot,
}

#[derive(Clone, Copy, PartialEq, Eq, Structural, Debug)]
pub enum InfixOp {
    Or,
    And,
    Less,
    LessEq,
    Greater,
    GreaterEq,
    Eq,
    NotEq,
    BitOr,
    BitXor,
    BitAnd,
    LeftShift,
    RightShift,
    Concat,
    Add,
    Sub,
    Mul,
    Div,
    FloorDiv,
    Mod,
    Pow,
}

/// The parameter list of a function.
#[derive(Debug)]
pub struct Params {
    pub names: Vec<String>,
}

/// The name of a function statement, split at its dots.
#[derive(Debug)]
pub struct FunctionName {
    pub qname: Vec<String>,
}

/// One entry of a table constructor.
#[derive(Debug)]
pub enum Field {
    /// `name = value`
    Named(String, Expression),
    /// `[key] = value`
    Keyed(Expression, Expression),
    /// `value`
    Positional(Expression),
}

#[derive(Debug)]
pub struct FunctionCall {
    pub prefix: Expression,
    pub args: Vec<Expression>,
}

#[derive(Debug)]
pub enum Expression {
    Nil,
    Ellipsis,
    Boolean(bool),
    Number(Number),
    String(Vec<u8>),
    Var(String),
    Unary(UnaryOp, Box<Expression>),
    /// One operator applied to its operands from left to right.
    Infix(InfixOp, Vec<Expression>),
    Field(Box<Expression>, String),
    Index(Box<Expression>, Box<Expression>),
    FunctCall(Box<FunctionCall>),
    Table(Vec<Field>),
    FunctDef(Params, Vec<Statement>),
}

#[allow(inconsistent_fields)]
#[derive(Debug)]
pub enum Statement {
    Break,
    If { ifcases: Vec<(Expression, Vec<Statement>)>, elsecase: Vec<Statement> },
    While { cond: Expression, block: Vec<Statement> },
    Repeat { block: Vec<Statement>, cond: Expression },
    /// Each variable comes with its attribute, if it has one.
    Local { vars: Vec<(String, Option<String>)>, exprs: Vec<Expression> },
    Assign { vars: Vec<Expression>, exprs: Vec<Expression> },
    Return(Vec<Expression>),
    FunctCall(FunctionCall),
    Do(Vec<Statement>),
    Function { name: FunctionName, params: Params, body: Vec<Statement> },
    ForEach { vars: Vec<String>, exprs: Vec<Expression>, block: Vec<Statement> },
}

/// A whole program.
#[derive(Debug)]
pub struct Source {
    pub block: Vec<Statement>,
}

} // verus!
