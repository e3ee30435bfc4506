//! Abstract syntax of SPL programs.
use vstd::prelude::*;
use crate::types::ArrayType;

verus! {

/// A complete program: the list of its global definitions.
#[derive(Debug)]
pub struct Program {
    pub definitions: Vec<Definition>,
}

/// A global definition: a procedure or a named type.
#[derive(Debug)]
pub enum Definition {
    ProcedureDefinition(Box<ProcedureDefinition>),
    TypeDefinition(Box<TypeDefinition>),
}

/// A variable: a name, or an element of an array variable.
#[derive(Debug)]
pub enum Variable {
    NamedVariable(String),
    ArrayAccess(Box<ArrayAccess>),
}

/// A type as written in the source text.
#[derive(Debug)]
pub enum TypeExpression {
    ArrayTypeExpression(Box<ArrayTypeExpression>),
    NamedTypeExpression(String),
}

/// An expression.
#[derive(Debug)]
pub enum Expression {
    BinaryExpression(Box<BinaryExpression>),
    UnaryExpression(Box<UnaryExpression>),
    IntLiteral(i32),
    VariableExpression(Box<Variable>),
}

/// A statement.
#[derive(Debug)]
pub enum Statement {
    AssignStatement(Box<AssignStatement>),
    IfStatement(Box<IfStatement>),
    WhileStatement(Box<WhileStatement>),
    CallStatement(Box<CallStatement>),
    EmptyStatement,
    CompoundStatement(Vec<Statement>),
}

/// Access to one element of an array; `typ` is filled in by the semantic check.
#[derive(Debug)]
pub struct ArrayAccess {
    pub array: Variable,
    pub index: Expression,
    pub typ: Option<ArrayType>,
}

/// `array [array_size] of base_type`.
#[derive(Debug)]
pub struct ArrayTypeExpression {
    pub array_size: usize,
    pub base_type: TypeExpression,
}

/// `target := value;`
#[derive(Debug)]
pub struct AssignStatement {
    pub target: Variable,
    pub value: Expression,
}

/// A binary operation.
#[derive(Debug)]
pub struct BinaryExpression {
    pub operator: Operator,
    pub left: Expression,
    pub right: Expression,
}

/// The binary operators of SPL.
#[derive(Debug, Clone, Copy, PartialEq, Eq)]
pub enum Operator {
    Add,
    Sub,
    Mul,
    Div,
    Equ,
    Neq,
    Lst,
    Lse,
    Grt,
    Gre,
}

/// `name(arguments);`
#[derive(Debug)]
pub struct CallStatement {
    pub name: String,
    pub arguments: Vec<Expression>,
}

/// `if (condition) then_branch [else else_branch]`
#[derive(Debug)]
pub struct IfStatement {
    pub condition: Expression,
    pub then_branch: Statement,
    pub else_branch: Option<Statement>,
}

/// A formal parameter of a procedure.
#[derive(Debug)]
pub struct ParameterDefinition {
    pub name: String,
    pub type_expression: TypeExpression,
    pub is_reference: bool,
}

/// `proc name(parameters) { variables body }`
#[derive(Debug)]
pub struct ProcedureDefinition {
    pub name: String,
    pub parameters: Vec<ParameterDefinition>,
    pub body: Vec<Statement>,
    pub variables: Vec<VariableDefinition>,
}

/// `type name = type_expression;`
#[derive(Debug)]
pub struct TypeDefinition {
    pub name: String,
    pub type_expression: TypeExpression,
}

/// A unary operation.
#[derive(Debug)]
pub struct UnaryExpression {
    pub operator: UnaryOperator,
    pub operand: Expression,
}

/// The unary operators of SPL.
#[derive(Debug, Clone, Copy, PartialEq, Eq)]
pub enum UnaryOperator {
    Minus,
}

/// `var name: type_expression;`
#[derive(Debug)]
pub struct VariableDefinition {
    pub name: String,
    pub type_expression: TypeExpression,
}

/// `while (condition) body`
#[derive(Debug)]
pub struct WhileStatement {
    pub condition: Expression,
    pub body: Statement,
}

impl Expression {
    /// Whether the expression is a variable (a name or an array element).
    pub fn is_variable(&self) -> (r: bool)
        ensures
            r == (self is VariableExpression),
    {
        match self {
            Expression::VariableExpression(_) => true,
            _ => false,
        }
    }
}

} // verus!
