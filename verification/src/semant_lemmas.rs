//! Facts about the relation between a program before and after the semantic check.
use vstd::prelude::*;
use crate::absyn::{Expression, Statement, Variable};
use crate::table::SymbolTable;
use crate::semant_spec::{expr_rel, exprs_rel, stmt_rel, stmts_rel, var_rel};

verus! {

/// Every variable agrees with itself.
pub proof fn lemma_var_refl(v: Variable, l: SymbolTable, g: SymbolTable)
    ensures
        var_rel(v, v, l, g, false),
    decreases v,
{
    if let Variable::ArrayAccess(a) = v {
        lemma_var_refl(a.array, l, g);
        lemma_expr_refl(a.index, l, g);
    }
}

/// Every expression agrees with itself.
pub proof fn lemma_expr_refl(e: Expression, l: SymbolTable, g: SymbolTable)
    ensures
        expr_rel(e, e, l, g, false),
    decreases e,
{
    match e {
        Expression::BinaryExpression(b) => {
            lemma_expr_refl(b.left, l, g);
            lemma_expr_refl(b.right, l, g);
        },
        Expression::UnaryExpression(u) => lemma_expr_refl(u.operand, l, g),
        Expression::IntLiteral(_) => {},
        Expression::VariableExpression(v) => lemma_var_refl(*v, l, g),
    }
}

/// Every argument list agrees with itself.
pub proof fn lemma_exprs_refl(s: Seq<Expression>, l: SymbolTable, g: SymbolTable)
    ensures
        exprs_rel(s, s, l, g, false),
    decreases s.len(),
{
    if s.len() > 0 {
        lemma_exprs_refl(s.drop_last(), l, g);
        lemma_expr_refl(s.last(), l, g);
    }
}

/// Every statement agrees with itself.
pub proof fn lemma_stmt_refl(s: Statement, l: SymbolTable, g: SymbolTable)
    ensures
        stmt_rel(s, s, l, g, false),
    decreases s,
{
    match s {
        Statement::AssignStatement(a) => {
            lemma_var_refl(a.target, l, g);
            lemma_expr_refl(a.value, l, g);
        },
        Statement::IfStatement(i) => {
            lemma_expr_refl(i.condition, l, g);
            lemma_stmt_refl(i.then_branch, l, g);
            if let Some(e) = i.else_branch {
                lemma_stmt_refl(e, l, g);
            }
        },
        Statement::WhileStatement(w) => {
            lemma_expr_refl(w.condition, l, g);
            lemma_stmt_refl(w.body, l, g);
        },
        Statement::CallStatement(c) => lemma_exprs_refl(c.arguments@, l, g),
        Statement::EmptyStatement => {},
        Statement::CompoundStatement(v) => lemma_stmts_refl(v@, l, g),
    }
}

/// Every statement list agrees with itself.
pub proof fn lemma_stmts_refl(s: Seq<Statement>, l: SymbolTable, g: SymbolTable)
    ensures
        stmts_rel(s, s, l, g, false),
    decreases s,
{
    if s.len() > 0 {
        lemma_stmts_refl(s.drop_last(), l, g);
        lemma_stmt_refl(s.last(), l, g);
    }
}

/// An annotated variable agrees with the one it was annotated from.
pub proof fn lemma_var_weaken(a: Variable, b: Variable, l: SymbolTable, g: SymbolTable)
    requires
        var_rel(a, b, l, g, true),
    ensures
        var_rel(a, b, l, g, false),
    decreases a,
{
    if let (Variable::ArrayAccess(p), Variable::ArrayAccess(q)) = (a, b) {
        lemma_var_weaken(p.array, q.array, l, g);
        lemma_expr_weaken(p.index, q.index, l, g);
    }
}

/// An annotated expression agrees with the one it was annotated from.
pub proof fn lemma_expr_weaken(a: Expression, b: Expression, l: SymbolTable, g: SymbolTable)
    requires
        expr_rel(a, b, l, g, true),
    ensures
        expr_rel(a, b, l, g, false),
    decreases a,
{
    match (a, b) {
        (Expression::BinaryExpression(x), Expression::BinaryExpression(y)) => {
            lemma_expr_weaken(x.left, y.left, l, g);
            lemma_expr_weaken(x.right, y.right, l, g);
        },
        (Expression::UnaryExpression(x), Expression::UnaryExpression(y)) => lemma_expr_weaken(x.operand, y.operand, l, g),
        (Expression::VariableExpression(x), Expression::VariableExpression(y)) => lemma_var_weaken(*x, *y, l, g),
        _ => {},
    }
}

/// An annotated argument list agrees with the one it was annotated from.
pub proof fn lemma_exprs_weaken(a: Seq<Expression>, b: Seq<Expression>, l: SymbolTable, g: SymbolTable)
    requires
        exprs_rel(a, b, l, g, true),
    ensures
        exprs_rel(a, b, l, g, false),
    decreases a.len(),
{
    if a.len() > 0 {
        lemma_exprs_weaken(a.drop_last(), b.drop_last(), l, g);
        lemma_expr_weaken(a.last(), b.last(), l, g);
    }
}

/// An annotated statement agrees with the one it was annotated from.
pub proof fn lemma_stmt_weaken(a: Statement, b: Statement, l: SymbolTable, g: SymbolTable)
    requires
        stmt_rel(a, b, l, g, true),
    ensures
        stmt_rel(a, b, l, g, false),
    decreases a,
{
    match (a, b) {
        (Statement::AssignStatement(x), Statement::AssignStatement(y)) => {
            lemma_var_weaken(x.target, y.target, l, g);
            lemma_expr_weaken(x.value, y.value, l, g);
        },
        (Statement::IfStatement(x), Statement::IfStatement(y)) => {
            lemma_expr_weaken(x.condition, y.condition, l, g);
            lemma_stmt_weaken(x.then_branch, y.then_branch, l, g);
            if let (Some(p), Some(q)) = (x.else_branch, y.else_branch) {
                lemma_stmt_weaken(p, q, l, g);
            }
        },
        (Statement::WhileStatement(x), Statement::WhileStatement(y)) => {
            lemma_expr_weaken(x.condition, y.condition, l, g);
            lemma_stmt_weaken(x.body, y.body, l, g);
        },
        (Statement::CallStatement(x), Statement::CallStatement(y)) => lemma_exprs_weaken(x.arguments@, y.arguments@, l, g),
        (Statement::CompoundStatement(x), Statement::CompoundStatement(y)) => lemma_stmts_weaken(x@, y@, l, g),
        _ => {},
    }
}

/// An annotated statement list agrees with the one it was annotated from.
pub proof fn lemma_stmts_weaken(a: Seq<Statement>, b: Seq<Statement>, l: SymbolTable, g: SymbolTable)
    requires
        stmts_rel(a, b, l, g, true),
    ensures
        stmts_rel(a, b, l, g, false),
    decreases a,
{
    if a.len() > 0 {
        lemma_stmts_weaken(a.drop_last(), b.drop_last(), l, g);
        lemma_stmt_weaken(a.last(), b.last(), l, g);
    }
}

/// A statement list whose first `i` statements agree and whose remaining statements are
/// untouched agrees as a whole.
pub proof fn lemma_stmts_extend(a: Seq<Statement>, b: Seq<Statement>, i: int, l: SymbolTable, g: SymbolTable)
    requires
        0 <= i <= a.len(),
        a.len() == b.len(),
        stmts_rel(a.take(i), b.take(i), l, g, false),
        forall|k: int| i <= k < a.len() ==> a[k] == b[k],
    ensures
        stmts_rel(a, b, l, g, false),
    decreases a.len() - i,
{
    if i < a.len() {
        lemma_stmt_refl(a[i], l, g);
        assert(a.take(i + 1).drop_last() =~= a.take(i));
        assert(b.take(i + 1).drop_last() =~= b.take(i));
        lemma_stmts_extend(a, b, i + 1, l, g);
    } else {
        assert(a.take(i) =~= a);
        assert(b.take(i) =~= b);
    }
}

/// An argument list whose first `i` arguments agree and whose remaining arguments are
/// untouched agrees as a whole.
pub proof fn lemma_exprs_extend(a: Seq<Expression>, b: Seq<Expression>, i: int, l: SymbolTable, g: SymbolTable)
    requires
        0 <= i <= a.len(),
        a.len() == b.len(),
        exprs_rel(a.take(i), b.take(i), l, g, false),
        forall|k: int| i <= k < a.len() ==> a[k] == b[k],
    ensures
        exprs_rel(a, b, l, g, false),
    decreases a.len() - i,
{
    if i < a.len() {
        lemma_expr_refl(a[i], l, g);
        assert(a.take(i + 1).drop_last() =~= a.take(i));
        assert(b.take(i + 1).drop_last() =~= b.take(i));
        lemma_exprs_extend(a, b, i + 1, l, g);
    } else {
        assert(a.take(i) =~= a);
        assert(b.take(i) =~= b);
    }
}

} // verus!
