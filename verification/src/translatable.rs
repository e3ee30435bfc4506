//! What the semantic check guarantees to code generation: a checked procedure body, with
//! the array types the check writes into it, can be translated.
use vstd::prelude::*;
use crate::absyn::{Definition, Expression, Operator, Statement, Variable};
use crate::codegen_spec::{cond_gen_ok, expr_gen_ok, exprs_gen_ok, is_relational, stmt_gen_ok, stmts_gen_ok, var_gen_ok};
use crate::semant_spec::{
    def_rel, expr_rel, exprs_rel, lookup2, spec_args_check, spec_def_check, spec_expr_type, spec_stmt_check,
    spec_stmts_check, spec_var_type, stmt_rel, stmts_rel, var_rel,
};
use crate::table::{Entry, SymbolTable};
use crate::types::{PrimitiveType, Type, byte_size_fits};

verus! {

/// The type of a value that code generation can handle: an `int`, or an array whose byte
/// size fits in an `i32`.
pub open spec fn sized(t: Type) -> bool {
    t == Type::PrimitiveType(PrimitiveType::Int) || (t is ArrayType && byte_size_fits(t))
}

/// Every variable the tables know has a type code generation can handle, and every
/// procedure they know has fewer than `i32::MAX` parameters, each of such a type.
pub open spec fn tables_sized(l: SymbolTable, g: SymbolTable) -> bool {
    &&& forall|n: Seq<char>| (#[trigger] lookup2(l, g, n)) matches Some(Entry::VariableEntry(e)) ==> sized(e.typ)
    &&& forall|n: Seq<char>| (#[trigger] lookup2(l, g, n)) matches Some(Entry::ProcedureEntry(p)) ==> {
        &&& p.parameters@.len() < i32::MAX
        &&& forall|j: int| 0 <= j < p.parameters@.len() ==> sized(#[trigger] p.parameters@[j].typ)
    }
}

/// A checked variable, annotated by the check, can be translated, and its type is sized.
proof fn lemma_var_translatable(a: Variable, b: Variable, l: SymbolTable, g: SymbolTable)
    requires
        spec_var_type(a, l, g) is Ok,
        var_rel(a, b, l, g, true),
        tables_sized(l, g),
    ensures
        var_gen_ok(b),
        sized(spec_var_type(a, l, g)->Ok_0),
    decreases a,
{
    match (a, b) {
        (Variable::NamedVariable(n), _) => {
            assert(lookup2(l, g, n@) matches Some(Entry::VariableEntry(e)));
        },
        (Variable::ArrayAccess(p), Variable::ArrayAccess(q)) => {
            lemma_var_translatable(p.array, q.array, l, g);
            lemma_expr_translatable(p.index, q.index, l, g);
        },
        _ => {},
    }
}

/// A checked expression, annotated by the check, can be translated: as a condition where
/// it is boolean, as a value otherwise, and then its type is sized.
proof fn lemma_expr_translatable(a: Expression, b: Expression, l: SymbolTable, g: SymbolTable)
    requires
        spec_expr_type(a, l, g) is Ok,
        expr_rel(a, b, l, g, true),
        tables_sized(l, g),
    ensures
        spec_expr_type(a, l, g)->Ok_0 == Type::PrimitiveType(PrimitiveType::Bool) ==> cond_gen_ok(b),
        spec_expr_type(a, l, g)->Ok_0 != Type::PrimitiveType(PrimitiveType::Bool) ==> expr_gen_ok(b)
            && sized(spec_expr_type(a, l, g)->Ok_0),
    decreases a,
{
    match (a, b) {
        (Expression::BinaryExpression(x), Expression::BinaryExpression(y)) => {
            lemma_expr_translatable(x.left, y.left, l, g);
            lemma_expr_translatable(x.right, y.right, l, g);
        },
        (Expression::UnaryExpression(x), Expression::UnaryExpression(y)) => {
            lemma_expr_translatable(x.operand, y.operand, l, g);
        },
        (Expression::VariableExpression(x), Expression::VariableExpression(y)) => {
            lemma_var_translatable(*x, *y, l, g);
        },
        _ => {},
    }
}

proof fn lemma_args_translatable(a: Seq<Expression>, b: Seq<Expression>, ps: Seq<crate::table::Parameter>, l: SymbolTable, g: SymbolTable)
    requires
        spec_args_check(a, ps, l, g) is Ok,
        a.len() <= ps.len(),
        forall|j: int| 0 <= j < ps.len() ==> sized(#[trigger] ps[j].typ),
        exprs_rel(a, b, l, g, true),
        tables_sized(l, g),
    ensures
        exprs_gen_ok(b),
    decreases a.len(),
{
    if a.len() > 0 {
        lemma_args_translatable(a.drop_last(), b.drop_last(), ps, l, g);
        let i = a.len() - 1;
        lemma_expr_translatable(a[i], b[i], l, g);
        assert(spec_expr_type(a[i], l, g) is Ok);
        assert(spec_expr_type(a[i], l, g)->Ok_0 == ps[i].typ);
        assert(sized(ps[i].typ));
        assert(b.len() == a.len());
        assert forall|j: int| 0 <= j < b.len() implies expr_gen_ok(#[trigger] b[j]) by {
            if j < b.len() - 1 {
                assert(b.drop_last()[j] == b[j]);
            }
        }
    }
}

/// A checked statement, annotated by the check, can be translated.
proof fn lemma_stmt_translatable(a: Statement, b: Statement, l: SymbolTable, g: SymbolTable)
    requires
        spec_stmt_check(a, l, g) is Ok,
        stmt_rel(a, b, l, g, true),
        tables_sized(l, g),
    ensures
        stmt_gen_ok(b),
    decreases a,
{
    match (a, b) {
        (Statement::AssignStatement(x), Statement::AssignStatement(y)) => {
            lemma_var_translatable(x.target, y.target, l, g);
            lemma_expr_translatable(x.value, y.value, l, g);
        },
        (Statement::IfStatement(x), Statement::IfStatement(y)) => {
            lemma_expr_translatable(x.condition, y.condition, l, g);
            lemma_stmt_translatable(x.then_branch, y.then_branch, l, g);
            match (x.else_branch, y.else_branch) {
                (Some(p), Some(q)) => {
                    assert(decreases_to!(x => x.else_branch));
                    lemma_stmt_translatable(p, q, l, g);
                },
                _ => {},
            }
        },
        (Statement::WhileStatement(x), Statement::WhileStatement(y)) => {
            lemma_expr_translatable(x.condition, y.condition, l, g);
            lemma_stmt_translatable(x.body, y.body, l, g);
        },
        (Statement::CallStatement(x), Statement::CallStatement(y)) => {
            let p = lookup2(l, g, x.name@)->Some_0->ProcedureEntry_0;
            lemma_args_translatable(x.arguments@, y.arguments@, p.parameters@, l, g);
            lemma_exprs_rel_len(x.arguments@, y.arguments@, l, g);
        },
        (Statement::CompoundStatement(x), Statement::CompoundStatement(y)) => {
            lemma_stmts_translatable(x@, y@, l, g);
        },
        _ => {},
    }
}

proof fn lemma_exprs_rel_len(a: Seq<Expression>, b: Seq<Expression>, l: SymbolTable, g: SymbolTable)
    requires
        exprs_rel(a, b, l, g, true),
    ensures
        a.len() == b.len(),
{
}

/// A checked list of statements, annotated by the check, can be translated.
proof fn lemma_stmts_translatable(a: Seq<Statement>, b: Seq<Statement>, l: SymbolTable, g: SymbolTable)
    requires
        spec_stmts_check(a, l, g) is Ok,
        stmts_rel(a, b, l, g, true),
        tables_sized(l, g),
    ensures
        stmts_gen_ok(b),
    decreases a,
{
    if a.len() > 0 {
        lemma_stmts_translatable(a.drop_last(), b.drop_last(), l, g);
        lemma_stmt_translatable(a.last(), b.last(), l, g);
    }
}

/// A global definition that passes the semantic check, as the check leaves it annotated,
/// can be translated to three-address code, provided the variables its procedure sees
/// have types of a size that fits in an `i32` and the procedures it calls have fewer than
/// `i32::MAX` parameters.
pub proof fn lemma_checked_definition_translatable(before: Definition, after: Definition, g: SymbolTable)
    requires
        spec_def_check(before, g) is Ok,
        def_rel(before, after, g, true),
        before is ProcedureDefinition ==> tables_sized(
            g@[before->ProcedureDefinition_0.name@]->ProcedureEntry_0.local_table, g),
    ensures
        after matches Definition::ProcedureDefinition(p) ==> stmts_gen_ok(p.body@),
{
    match (before, after) {
        (Definition::ProcedureDefinition(x), Definition::ProcedureDefinition(y)) => {
            lemma_stmts_translatable(x.body@, y.body@, g@[x.name@]->ProcedureEntry_0.local_table, g);
        },
        _ => {},
    }
}

} // verus!
