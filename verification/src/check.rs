//! The type check of procedure bodies.
use vstd::prelude::*;
use crate::absyn::{Definition, Expression, ProcedureDefinition, Statement, Variable};
use crate::table::{Entry, SemanticErrorKind, SymbolTable};
use crate::types::Type;
use crate::semant::{SemanticError, matches_spec};
use crate::semant_spec::{
    def_rel, expr_rel, exprs_rel, has_proc_entry, lookup2, spec_args_check, spec_def_check,
    spec_expr_type, spec_stmt_check, spec_stmts_check, spec_var_type, stmt_rel, stmts_rel, var_rel,
};
use crate::semant_lemmas::{
    lemma_expr_refl, lemma_expr_weaken, lemma_exprs_extend, lemma_exprs_weaken, lemma_stmt_refl,
    lemma_stmt_weaken, lemma_stmts_extend, lemma_stmts_weaken, lemma_var_refl, lemma_var_weaken,
};

verus! {

/// Checks a variable and returns its type. Array accesses are annotated with the type of
/// the array; on success every one of them is.
pub fn check_variable(var: &mut Variable, table: &SymbolTable, global: &SymbolTable) -> (r: Result<Type, SemanticError>)
    ensures
        matches_spec(r, spec_var_type(*old(var), *table, *global)),
        var_rel(*old(var), *final(var), *table, *global, r is Ok),
    decreases *old(var),
{
    let ghost v0 = *var;
    match var {
        Variable::NamedVariable(name) => {
            match table.lookup(name, Some(global)) {
                None => Err(SemanticError::new(SemanticErrorKind::UndefinedIdentifier)),
                Some(Entry::VariableEntry(e)) => Ok(e.typ.clone()),
                Some(_) => Err(SemanticError::new(SemanticErrorKind::NotAVariable)),
            }
        },
        Variable::ArrayAccess(acc) => {
            let ghost a0 = **acc;
            let at = check_variable(&mut acc.array, table, global);
            match at {
                Err(e) => {
                    proof {
                        lemma_expr_refl(a0.index, *table, *global);
                    }
                    Err(e)
                },
                Ok(Type::ArrayType(a)) => {
                    acc.typ = Some(a.clone());
                    let it = check_expression(&mut acc.index, table, global);
                    proof {
                        lemma_var_weaken(a0.array, acc.array, *table, *global);
                    }
                    match it {
                        Err(e) => Err(e),
                        Ok(t) => {
                            if t.is_int() {
                                Ok(*a.base_type)
                            } else {
                                proof {
                                    lemma_expr_weaken(a0.index, acc.index, *table, *global);
                                }
                                Err(SemanticError::new(SemanticErrorKind::IndexTypeMismatch))
                            }
                        },
                    }
                },
                Ok(_) => {
                    proof {
                        lemma_var_weaken(a0.array, acc.array, *table, *global);
                        lemma_expr_refl(a0.index, *table, *global);
                    }
                    Err(SemanticError::new(SemanticErrorKind::IndexingNonArray))
                },
            }
        },
    }
}

/// Checks an expression and returns its type.
pub fn check_expression(expr: &mut Expression, table: &SymbolTable, global: &SymbolTable) -> (r: Result<Type, SemanticError>)
    ensures
        matches_spec(r, spec_expr_type(*old(expr), *table, *global)),
        expr_rel(*old(expr), *final(expr), *table, *global, r is Ok),
    decreases *old(expr),
{
    match expr {
        Expression::BinaryExpression(b) => {
            let ghost b0 = **b;
            let lt = match check_expression(&mut b.left, table, global) {
                Ok(t) => t,
                Err(e) => {
                    proof {
                        lemma_expr_refl(b0.right, *table, *global);
                    }
                    return Err(e);
                },
            };
            let rt = match check_expression(&mut b.right, table, global) {
                Ok(t) => t,
                Err(e) => {
                    proof {
                        lemma_expr_weaken(b0.left, b.left, *table, *global);
                    }
                    return Err(e);
                },
            };
            match b.operator.result_type(&lt, &rt) {
                Some(t) => Ok(t),
                None => {
                    proof {
                        lemma_expr_weaken(b0.left, b.left, *table, *global);
                        lemma_expr_weaken(b0.right, b.right, *table, *global);
                    }
                    Err(SemanticError::new(SemanticErrorKind::OperandTypeMismatch))
                },
            }
        },
        Expression::UnaryExpression(u) => {
            let ghost u0 = **u;
            let t = match check_expression(&mut u.operand, table, global) {
                Ok(t) => t,
                Err(e) => return Err(e),
            };
            match u.operator.result_type(&t) {
                Some(t) => Ok(t),
                None => {
                    proof {
                        lemma_expr_weaken(u0.operand, u.operand, *table, *global);
                    }
                    Err(SemanticError::new(SemanticErrorKind::OperandTypeMismatch))
                },
            }
        },
        Expression::IntLiteral(_) => Ok(Type::int_type()),
        Expression::VariableExpression(v) => check_variable(v, table, global),
    }
}

proof fn lemma_stmts_check_err(ss: Seq<Statement>, i: int, l: SymbolTable, g: SymbolTable, k: SemanticErrorKind)
    requires
        0 <= i < ss.len(),
        spec_stmts_check(ss.take(i + 1), l, g) == Err::<(), SemanticErrorKind>(k),
    ensures
        spec_stmts_check(ss, l, g) == Err::<(), SemanticErrorKind>(k),
    decreases ss.len() - i,
{
    if i + 1 < ss.len() {
        assert(ss.take(i + 2).drop_last() =~= ss.take(i + 1));
        lemma_stmts_check_err(ss, i + 1, l, g, k);
    } else {
        assert(ss.take(i + 1) =~= ss);
    }
}

proof fn lemma_args_check_err(args: Seq<Expression>, ps: Seq<crate::table::Parameter>, i: int, l: SymbolTable, g: SymbolTable, k: SemanticErrorKind)
    requires
        0 <= i < args.len(),
        spec_args_check(args.take(i + 1), ps, l, g) == Err::<(), SemanticErrorKind>(k),
    ensures
        spec_args_check(args, ps, l, g) == Err::<(), SemanticErrorKind>(k),
    decreases args.len() - i,
{
    if i + 1 < args.len() {
        assert(args.take(i + 2).drop_last() =~= args.take(i + 1));
        lemma_args_check_err(args, ps, i + 1, l, g, k);
    } else {
        assert(args.take(i + 1) =~= args);
    }
}

/// Checks the arguments of a call in order against the called procedure's parameters.
pub fn check_arguments(args: &mut Vec<Expression>, params: &Vec<crate::table::Parameter>, table: &SymbolTable, global: &SymbolTable) -> (r: Result<(), SemanticError>)
    requires
        old(args)@.len() == params@.len(),
    ensures
        matches_spec(r, spec_args_check(old(args)@, params@, *table, *global)),
        exprs_rel(old(args)@, final(args)@, *table, *global, r is Ok),
{
    let ghost a0 = args@;
    let ghost ps = params@;
    let mut i: usize = 0;
    while i < args.len()
        invariant
            i <= a0.len(),
            a0 == old(args)@,
            a0.len() == ps.len(),
            ps == params@,
            args@.len() == a0.len(),
            forall|k: int| i <= k < a0.len() ==> args@[k] == a0[k],
            exprs_rel(a0.take(i as int), args@.take(i as int), *table, *global, true),
            spec_args_check(a0.take(i as int), ps, *table, *global) == Ok::<(), SemanticErrorKind>(()),
        decreases a0.len() - i,
    {
        proof {
            assert(a0.take(i + 1).drop_last() =~= a0.take(i as int));
            assert(a0.take(i + 1).last() == a0[i as int]);
            assert(a0.take(i + 1).len() - 1 == i);
        }
        let ghost arg0 = a0[i as int];
        let ghost prev = args@;
        let res = check_expression(&mut args[i], table, global);
        proof {
            assert(args@.take(i + 1).drop_last() =~= args@.take(i as int));
            assert(args@.take(i as int) =~= prev.take(i as int));
            assert(args@.take(i + 1).last() == args@[i as int]);
        }
        let err: Option<SemanticError> = match res {
            Err(e) => Some(e),
            Ok(t) => {
                if !t.equals(&params[i].typ) {
                    Some(SemanticError::new(SemanticErrorKind::ArgumentTypeMismatch))
                } else if params[i].is_reference && !args[i].is_variable() {
                    Some(SemanticError::new(SemanticErrorKind::ArgumentMustBeAVariable))
                } else {
                    None
                }
            },
        };
        match err {
            Some(e) => {
                proof {
                    if res is Ok {
                        lemma_expr_weaken(arg0, args@[i as int], *table, *global);
                    }
                    lemma_args_check_err(a0, ps, i as int, *table, *global, e.kind);
                    lemma_exprs_weaken(a0.take(i as int), args@.take(i as int), *table, *global);
                    lemma_exprs_extend(a0, args@, i + 1, *table, *global);
                }
                return Err(e);
            },
            None => {},
        }
        i = i + 1;
    }
    proof {
        assert(a0.take(a0.len() as int) =~= a0);
        assert(args@.take(a0.len() as int) =~= args@);
    }
    Ok(())
}

/// Checks a statement: conditions are `bool`, calls match the called procedure's
/// parameters, assignments do not assign arrays and agree in type.
pub fn check_statement(statement: &mut Statement, table: &SymbolTable, global: &SymbolTable) -> (r: Result<(), SemanticError>)
    ensures
        matches_spec(r, spec_stmt_check(*old(statement), *table, *global)),
        stmt_rel(*old(statement), *final(statement), *table, *global, r is Ok),
    decreases *old(statement),
{
    let ghost st0 = *statement;
    match statement {
        Statement::IfStatement(s) => {
            let ghost s0 = **s;
            let ct = match check_expression(&mut s.condition, table, global) {
                Ok(t) => t,
                Err(e) => {
                    proof {
                        lemma_stmt_refl(s0.then_branch, *table, *global);
                        if let Some(x) = s0.else_branch {
                            lemma_stmt_refl(x, *table, *global);
                        }
                    }
                    return Err(e);
                },
            };
            if !ct.is_bool() {
                proof {
                    lemma_expr_weaken(s0.condition, s.condition, *table, *global);
                    lemma_stmt_refl(s0.then_branch, *table, *global);
                    if let Some(x) = s0.else_branch {
                        lemma_stmt_refl(x, *table, *global);
                    }
                }
                return Err(SemanticError::new(SemanticErrorKind::IfConditionMustBeBoolean));
            }
            match check_statement(&mut s.then_branch, table, global) {
                Ok(()) => {},
                Err(e) => {
                    proof {
                        lemma_expr_weaken(s0.condition, s.condition, *table, *global);
                        if let Some(x) = s0.else_branch {
                            lemma_stmt_refl(x, *table, *global);
                        }
                    }
                    return Err(e);
                },
            }
            match &mut s.else_branch {
                Some(x) => {
                    let res = check_statement(x, table, global);
                    match res {
                        Ok(()) => Ok(()),
                        Err(e) => {
                            proof {
                                lemma_expr_weaken(s0.condition, s.condition, *table, *global);
                                lemma_stmt_weaken(s0.then_branch, s.then_branch, *table, *global);
                            }
                            Err(e)
                        },
                    }
                },
                None => Ok(()),
            }
        },
        Statement::EmptyStatement => Ok(()),
        Statement::CallStatement(s) => {
            let ghost c0 = **s;
            let proc = match table.lookup(&s.name, Some(global)) {
                None => {
                    proof {
                        lemma_stmt_refl(st0, *table, *global);
                    }
                    return Err(SemanticError::new(SemanticErrorKind::UndefinedIdentifier));
                },
                Some(Entry::ProcedureEntry(p)) => p,
                Some(_) => {
                    proof {
                        lemma_stmt_refl(st0, *table, *global);
                    }
                    return Err(SemanticError::new(SemanticErrorKind::CallOfNonProcedure));
                },
            };
            if s.arguments.len() != proc.parameters.len() {
                proof {
                    lemma_stmt_refl(st0, *table, *global);
                }
                return Err(SemanticError::new(SemanticErrorKind::ArgumentCountMismatch));
            }
            check_arguments(&mut s.arguments, &proc.parameters, table, global)
        },
        Statement::WhileStatement(s) => {
            let ghost s0 = **s;
            let ct = match check_expression(&mut s.condition, table, global) {
                Ok(t) => t,
                Err(e) => {
                    proof {
                        lemma_stmt_refl(s0.body, *table, *global);
                    }
                    return Err(e);
                },
            };
            if !ct.is_bool() {
                proof {
                    lemma_expr_weaken(s0.condition, s.condition, *table, *global);
                    lemma_stmt_refl(s0.body, *table, *global);
                }
                return Err(SemanticError::new(SemanticErrorKind::WhileConditionMustBeBoolean));
            }
            let res = check_statement(&mut s.body, table, global);
            proof {
                if res is Err {
                    lemma_expr_weaken(s0.condition, s.condition, *table, *global);
                }
            }
            res
        },
        Statement::AssignStatement(s) => {
            let ghost s0 = **s;
            let tt = match check_variable(&mut s.target, table, global) {
                Ok(t) => t,
                Err(e) => {
                    proof {
                        lemma_expr_refl(s0.value, *table, *global);
                    }
                    return Err(e);
                },
            };
            let vt = match check_expression(&mut s.value, table, global) {
                Ok(t) => t,
                Err(e) => {
                    proof {
                        lemma_var_weaken(s0.target, s.target, *table, *global);
                    }
                    return Err(e);
                },
            };
            if tt.is_array() || !tt.equals(&vt) {
                proof {
                    lemma_var_weaken(s0.target, s.target, *table, *global);
                    lemma_expr_weaken(s0.value, s.value, *table, *global);
                }
                return Err(SemanticError::new(SemanticErrorKind::IllegalAssignment));
            }
            Ok(())
        },
        Statement::CompoundStatement(stmts) => {
            proof {
                let v0 = *stmts;
                assert(decreases_to!(st0 => v0));
                assert(decreases_to!(v0 => v0@)) by {
                    broadcast use vstd::std_specs::vec::axiom_vec_decreases_to_view;
                }
            }
            check_statements(stmts, table, global)
        },
    }
}

/// Checks a list of statements in order, stopping at the first error.
pub fn check_statements(stmts: &mut Vec<Statement>, table: &SymbolTable, global: &SymbolTable) -> (r: Result<(), SemanticError>)
    ensures
        matches_spec(r, spec_stmts_check(old(stmts)@, *table, *global)),
        stmts_rel(old(stmts)@, final(stmts)@, *table, *global, r is Ok),
    decreases old(stmts)@,
{
    let ghost s0 = stmts@;
    let mut i: usize = 0;
    while i < stmts.len()
        invariant
            s0 == old(stmts)@,
            i <= s0.len(),
            stmts@.len() == s0.len(),
            forall|k: int| i <= k < s0.len() ==> stmts@[k] == s0[k],
            stmts_rel(s0.take(i as int), stmts@.take(i as int), *table, *global, true),
            spec_stmts_check(s0.take(i as int), *table, *global) == Ok::<(), SemanticErrorKind>(()),
        decreases s0.len() - i,
    {
        proof {
            assert(s0.take(i + 1).drop_last() =~= s0.take(i as int));
            assert(s0.take(i + 1).last() == s0[i as int]);
            assert(decreases_to!(s0 => s0[i as int]));
        }
        let ghost prev = stmts@;
        let res = check_statement(&mut stmts[i], table, global);
        proof {
            assert(stmts@.take(i + 1).drop_last() =~= stmts@.take(i as int));
            assert(stmts@.take(i as int) =~= prev.take(i as int));
            assert(stmts@.take(i + 1).last() == stmts@[i as int]);
        }
        match res {
            Ok(()) => {},
            Err(e) => {
                proof {
                    lemma_stmts_check_err(s0, i as int, *table, *global, e.kind);
                    lemma_stmts_weaken(s0.take(i as int), stmts@.take(i as int), *table, *global);
                    lemma_stmts_extend(s0, stmts@, i + 1, *table, *global);
                }
                return Err(e);
            },
        }
        i = i + 1;
    }
    proof {
        assert(s0.take(s0.len() as int) =~= s0);
        assert(stmts@.take(s0.len() as int) =~= stmts@);
    }
    Ok(())
}

/// Checks the body of a procedure in the procedure's local table.
pub fn check_def_proc(proc: &mut ProcedureDefinition, table: &SymbolTable) -> (r: Result<(), SemanticError>)
    requires
        has_proc_entry(*table, old(proc).name@),
    ensures
        matches_spec(r, spec_stmts_check(old(proc).body@, table@[old(proc).name@]->ProcedureEntry_0.local_table, *table)),
        stmts_rel(old(proc).body@, final(proc).body@, table@[old(proc).name@]->ProcedureEntry_0.local_table, *table, r is Ok),
        final(proc).name == old(proc).name,
        final(proc).parameters == old(proc).parameters,
        final(proc).variables == old(proc).variables,
{
    let local_table = match table.lookup_local(&proc.name) {
        Some(Entry::ProcedureEntry(p)) => &p.local_table,
        _ => {
            assert(false);
            return Err(SemanticError::new(SemanticErrorKind::ProcedureNotInTable));
        },
    };
    check_statements(&mut proc.body, local_table, table)
}

/// Checks a global definition: a procedure's body is checked, a type definition needs no check.
pub fn check_def_global(def: &mut Definition, table: &SymbolTable) -> (r: Result<(), SemanticError>)
    requires
        (*old(def) is ProcedureDefinition) ==> has_proc_entry(*table, old(def)->ProcedureDefinition_0.name@),
    ensures
        matches_spec(r, spec_def_check(*old(def), *table)),
        def_rel(*old(def), *final(def), *table, r is Ok),
{
    match def {
        Definition::TypeDefinition(_) => Ok(()),
        Definition::ProcedureDefinition(p) => check_def_proc(p, table),
    }
}

} // verus!
