//! Whether a checked program can be translated to three-address code: the tests behind the
//! preconditions of code generation.
use vstd::prelude::*;
use crate::absyn::{Definition, Expression, Program, Statement, Variable};
use crate::codegen_spec::{
    cond_gen_ok, defs_cost, expr_cost, expr_gen_ok, exprs_cost, exprs_gen_ok, program_gen_ok, stmt_cost,
    stmt_gen_ok, stmts_cost, stmts_gen_ok, var_cost, var_gen_ok, is_relational,
};
use crate::types::{Type, PrimitiveType, byte_size_fits, spec_byte_size, lemma_byte_size_nonneg};

verus! {

/// A count, capped at `u128::MAX`.
pub open spec fn sat(x: nat) -> nat {
    if x < u128::MAX { x } else { u128::MAX as nat }
}

/// `a + b`, capped at `u128::MAX`.
fn sat_add(a: u128, b: u128) -> (r: u128)
    ensures
        r == sat((a + b) as nat),
{
    if a > u128::MAX - b {
        u128::MAX
    } else {
        a + b
    }
}

proof fn lemma_sat_add(x: nat, y: nat)
    ensures
        sat(sat(x) + sat(y)) == sat(x + y),
{
}

impl Type {
    /// The byte size of the type, where it is defined and every intermediate product fits
    /// in an `i32`.
    pub fn byte_size_checked(&self) -> (r: Option<i32>)
        ensures
            r is Some <==> byte_size_fits(*self),
            r is Some ==> r->0 == spec_byte_size(*self).unwrap(),
        decreases self,
    {
        match self {
            Type::PrimitiveType(PrimitiveType::Int) => Some(4),
            Type::PrimitiveType(PrimitiveType::Bool) => None,
            Type::ArrayType(a) => {
                let b = match (*a.base_type).byte_size_checked() {
                    Some(b) => b,
                    None => {
                        return None;
                    },
                };
                proof {
                    lemma_byte_size_nonneg(*a.base_type);
                }
                if a.size > 2147483647usize {
                    return None;
                }
                proof {
                    assert(0 <= b * a.size <= 2147483647 * 2147483647) by (nonlinear_arith)
                        requires
                            0 <= b <= 2147483647,
                            0 <= a.size <= 2147483647,
                    ;
                }
                let p = (b as i64) * (a.size as i64);
                if p > 2147483647i64 {
                    None
                } else {
                    Some(p as i32)
                }
            },
        }
    }
}

/// Whether a variable can be translated, and its bound, capped.
pub fn var_gen_check(v: &Variable) -> (r: (bool, u128))
    ensures
        r.0 == var_gen_ok(*v),
        r.1 == sat(var_cost(*v)),
    decreases v,
{
    match v {
        Variable::NamedVariable(_) => (true, 0),
        Variable::ArrayAccess(a) => {
            let (ok_array, c_array) = var_gen_check(&a.array);
            let (ok_index, c_index) = expr_gen_check(&a.index);
            let fits = match &a.typ {
                Some(t) => (*t.base_type).byte_size_checked().is_some(),
                None => false,
            };
            proof {
                lemma_sat_add(var_cost(a.array), expr_cost(a.index));
                lemma_sat_add(var_cost(a.array) + expr_cost(a.index), 4);
            }
            let c = sat_add(sat_add(c_array, c_index), 4);
            (fits && ok_array && ok_index, c)
        },
    }
}

/// Whether an expression can be translated, and its bound, capped.
pub fn expr_gen_check(e: &Expression) -> (r: (bool, u128))
    ensures
        r.0 == expr_gen_ok(*e),
        r.1 == sat(expr_cost(*e)),
    decreases e,
{
    match e {
        Expression::BinaryExpression(b) => {
            let (ok_l, c_l) = expr_gen_check(&b.left);
            let (ok_r, c_r) = expr_gen_check(&b.right);
            let arith = match b.operator {
                crate::absyn::Operator::Add | crate::absyn::Operator::Sub | crate::absyn::Operator::Mul
                | crate::absyn::Operator::Div => true,
                _ => false,
            };
            proof {
                lemma_sat_add(expr_cost(b.left), expr_cost(b.right));
                lemma_sat_add(expr_cost(b.left) + expr_cost(b.right), 2);
            }
            (arith && ok_l && ok_r, sat_add(sat_add(c_l, c_r), 2))
        },
        Expression::UnaryExpression(u) => {
            let (ok, c) = expr_gen_check(&u.operand);
            proof {
                lemma_sat_add(expr_cost(u.operand), 1);
            }
            (ok, sat_add(c, 1))
        },
        Expression::IntLiteral(_) => (true, 0),
        Expression::VariableExpression(v) => {
            let (ok, c) = var_gen_check(v);
            proof {
                lemma_sat_add(var_cost(**v), 1);
            }
            (ok, sat_add(c, 1))
        },
    }
}

/// Whether a condition can be translated: a comparison of translatable operands.
fn cond_gen_check(e: &Expression) -> (r: bool)
    ensures
        r == cond_gen_ok(*e),
{
    match e {
        Expression::BinaryExpression(b) => {
            let rel = match b.operator {
                crate::absyn::Operator::Add | crate::absyn::Operator::Sub | crate::absyn::Operator::Mul
                | crate::absyn::Operator::Div => false,
                _ => true,
            };
            rel && expr_gen_check(&b.left).0 && expr_gen_check(&b.right).0
        },
        _ => false,
    }
}

/// Whether a list of expressions can be translated, and its bound, capped.
fn exprs_gen_check(v: &Vec<Expression>) -> (r: (bool, u128))
    ensures
        r.0 == exprs_gen_ok(v@),
        r.1 == sat(exprs_cost(v@)),
{
    let mut ok = true;
    let mut c: u128 = 0;
    let mut i: usize = 0;
    while i < v.len()
        invariant
            0 <= i <= v@.len(),
            ok == exprs_gen_ok(v@.take(i as int)),
            c == sat(exprs_cost(v@.take(i as int))),
        decreases v@.len() - i,
    {
        let (ok_i, c_i) = expr_gen_check(&v[i]);
        proof {
            assert(v@.take(i + 1).drop_last() =~= v@.take(i as int));
            lemma_sat_add(exprs_cost(v@.take(i as int)), expr_cost(v@[i as int]));
            lemma_sat_add(exprs_cost(v@.take(i as int)) + expr_cost(v@[i as int]), 1);
            if ok && ok_i {
                assert forall|j: int| 0 <= j < i + 1 implies expr_gen_ok(#[trigger] v@.take(i + 1)[j]) by {
                    if j < i {
                        assert(v@.take(i + 1)[j] == v@.take(i as int)[j]);
                    }
                }
            }
            if !ok {
                let j = choose|j: int| 0 <= j < i && !expr_gen_ok(#[trigger] v@.take(i as int)[j]);
                assert(v@.take(i + 1)[j] == v@.take(i as int)[j]);
            }
            if !ok_i {
                assert(v@.take(i + 1)[i as int] == v@[i as int]);
            }
        }
        ok = ok && ok_i;
        c = sat_add(sat_add(c, c_i), 1);
        i = i + 1;
    }
    proof {
        assert(v@.take(v@.len() as int) =~= v@);
    }
    (ok, c)
}

/// Whether a statement can be translated, and its bound, capped.
pub fn stmt_gen_check(s: &Statement) -> (r: (bool, u128))
    ensures
        r.0 == stmt_gen_ok(*s),
        r.1 == sat(stmt_cost(*s)),
    decreases s,
{
    match s {
        Statement::AssignStatement(a) => {
            let (ok_t, c_t) = var_gen_check(&a.target);
            let (ok_v, c_v) = expr_gen_check(&a.value);
            proof {
                lemma_sat_add(var_cost(a.target), expr_cost(a.value));
                lemma_sat_add(var_cost(a.target) + expr_cost(a.value), 2);
            }
            (ok_t && ok_v, sat_add(sat_add(c_t, c_v), 2))
        },
        Statement::IfStatement(i) => {
            let ok_c = cond_gen_check(&i.condition);
            let (_, c_c) = expr_gen_check(&i.condition);
            let (ok_t, c_t) = stmt_gen_check(&i.then_branch);
            let (ok_e, c_e) = match &i.else_branch {
                Some(e) => {
                    proof {
                        assert(decreases_to!(i => i.else_branch));
                    }
                    stmt_gen_check(e)
                },
                None => (true, 0),
            };
            let ghost ce: nat = crate::codegen_spec::opt_cost(i.else_branch);
            proof {
                lemma_sat_add(expr_cost(i.condition), stmt_cost(i.then_branch));
                lemma_sat_add(expr_cost(i.condition) + stmt_cost(i.then_branch), ce);
                lemma_sat_add(expr_cost(i.condition) + stmt_cost(i.then_branch) + ce, 4);
            }
            (ok_c && ok_t && ok_e, sat_add(sat_add(sat_add(c_c, c_t), c_e), 4))
        },
        Statement::WhileStatement(w) => {
            let ok_c = cond_gen_check(&w.condition);
            let (_, c_c) = expr_gen_check(&w.condition);
            let (ok_b, c_b) = stmt_gen_check(&w.body);
            proof {
                lemma_sat_add(expr_cost(w.condition), stmt_cost(w.body));
                lemma_sat_add(expr_cost(w.condition) + stmt_cost(w.body), 4);
            }
            (ok_c && ok_b, sat_add(sat_add(c_c, c_b), 4))
        },
        Statement::CallStatement(c) => {
            let (ok, cost) = exprs_gen_check(&c.arguments);
            proof {
                lemma_sat_add(exprs_cost(c.arguments@), 1);
            }
            (c.arguments.len() < 2147483647usize && ok, sat_add(cost, 1))
        },
        Statement::EmptyStatement => (true, 0),
        Statement::CompoundStatement(v) => stmts_gen_check(v),
    }
}

/// Whether a list of statements can be translated, and its bound, capped.
pub fn stmts_gen_check(v: &Vec<Statement>) -> (r: (bool, u128))
    ensures
        r.0 == stmts_gen_ok(v@),
        r.1 == sat(stmts_cost(v@)),
    decreases v,
{
    let mut ok = true;
    let mut c: u128 = 0;
    let mut i: usize = 0;
    while i < v.len()
        invariant
            0 <= i <= v@.len(),
            ok == stmts_gen_ok(v@.take(i as int)),
            c == sat(stmts_cost(v@.take(i as int))),
        decreases v@.len() - i,
    {
        proof {
            assert(decreases_to!(v => v@[i as int]));
        }
        let (ok_i, c_i) = stmt_gen_check(&v[i]);
        proof {
            assert(v@.take(i + 1).drop_last() =~= v@.take(i as int));
            lemma_sat_add(stmts_cost(v@.take(i as int)), stmt_cost(v@[i as int]));
        }
        ok = ok && ok_i;
        c = sat_add(c, c_i);
        i = i + 1;
    }
    proof {
        assert(v@.take(v@.len() as int) =~= v@);
    }
    (ok, c)
}

/// Whether code generation can translate the program: every procedure can be translated,
/// its bound fits in a `usize`, and the summed bound in a `u64`.
pub fn program_gen_check(p: &Program) -> (r: bool)
    ensures
        r == (program_gen_ok(p.definitions@) && defs_cost(p.definitions@) <= u64::MAX),
{
    let defs = &p.definitions;
    let mut ok = true;
    let mut c: u128 = 0;
    let mut i: usize = 0;
    while i < defs.len()
        invariant
            0 <= i <= defs@.len(),
            ok == program_gen_ok(defs@.take(i as int)),
            c == sat(defs_cost(defs@.take(i as int))),
        decreases defs@.len() - i,
    {
        let ghost t0 = defs@.take(i as int);
        let ghost t1 = defs@.take(i + 1);
        proof {
            assert(t1.drop_last() =~= t0);
        }
        match &defs[i] {
            Definition::ProcedureDefinition(pd) => {
                let (ok_i, c_i) = stmts_gen_check(&pd.body);
                let fits = c_i <= usize::MAX as u128;
                proof {
                    lemma_sat_add(defs_cost(t0), stmts_cost(pd.body@));
                    if ok && ok_i && fits {
                        assert forall|j: int| 0 <= j < i + 1 implies match #[trigger] t1[j] {
                            Definition::ProcedureDefinition(q) => stmts_gen_ok(q.body@) && stmts_cost(q.body@) <= usize::MAX,
                            Definition::TypeDefinition(_) => true,
                        } by {
                            if j < i {
                                assert(t1[j] == t0[j]);
                            }
                        }
                    }
                    if !ok {
                        let j = choose|j: int| 0 <= j < i && !match #[trigger] t0[j] {
                            Definition::ProcedureDefinition(q) => stmts_gen_ok(q.body@) && stmts_cost(q.body@) <= usize::MAX,
                            Definition::TypeDefinition(_) => true,
                        };
                        assert(t1[j] == t0[j]);
                    }
                    if !(ok_i && fits) {
                        assert(t1[i as int] == defs@[i as int]);
                    }
                }
                ok = ok && ok_i && fits;
                c = sat_add(c, c_i);
            },
            Definition::TypeDefinition(_) => {
                proof {
                    if ok {
                        assert forall|j: int| 0 <= j < i + 1 implies match #[trigger] t1[j] {
                            Definition::ProcedureDefinition(q) => stmts_gen_ok(q.body@) && stmts_cost(q.body@) <= usize::MAX,
                            Definition::TypeDefinition(_) => true,
                        } by {
                            if j < i {
                                assert(t1[j] == t0[j]);
                            }
                        }
                    } else {
                        let j = choose|j: int| 0 <= j < i && !match #[trigger] t0[j] {
                            Definition::ProcedureDefinition(q) => stmts_gen_ok(q.body@) && stmts_cost(q.body@) <= usize::MAX,
                            Definition::TypeDefinition(_) => true,
                        };
                        assert(t1[j] == t0[j]);
                    }
                }
            },
        }
        i = i + 1;
    }
    proof {
        assert(defs@.take(defs@.len() as int) =~= defs@);
    }
    ok && c <= u64::MAX as u128
}

} // verus!
