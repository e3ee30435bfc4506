//! Generation of three-address code from the abstract syntax tree.
use vstd::prelude::*;
use crate::absyn::{
    ArrayAccess, AssignStatement, CallStatement, Definition, Expression, IfStatement, Operator,
    ProcedureDefinition, Program, Statement, UnaryOperator, Variable, WhileStatement,
};
use crate::quadrupel::{Quadrupel, QuadrupelArg, QuadrupelOp, QuadrupelResult, QuadrupelVar, spec_op_of, spec_is_relop, spec_inv};
use crate::table::SymbolTable;
use crate::text::nat_to_decimal;
use crate::blocks::{BlockGraph, blocks_of};
use crate::codegen_spec::{
    cond_gen_ok, defs_cost, expr_cost, expr_gen_ok, exprs_cost, exprs_gen_ok, frag, if_cost,
    is_relational, jumps_closed, label_name, label_range, labels_of, labels_unique,
    lemma_concat, lemma_exprs_cost_prefix, lemma_join, lemma_plain, lemma_range_has,
    lemma_range_mono, lemma_ranges_disjoint, lemma_seq_join, lemma_single,
    lemma_stmts_cost_prefix, lemma_stmts_gen_ok_index, opt_cost, plain, proc_code_ok,
    proc_names, program_gen_ok, def_proc_name, lemma_defs_cost_prefix, lemma_proc_names_step, quad_label, stmt_cost, stmt_gen_ok, stmts_cost, stmts_gen_ok,
    targets_of, var_cost, var_gen_ok, well_labelled, while_cost, jumps_labelled, is_jump,
    quad_jump,
};
use crate::translation::{
    AM, EM, QM, VM, code_m, qarg_m, qvar_m, quad_m, lemma_code_m_concat, lemma_code_m_single,
    lemma_code_m_empty, t_into_tmp, t_bin, t_array_access, t_var, t_expr, t_cond, qm, label_qm, goto_qm,
    t_assign, t_args, t_call, t_if, t_while, t_stmt, t_stmts, t_proc, labels_after, program_code,
};

verus! {

/// The generator of three-address code. It translates one procedure at a time and keeps
/// the code of each under the procedure's name in `proc_table`.
pub struct Tac {
    quadrupels: Vec<Quadrupel>,
    label_num: u64,
    pub proc_table: Vec<(String, Vec<Quadrupel>)>,
    temp_var_count: usize,
    global_table: SymbolTable,
    current_proc: Option<String>,
}

/// The translation of an expression: a quadruple still waiting for its result variable,
/// or an operand.
enum Expr {
    Quad(Quadrupel),
    Arg(QuadrupelArg),
}

/// The view of a translated expression.
spec fn em_m(e: Expr) -> EM {
    match e {
        Expr::Quad(q) => EM::Quad(quad_m(q)),
        Expr::Arg(a) => EM::Arg(qarg_m(a)),
    }
}

spec fn expr_plain(e: Expr) -> bool {
    match e {
        Expr::Quad(q) => quad_label(q) is None && !is_jump(q),
        Expr::Arg(_) => true,
    }
}

/// `b` is `a` with code appended.
spec fn extends(a: Tac, b: Tac) -> bool {
    &&& a.quadrupels@.len() <= b.quadrupels@.len()
    &&& b.quadrupels@.subrange(0, a.quadrupels@.len() as int) == a.quadrupels@
    &&& b.proc_table == a.proc_table
    &&& b.global_table == a.global_table
    &&& b.current_proc == a.current_proc
}

/// The code appended between `a` and `b`.
spec fn emitted(a: Tac, b: Tac) -> Seq<Quadrupel> {
    b.quadrupels@.skip(a.quadrupels@.len() as int)
}

proof fn lemma_extends_trans(a: Tac, b: Tac, c: Tac)
    requires
        extends(a, b),
        extends(b, c),
    ensures
        extends(a, c),
        emitted(a, c) == emitted(a, b) + emitted(b, c),
{
    assert(c.quadrupels@.subrange(0, a.quadrupels@.len() as int) =~= b.quadrupels@.subrange(0, a.quadrupels@.len() as int));
    assert(emitted(a, c) =~= emitted(a, b) + emitted(b, c));
}

proof fn lemma_extends_refl(a: Tac)
    ensures
        extends(a, a),
        emitted(a, a) == Seq::<Quadrupel>::empty(),
{
    assert(a.quadrupels@.subrange(0, a.quadrupels@.len() as int) =~= a.quadrupels@);
    assert(emitted(a, a) =~= Seq::<Quadrupel>::empty());
}

impl Tac {
    /// A generator with no code yet, working with the given global table.
    pub fn new(global_table: SymbolTable) -> (r: Tac)
        ensures
            r.procs().len() == 0,
            r.global_table() == global_table,
            r.idle(),
            r.labels_made() == 0,
    {
        Tac {
            quadrupels: Vec::new(),
            label_num: 0,
            proc_table: Vec::new(),
            temp_var_count: 0,
            global_table,
            current_proc: None,
        }
    }

    /// The global table the generator works with.
    pub closed spec fn global_table(&self) -> SymbolTable {
        self.global_table
    }

    /// The translated procedures: each name with its code.
    pub closed spec fn procs(&self) -> Seq<(String, Vec<Quadrupel>)> {
        self.proc_table@
    }

    /// No procedure is being translated: no code is pending and no temporary is in use.
    pub closed spec fn idle(&self) -> bool {
        self.quadrupels@.len() == 0 && self.temp_var_count == 0
    }

    /// The number of labels generated so far.
    pub closed spec fn labels_made(&self) -> nat {
        self.label_num as nat
    }

    /// The global symbol table.
    pub fn get_global_table(&self) -> (r: &SymbolTable)
        ensures
            *r == self.global_table(),
    {
        &self.global_table
    }

    fn create_tmp_var(&mut self) -> (r: QuadrupelVar)
        requires
            old(self).temp_var_count < usize::MAX,
        ensures
            r == QuadrupelVar::Tmp(old(self).temp_var_count),
            final(self).temp_var_count == old(self).temp_var_count + 1,
            final(self).label_num == old(self).label_num,
            final(self).quadrupels == old(self).quadrupels,
            extends(*old(self), *final(self)),
    {
        let n = self.temp_var_count;
        self.temp_var_count = self.temp_var_count + 1;
        proof {
            lemma_extends_refl(*old(self));
        }
        QuadrupelVar::Tmp(n)
    }

    fn push_quad(&mut self, q: Quadrupel)
        ensures
            final(self).quadrupels@ == old(self).quadrupels@.push(q),
            final(self).label_num == old(self).label_num,
            final(self).temp_var_count == old(self).temp_var_count,
            extends(*old(self), *final(self)),
            emitted(*old(self), *final(self)) == seq![q],
            code_m(emitted(*old(self), *final(self))) == seq![quad_m(q)],
    {
        self.quadrupels.push(q);
        proof {
            assert(final(self).quadrupels@.subrange(0, old(self).quadrupels@.len() as int) =~= old(self).quadrupels@);
            assert(emitted(*old(self), *final(self)) =~= seq![q]);
            lemma_code_m_single(q);
        }
    }

    /// Stores the quadruple of an expression in a fresh temporary and returns that
    /// temporary; an operand is returned as it is.
    fn into_tmp(&mut self, expr: Expr) -> (r: QuadrupelArg)
        requires
            expr_plain(expr),
            old(self).temp_var_count < usize::MAX,
        ensures
            extends(*old(self), *final(self)),
            plain(emitted(*old(self), *final(self))),
            final(self).label_num == old(self).label_num,
            old(self).temp_var_count <= final(self).temp_var_count <= old(self).temp_var_count + 1,
            code_m(emitted(*old(self), *final(self))) == t_into_tmp(em_m(expr), old(self).temp_var_count as nat).0,
            qarg_m(r) == t_into_tmp(em_m(expr), old(self).temp_var_count as nat).1,
            final(self).temp_var_count == t_into_tmp(em_m(expr), old(self).temp_var_count as nat).2,
    {
        match expr {
            Expr::Quad(mut quad) => {
                let tmp = self.create_tmp_var();
                quad.result = QuadrupelResult::Var(tmp.clone());
                let ghost mid = *self;
                self.push_quad(quad);
                proof {
                    lemma_extends_trans(*old(self), mid, *final(self));
                    assert(emitted(*old(self), mid) =~= Seq::<Quadrupel>::empty());
                    assert(emitted(*old(self), *final(self)) =~= seq![quad]);
                    assert(quad_m(quad) == (QM { result: crate::translation::RM::Var(VM::Tmp(old(self).temp_var_count as nat)), ..quad_m(expr->Quad_0) }));
                }
                QuadrupelArg::Var(tmp)
            },
            Expr::Arg(arg) => {
                proof {
                    lemma_extends_refl(*old(self));
                    lemma_code_m_empty();
                }
                arg
            },
        }
    }

    fn emit_expression_bin(&mut self, op: Operator, left: Expr, right: Expr) -> (r: Expr)
        requires
            expr_plain(left),
            expr_plain(right),
            !is_relational(op),
            old(self).temp_var_count + 2 <= usize::MAX,
        ensures
            extends(*old(self), *final(self)),
            plain(emitted(*old(self), *final(self))),
            final(self).label_num == old(self).label_num,
            old(self).temp_var_count <= final(self).temp_var_count <= old(self).temp_var_count + 2,
            expr_plain(r),
            code_m(emitted(*old(self), *final(self))) == t_bin(spec_op_of(op), em_m(left), em_m(right), old(self).temp_var_count as nat).0,
            em_m(r) == t_bin(spec_op_of(op), em_m(left), em_m(right), old(self).temp_var_count as nat).1,
            final(self).temp_var_count == t_bin(spec_op_of(op), em_m(left), em_m(right), old(self).temp_var_count as nat).2,
    {
        let mut quad = Quadrupel::new();
        quad.op = QuadrupelOp::from_operator(op);
        let ghost s0 = *self;
        quad.arg1 = self.into_tmp(left);
        let ghost s1 = *self;
        quad.arg2 = self.into_tmp(right);
        proof {
            lemma_extends_trans(s0, s1, *final(self));
            lemma_concat(emitted(s0, s1), emitted(s1, *final(self)));
            lemma_code_m_concat(emitted(s0, s1), emitted(s1, *final(self)));
        }
        Expr::Quad(quad)
    }

    fn emit_expression_un(&mut self, op: UnaryOperator, left: Expr) -> (r: Expr)
        requires
            expr_plain(left),
            old(self).temp_var_count + 1 <= usize::MAX,
        ensures
            extends(*old(self), *final(self)),
            plain(emitted(*old(self), *final(self))),
            final(self).label_num == old(self).label_num,
            old(self).temp_var_count <= final(self).temp_var_count <= old(self).temp_var_count + 1,
            expr_plain(r),
            code_m(emitted(*old(self), *final(self))) == t_into_tmp(em_m(left), old(self).temp_var_count as nat).0,
            em_m(r) == EM::Quad(qm(QuadrupelOp::Neg, t_into_tmp(em_m(left), old(self).temp_var_count as nat).1, AM::Empty)),
            final(self).temp_var_count == t_into_tmp(em_m(left), old(self).temp_var_count as nat).2,
    {
        let mut quad = Quadrupel::new();
        quad.op = QuadrupelOp::from_unary_operator(op);
        quad.arg1 = self.into_tmp(left);
        Expr::Quad(quad)
    }

    fn emit_expression_arr_acc(&mut self, array_var: QuadrupelVar, offset: Expr) -> (r: Expr)
        requires
            expr_plain(offset),
            old(self).temp_var_count + 1 <= usize::MAX,
        ensures
            extends(*old(self), *final(self)),
            plain(emitted(*old(self), *final(self))),
            final(self).label_num == old(self).label_num,
            old(self).temp_var_count <= final(self).temp_var_count <= old(self).temp_var_count + 1,
            expr_plain(r),
            code_m(emitted(*old(self), *final(self))) == t_into_tmp(em_m(offset), old(self).temp_var_count as nat).0,
            em_m(r) == EM::Quad(qm(QuadrupelOp::ArrayLoad, AM::Var(qvar_m(array_var)), t_into_tmp(em_m(offset), old(self).temp_var_count as nat).1)),
            final(self).temp_var_count == t_into_tmp(em_m(offset), old(self).temp_var_count as nat).2,
    {
        let mut quad = Quadrupel::new();
        quad.op = QuadrupelOp::ArrayLoad;
        quad.arg1 = QuadrupelArg::Var(array_var);
        quad.arg2 = self.into_tmp(offset);
        Expr::Quad(quad)
    }

    fn eval_array_access(&mut self, array_access: &ArrayAccess) -> (r: (QuadrupelVar, Expr))
        requires
            array_access.typ is Some,
            crate::types::byte_size_fits(*array_access.typ->Some_0.base_type),
            var_gen_ok(array_access.array),
            expr_gen_ok(array_access.index),
            old(self).temp_var_count + var_cost(array_access.array) + expr_cost(array_access.index) + 3 <= usize::MAX,
        ensures
            extends(*old(self), *final(self)),
            plain(emitted(*old(self), *final(self))),
            final(self).label_num == old(self).label_num,
            old(self).temp_var_count <= final(self).temp_var_count
                <= old(self).temp_var_count + var_cost(array_access.array) + expr_cost(array_access.index) + 3,
            expr_plain(r.1),
            code_m(emitted(*old(self), *final(self))) == t_array_access(*array_access, old(self).temp_var_count as nat).0,
            qvar_m(r.0) == t_array_access(*array_access, old(self).temp_var_count as nat).1,
            em_m(r.1) == t_array_access(*array_access, old(self).temp_var_count as nat).2,
            final(self).temp_var_count == t_array_access(*array_access, old(self).temp_var_count as nat).3,
        decreases array_access,
    {
        let ghost s0 = *self;
        let index = self.eval_expression(&array_access.index);
        let base_size = match &array_access.typ {
            Some(t) => (*t.base_type).get_byte_size(),
            None => 0,
        };
        let ghost s1 = *self;
        let mut offset = self.emit_expression_bin(Operator::Mul, index, Expr::Arg(QuadrupelArg::Const(base_size)));
        let ghost s2 = *self;
        proof {
            lemma_extends_trans(s0, s1, s2);
            lemma_concat(emitted(s0, s1), emitted(s1, s2));
            lemma_code_m_concat(emitted(s0, s1), emitted(s1, s2));
        }
        let var = match &array_access.array {
            Variable::NamedVariable(name) => QuadrupelVar::Spl(name.clone()),
            Variable::ArrayAccess(inner) => {
                let (inner_var, inner_offset) = self.eval_array_access(inner);
                let ghost s3 = *self;
                offset = self.emit_expression_bin(Operator::Add, offset, inner_offset);
                proof {
                    lemma_extends_trans(s2, s3, *final(self));
                    lemma_concat(emitted(s2, s3), emitted(s3, *final(self)));
                    lemma_code_m_concat(emitted(s2, s3), emitted(s3, *final(self)));
                    lemma_extends_trans(s0, s2, *final(self));
                    lemma_concat(emitted(s0, s2), emitted(s2, *final(self)));
                    lemma_code_m_concat(emitted(s0, s2), emitted(s2, *final(self)));
                    assert(code_m(emitted(s0, *final(self))) =~= code_m(emitted(s0, s1)) + code_m(emitted(s1, s2))
                        + code_m(emitted(s2, s3)) + code_m(emitted(s3, *final(self))));
                }
                inner_var
            },
        };
        (var, offset)
    }

    fn eval_expression_var(&mut self, var: &Variable) -> (r: Expr)
        requires
            var_gen_ok(*var),
            old(self).temp_var_count + var_cost(*var) <= usize::MAX,
        ensures
            extends(*old(self), *final(self)),
            plain(emitted(*old(self), *final(self))),
            final(self).label_num == old(self).label_num,
            old(self).temp_var_count <= final(self).temp_var_count <= old(self).temp_var_count + var_cost(*var),
            expr_plain(r),
            code_m(emitted(*old(self), *final(self))) == t_var(*var, old(self).temp_var_count as nat).0,
            em_m(r) == t_var(*var, old(self).temp_var_count as nat).1,
            final(self).temp_var_count == t_var(*var, old(self).temp_var_count as nat).2,
        decreases var,
    {
        match var {
            Variable::NamedVariable(name) => {
                proof {
                    lemma_extends_refl(*old(self));
                    lemma_code_m_empty();
                }
                Expr::Arg(QuadrupelArg::Var(QuadrupelVar::Spl(name.clone())))
            },
            Variable::ArrayAccess(array_access) => {
                let ghost s0 = *self;
                let (v, offset) = self.eval_array_access(array_access);
                let ghost s1 = *self;
                let r = self.emit_expression_arr_acc(v, offset);
                proof {
                    lemma_extends_trans(s0, s1, *final(self));
                    lemma_concat(emitted(s0, s1), emitted(s1, *final(self)));
                    lemma_code_m_concat(emitted(s0, s1), emitted(s1, *final(self)));
                }
                r
            },
        }
    }

    fn eval_expression(&mut self, exp: &Expression) -> (r: Expr)
        requires
            expr_gen_ok(*exp),
            old(self).temp_var_count + expr_cost(*exp) <= usize::MAX,
        ensures
            extends(*old(self), *final(self)),
            plain(emitted(*old(self), *final(self))),
            final(self).label_num == old(self).label_num,
            old(self).temp_var_count <= final(self).temp_var_count <= old(self).temp_var_count + expr_cost(*exp),
            expr_plain(r),
            code_m(emitted(*old(self), *final(self))) == t_expr(*exp, old(self).temp_var_count as nat).0,
            em_m(r) == t_expr(*exp, old(self).temp_var_count as nat).1,
            final(self).temp_var_count == t_expr(*exp, old(self).temp_var_count as nat).2,
        decreases exp,
    {
        let ghost s0 = *self;
        match exp {
            Expression::BinaryExpression(e) => {
                let left = self.eval_expression(&e.left);
                let ghost s1 = *self;
                let right = self.eval_expression(&e.right);
                let ghost s2 = *self;
                let r = self.emit_expression_bin(e.operator, left, right);
                proof {
                    lemma_extends_trans(s0, s1, s2);
                    lemma_concat(emitted(s0, s1), emitted(s1, s2));
                    lemma_code_m_concat(emitted(s0, s1), emitted(s1, s2));
                    lemma_extends_trans(s0, s2, *final(self));
                    lemma_concat(emitted(s0, s2), emitted(s2, *final(self)));
                    lemma_code_m_concat(emitted(s0, s2), emitted(s2, *final(self)));
                }
                r
            },
            Expression::UnaryExpression(e) => {
                let left = self.eval_expression(&e.operand);
                let ghost s1 = *self;
                let r = self.emit_expression_un(e.operator, left);
                proof {
                    lemma_extends_trans(s0, s1, *final(self));
                    lemma_concat(emitted(s0, s1), emitted(s1, *final(self)));
                    lemma_code_m_concat(emitted(s0, s1), emitted(s1, *final(self)));
                }
                r
            },
            Expression::IntLiteral(val) => {
                proof {
                    lemma_extends_refl(*old(self));
                    lemma_code_m_empty();
                }
                Expr::Arg(QuadrupelArg::Const(*val))
            },
            Expression::VariableExpression(var) => self.eval_expression_var(var),
        }
    }
}


impl Tac {
    fn create_label(&mut self) -> (r: String)
        requires
            old(self).label_num < u64::MAX,
        ensures
            r@ == label_name(old(self).label_num as nat),
            final(self).label_num == old(self).label_num + 1,
            final(self).temp_var_count == old(self).temp_var_count,
            final(self).quadrupels == old(self).quadrupels,
            extends(*old(self), *final(self)),
            emitted(*old(self), *final(self)) == Seq::<Quadrupel>::empty(),
    {
        let mut l = String::from_str("L");
        let d = nat_to_decimal(self.label_num);
        l.append(d.as_str());
        self.label_num = self.label_num + 1;
        proof {
            reveal_strlit("L");
            lemma_extends_refl(*old(self));
        }
        l
    }

    fn emit_label(&mut self, l: String)
        ensures
            extends(*old(self), *final(self)),
            final(self).label_num == old(self).label_num,
            final(self).temp_var_count == old(self).temp_var_count,
            labels_of(emitted(*old(self), *final(self))) == Set::<Seq<char>>::empty().insert(l@),
            targets_of(emitted(*old(self), *final(self))) == Set::<Seq<char>>::empty(),
            jumps_labelled(emitted(*old(self), *final(self))),
            labels_unique(emitted(*old(self), *final(self))),
            code_m(emitted(*old(self), *final(self))) == seq![label_qm(l@)],
    {
        let ghost gl = l@;
        let mut q = Quadrupel::new();
        q.result = QuadrupelResult::Label(l);
        let ghost gq = q;
        self.push_quad(q);
        proof {
            lemma_single(gq);
            assert(quad_label(gq) == Some(gl));
        }
    }

    fn emit_goto(&mut self, target: String)
        ensures
            extends(*old(self), *final(self)),
            final(self).label_num == old(self).label_num,
            final(self).temp_var_count == old(self).temp_var_count,
            labels_of(emitted(*old(self), *final(self))) == Set::<Seq<char>>::empty(),
            targets_of(emitted(*old(self), *final(self))) == Set::<Seq<char>>::empty().insert(target@),
            jumps_labelled(emitted(*old(self), *final(self))),
            labels_unique(emitted(*old(self), *final(self))),
            code_m(emitted(*old(self), *final(self))) == seq![goto_qm(target@)],
    {
        let ghost gl = target@;
        let mut q = Quadrupel::new();
        q.op = QuadrupelOp::Goto;
        q.result = QuadrupelResult::Label(target);
        let ghost gq = q;
        self.push_quad(q);
        proof {
            lemma_single(gq);
            assert(quad_jump(gq) == Some(gl));
        }
    }

    /// Evaluates both sides of a comparison and jumps to `target` when it does not hold.
    fn emit_cond_jump(&mut self, cond: &Expression, target: String)
        requires
            cond_gen_ok(*cond),
            old(self).temp_var_count + expr_cost(*cond) <= usize::MAX,
        ensures
            extends(*old(self), *final(self)),
            final(self).label_num == old(self).label_num,
            old(self).temp_var_count <= final(self).temp_var_count <= old(self).temp_var_count + expr_cost(*cond),
            labels_of(emitted(*old(self), *final(self))) == Set::<Seq<char>>::empty(),
            targets_of(emitted(*old(self), *final(self))) == Set::<Seq<char>>::empty().insert(target@),
            jumps_labelled(emitted(*old(self), *final(self))),
            labels_unique(emitted(*old(self), *final(self))),
            code_m(emitted(*old(self), *final(self))) == t_cond(*cond, target@, old(self).temp_var_count as nat).0,
            final(self).temp_var_count == t_cond(*cond, target@, old(self).temp_var_count as nat).1,
    {
        let ghost gl = target@;
        match cond {
            Expression::BinaryExpression(binex) => {
                let ghost s0 = *self;
                let left = self.eval_expression(&binex.left);
                let ghost s1 = *self;
                let right = self.eval_expression(&binex.right);
                let ghost s2 = *self;
                let mut q = Quadrupel::new();
                q.op = QuadrupelOp::from_operator(binex.operator).inv();
                q.arg1 = self.into_tmp(left);
                let ghost s3 = *self;
                q.arg2 = self.into_tmp(right);
                let ghost s4 = *self;
                q.result = QuadrupelResult::Label(target);
                let ghost gq = q;
                self.push_quad(q);
                proof {
                    lemma_extends_trans(s0, s1, s2);
                    lemma_concat(emitted(s0, s1), emitted(s1, s2));
                    lemma_extends_trans(s0, s2, s3);
                    lemma_concat(emitted(s0, s2), emitted(s2, s3));
                    lemma_extends_trans(s0, s3, s4);
                    lemma_concat(emitted(s0, s3), emitted(s3, s4));
                    lemma_plain(emitted(s0, s4), 0);
                    lemma_single(gq);
                    assert(quad_jump(gq) == Some(gl));
                    lemma_extends_trans(s0, s4, *final(self));
                    lemma_join(emitted(s0, s4), emitted(s4, *final(self)), Set::empty(), Set::empty());
                    assert(labels_of(emitted(s0, *final(self))) =~= Set::<Seq<char>>::empty());
                    assert(targets_of(emitted(s0, *final(self))) =~= Set::<Seq<char>>::empty().insert(gl));
                    lemma_code_m_concat(emitted(s0, s1), emitted(s1, s2));
                    lemma_code_m_concat(emitted(s0, s2), emitted(s2, s3));
                    lemma_code_m_concat(emitted(s0, s3), emitted(s3, s4));
                    lemma_code_m_concat(emitted(s0, s4), emitted(s4, *final(self)));
                }
            },
            _ => {
                proof {
                    assert(false);
                }
            },
        }
    }

    fn eval_assign_statement(&mut self, assign: &AssignStatement)
        requires
            var_gen_ok(assign.target),
            expr_gen_ok(assign.value),
            old(self).temp_var_count + var_cost(assign.target) + expr_cost(assign.value) + 2 <= usize::MAX,
        ensures
            extends(*old(self), *final(self)),
            plain(emitted(*old(self), *final(self))),
            final(self).label_num == old(self).label_num,
            old(self).temp_var_count <= final(self).temp_var_count
                <= old(self).temp_var_count + var_cost(assign.target) + expr_cost(assign.value) + 2,
            code_m(emitted(*old(self), *final(self))) == t_assign(*assign, old(self).temp_var_count as nat).0,
            final(self).temp_var_count == t_assign(*assign, old(self).temp_var_count as nat).1,
    {
        let ghost s0 = *self;
        let val = self.eval_expression(&assign.value);
        let ghost s1 = *self;
        match &assign.target {
            Variable::NamedVariable(name) => {
                let mut q = match val {
                    Expr::Quad(quad) => quad,
                    Expr::Arg(arg) => {
                        let mut q = Quadrupel::new();
                        q.op = QuadrupelOp::Assign;
                        q.arg1 = arg;
                        q
                    },
                };
                q.result = QuadrupelResult::Var(QuadrupelVar::Spl(name.clone()));
                let ghost gq = q;
                self.push_quad(q);
                proof {
                    assert(seq![gq][0] == gq);
                    assert(plain(seq![gq]));
                    lemma_extends_trans(s0, s1, *final(self));
                    lemma_concat(emitted(s0, s1), emitted(s1, *final(self)));
                    lemma_code_m_concat(emitted(s0, s1), emitted(s1, *final(self)));
                    let qv = match em_m(val) {
                        EM::Quad(q) => q,
                        EM::Arg(arg) => qm(QuadrupelOp::Assign, arg, AM::Empty),
                    };
                    assert(quad_m(gq) == (QM { result: crate::translation::RM::Var(VM::Spl(name@)), ..qv }));
                }
            },
            Variable::ArrayAccess(aa) => {
                let (var, offset) = self.eval_array_access(aa);
                let ghost s2 = *self;
                let mut q = Quadrupel::new();
                q.op = QuadrupelOp::ArrayStore;
                q.result = QuadrupelResult::Var(var);
                q.arg2 = self.into_tmp(offset);
                let ghost s3 = *self;
                q.arg1 = self.into_tmp(val);
                let ghost s4 = *self;
                let ghost gq = q;
                self.push_quad(q);
                proof {
                    assert(seq![gq][0] == gq);
                    assert(plain(seq![gq]));
                    lemma_extends_trans(s0, s1, s2);
                    lemma_concat(emitted(s0, s1), emitted(s1, s2));
                    lemma_extends_trans(s0, s2, s3);
                    lemma_concat(emitted(s0, s2), emitted(s2, s3));
                    lemma_extends_trans(s0, s3, s4);
                    lemma_concat(emitted(s0, s3), emitted(s3, s4));
                    lemma_extends_trans(s0, s4, *final(self));
                    lemma_concat(emitted(s0, s4), emitted(s4, *final(self)));
                    lemma_code_m_concat(emitted(s0, s1), emitted(s1, s2));
                    lemma_code_m_concat(emitted(s0, s2), emitted(s2, s3));
                    lemma_code_m_concat(emitted(s0, s3), emitted(s3, s4));
                    lemma_code_m_concat(emitted(s0, s4), emitted(s4, *final(self)));
                }
            },
        }
    }

    fn eval_call_statement(&mut self, call_state: &CallStatement)
        requires
            exprs_gen_ok(call_state.arguments@),
            call_state.arguments@.len() < i32::MAX,
            old(self).temp_var_count + exprs_cost(call_state.arguments@) + 1 <= usize::MAX,
        ensures
            extends(*old(self), *final(self)),
            plain(emitted(*old(self), *final(self))),
            final(self).label_num == old(self).label_num,
            old(self).temp_var_count <= final(self).temp_var_count
                <= old(self).temp_var_count + exprs_cost(call_state.arguments@),
            code_m(emitted(*old(self), *final(self))) == t_call(*call_state, old(self).temp_var_count as nat).0,
            final(self).temp_var_count == t_call(*call_state, old(self).temp_var_count as nat).1,
    {
        let ghost s0 = *self;
        let ghost args = call_state.arguments@;
        let mut count: i32 = 0;
        let mut i: usize = 0;
        proof {
            lemma_extends_refl(s0);
            assert(args.take(0) =~= Seq::<Expression>::empty());
            lemma_code_m_empty();
        }
        while i < call_state.arguments.len()
            invariant
                s0 == *old(self),
                args == call_state.arguments@,
                exprs_gen_ok(args),
                args.len() < i32::MAX,
                s0.temp_var_count + exprs_cost(args) + 1 <= usize::MAX,
                0 <= i <= args.len(),
                count == i,
                extends(s0, *self),
                plain(emitted(s0, *self)),
                self.label_num == s0.label_num,
                s0.temp_var_count <= self.temp_var_count <= s0.temp_var_count + exprs_cost(args.take(i as int)),
                code_m(emitted(s0, *self)) == t_args(args.take(i as int), s0.temp_var_count as nat).0,
                self.temp_var_count == t_args(args.take(i as int), s0.temp_var_count as nat).1,
            decreases args.len() - i,
        {
            proof {
                assert(args.take(i + 1).drop_last() =~= args.take(i as int));
                assert(args.take(i + 1).last() == args[i as int]);
                lemma_exprs_cost_prefix(args, i + 1, args.len() as int);
                assert(args.take(args.len() as int) =~= args);
            }
            count = count + 1;
            let ghost m0 = *self;
            let param = self.eval_expression(&call_state.arguments[i]);
            let ghost m1 = *self;
            let mut quad = Quadrupel::new();
            quad.op = QuadrupelOp::Param;
            quad.arg1 = self.into_tmp(param);
            let ghost m2 = *self;
            let ghost gq = quad;
            self.push_quad(quad);
            proof {
                assert(seq![gq][0] == gq);
                assert(plain(seq![gq]));
                lemma_extends_trans(m0, m1, m2);
                lemma_concat(emitted(m0, m1), emitted(m1, m2));
                lemma_extends_trans(m0, m2, *self);
                lemma_concat(emitted(m0, m2), emitted(m2, *self));
                lemma_extends_trans(s0, m0, *self);
                lemma_concat(emitted(s0, m0), emitted(m0, *self));
                lemma_code_m_concat(emitted(m0, m1), emitted(m1, m2));
                lemma_code_m_concat(emitted(m0, m2), emitted(m2, *self));
                lemma_code_m_concat(emitted(s0, m0), emitted(m0, *self));
                assert(quad_m(gq) == qm(QuadrupelOp::Param, qarg_m(gq.arg1), AM::Empty));
            }
            i = i + 1;
        }
        proof {
            assert(args.take(args.len() as int) =~= args);
        }
        let mut quad = Quadrupel::new();
        quad.op = QuadrupelOp::Call;
        quad.arg1 = QuadrupelArg::Var(QuadrupelVar::Spl(call_state.name.clone()));
        quad.arg2 = QuadrupelArg::Const(count);
        let ghost m3 = *self;
        let ghost gq = quad;
        self.push_quad(quad);
        proof {
            assert(seq![gq][0] == gq);
            assert(plain(seq![gq]));
            lemma_extends_trans(s0, m3, *self);
            lemma_concat(emitted(s0, m3), emitted(m3, *self));
            lemma_code_m_concat(emitted(s0, m3), emitted(m3, *self));
            assert(quad_m(gq) == qm(QuadrupelOp::Call, AM::Var(VM::Spl(call_state.name@)), AM::Const(args.len() as int)));
        }
    }
}


impl Tac {
    fn eval_if_statement(&mut self, if_state: &IfStatement)
        requires
            cond_gen_ok(if_state.condition),
            stmt_gen_ok(if_state.then_branch),
            match if_state.else_branch {
                Some(e) => stmt_gen_ok(e),
                None => true,
            },
            old(self).temp_var_count + if_cost(*if_state) <= usize::MAX,
            old(self).label_num + if_cost(*if_state) <= u64::MAX,
        ensures
            extends(*old(self), *final(self)),
            well_labelled(emitted(*old(self), *final(self)), old(self).label_num as nat, final(self).label_num as nat),
            old(self).label_num <= final(self).label_num <= old(self).label_num + if_cost(*if_state),
            old(self).temp_var_count <= final(self).temp_var_count <= old(self).temp_var_count + if_cost(*if_state),
            code_m(emitted(*old(self), *final(self))) == t_if(*if_state, old(self).temp_var_count as nat, old(self).label_num as nat).0,
            final(self).temp_var_count == t_if(*if_state, old(self).temp_var_count as nat, old(self).label_num as nat).1,
            final(self).label_num == t_if(*if_state, old(self).temp_var_count as nat, old(self).label_num as nat).2,
        decreases if_state,
    {
        let ghost s0 = *self;
        let ghost n = s0.label_num as nat;
        let else_label = self.create_label();
        let ghost sa = *self;
        let end_label = self.create_label();
        let ghost le = else_label@;
        let ghost ln = end_label@;
        let ghost a0 = *self;
        self.emit_cond_jump(&if_state.condition, else_label.clone());
        let ghost a1 = *self;
        self.eval_statement(&if_state.then_branch);
        let ghost a2 = *self;
        if if_state.else_branch.is_some() {
            self.emit_goto(end_label.clone());
        } else {
            proof {
                lemma_extends_refl(a2);
            }
        }
        let ghost a3 = *self;
        self.emit_label(else_label);
        let ghost a4 = *self;
        match &if_state.else_branch {
            Some(st) => {
                proof {
                    assert(decreases_to!(if_state => if_state.else_branch));
                }
                self.eval_statement(st);
            },
            None => {
                proof {
                    lemma_extends_refl(a4);
                }
            },
        }
        let ghost a5 = *self;
        self.emit_label(end_label);
        proof {
            let m1 = a2.label_num as nat;
            let m2 = a5.label_num as nat;
            let ca = emitted(a0, a1);
            let ct = emitted(a1, a2);
            let cg = emitted(a2, a3);
            let cle = emitted(a3, a4);
            let ce = emitted(a4, a5);
            let cln = emitted(a5, *final(self));
            let e = Set::<Seq<char>>::empty();
            let r_t = label_range(n + 2, m1);
            let r_le = label_range(n, n + 1);
            let r_e = label_range(m1, m2);
            let r_ln = label_range(n + 1, n + 2);
            lemma_range_has(n, n, n + 1);
            lemma_range_has(n + 1, n + 1, n + 2);
            if if_state.else_branch is None {
                assert(ce =~= Seq::<Quadrupel>::empty());
                lemma_plain(ce, m1);
            }
            assert(cg =~= Seq::<Quadrupel>::empty() || targets_of(cg) == e.insert(ln));
            if cg =~= Seq::<Quadrupel>::empty() {
                lemma_plain(cg, 0);
            }
            lemma_join(ca, ct, e, r_t);
            lemma_join(ca + ct, cg, e.union(r_t), e);
            lemma_ranges_disjoint(n, n + 1, n + 2, m1);
            lemma_join(ca + ct + cg, cle, e.union(r_t).union(e), r_le);
            lemma_ranges_disjoint(n + 2, m1, m1, m2);
            lemma_ranges_disjoint(n, n + 1, m1, m2);
            lemma_join(ca + ct + cg + cle, ce, e.union(r_t).union(e).union(r_le), r_e);
            lemma_ranges_disjoint(n + 1, n + 2, n + 2, m1);
            lemma_ranges_disjoint(n, n + 1, n + 1, n + 2);
            lemma_ranges_disjoint(n + 1, n + 2, m1, m2);
            lemma_join(ca + ct + cg + cle + ce, cln, e.union(r_t).union(e).union(r_le).union(r_e), r_ln);
            lemma_range_mono(n + 2, m1, n, m2);
            lemma_range_mono(n, n + 1, n, m2);
            lemma_range_mono(m1, m2, n, m2);
            lemma_range_mono(n + 1, n + 2, n, m2);
            lemma_extends_trans(s0, sa, a0);
            lemma_extends_trans(s0, a0, a1);
            lemma_extends_trans(s0, a1, a2);
            lemma_extends_trans(s0, a2, a3);
            lemma_extends_trans(s0, a3, a4);
            lemma_extends_trans(s0, a4, a5);
            lemma_extends_trans(s0, a5, *final(self));
            assert(emitted(s0, a0) =~= Seq::<Quadrupel>::empty());
            assert(emitted(s0, a1) =~= ca);
            let all = ca + ct + cg + cle + ce + cln;
            assert(emitted(s0, *final(self)) =~= all);
            assert(labels_of(all).subset_of(label_range(n, m2)));
            assert(targets_of(all).subset_of(labels_of(all)));
            assert(code_m(all) =~= code_m(ca) + code_m(ct) + code_m(cg) + code_m(cle) + code_m(ce) + code_m(cln));
            if if_state.else_branch is None {
                lemma_code_m_empty();
            }
            assert(code_m(all) =~= t_if(*if_state, s0.temp_var_count as nat, n).0);
        }
    }

    fn eval_while_statement(&mut self, while_state: &WhileStatement)
        requires
            cond_gen_ok(while_state.condition),
            stmt_gen_ok(while_state.body),
            old(self).temp_var_count + while_cost(*while_state) <= usize::MAX,
            old(self).label_num + while_cost(*while_state) <= u64::MAX,
        ensures
            extends(*old(self), *final(self)),
            well_labelled(emitted(*old(self), *final(self)), old(self).label_num as nat, final(self).label_num as nat),
            old(self).label_num <= final(self).label_num <= old(self).label_num + while_cost(*while_state),
            old(self).temp_var_count <= final(self).temp_var_count <= old(self).temp_var_count + while_cost(*while_state),
            code_m(emitted(*old(self), *final(self))) == t_while(*while_state, old(self).temp_var_count as nat, old(self).label_num as nat).0,
            final(self).temp_var_count == t_while(*while_state, old(self).temp_var_count as nat, old(self).label_num as nat).1,
            final(self).label_num == t_while(*while_state, old(self).temp_var_count as nat, old(self).label_num as nat).2,
        decreases while_state,
    {
        let ghost s0 = *self;
        let ghost n = s0.label_num as nat;
        let jmp_label = self.create_label();
        let ghost sa = *self;
        let while_label = self.create_label();
        let ghost lj = jmp_label@;
        let ghost lw = while_label@;
        let ghost a0 = *self;
        self.emit_label(while_label.clone());
        let ghost a1 = *self;
        self.emit_cond_jump(&while_state.condition, jmp_label.clone());
        let ghost a2 = *self;
        self.eval_statement(&while_state.body);
        let ghost a3 = *self;
        self.emit_goto(while_label);
        let ghost a4 = *self;
        self.emit_label(jmp_label);
        proof {
            let m = a3.label_num as nat;
            let cw = emitted(a0, a1);
            let ca = emitted(a1, a2);
            let cb = emitted(a2, a3);
            let cg = emitted(a3, a4);
            let cj = emitted(a4, *final(self));
            let e = Set::<Seq<char>>::empty();
            let r_w = label_range(n + 1, n + 2);
            let r_b = label_range(n + 2, m);
            let r_j = label_range(n, n + 1);
            lemma_range_has(n, n, n + 1);
            lemma_range_has(n + 1, n + 1, n + 2);
            lemma_join(cw, ca, r_w, e);
            lemma_ranges_disjoint(n + 1, n + 2, n + 2, m);
            lemma_join(cw + ca, cb, r_w.union(e), r_b);
            lemma_join(cw + ca + cb, cg, r_w.union(e).union(r_b), e);
            lemma_ranges_disjoint(n, n + 1, n + 1, n + 2);
            lemma_ranges_disjoint(n, n + 1, n + 2, m);
            lemma_join(cw + ca + cb + cg, cj, r_w.union(e).union(r_b).union(e), r_j);
            lemma_range_mono(n + 1, n + 2, n, m);
            lemma_range_mono(n + 2, m, n, m);
            lemma_range_mono(n, n + 1, n, m);
            lemma_extends_trans(s0, sa, a0);
            lemma_extends_trans(s0, a0, a1);
            lemma_extends_trans(s0, a1, a2);
            lemma_extends_trans(s0, a2, a3);
            lemma_extends_trans(s0, a3, a4);
            lemma_extends_trans(s0, a4, *final(self));
            assert(emitted(s0, a0) =~= Seq::<Quadrupel>::empty());
            assert(emitted(s0, a1) =~= cw);
            let all = cw + ca + cb + cg + cj;
            assert(emitted(s0, *final(self)) =~= all);
            assert(labels_of(all).subset_of(label_range(n, m)));
            assert(targets_of(all).subset_of(labels_of(all)));
            assert(code_m(all) =~= code_m(cw) + code_m(ca) + code_m(cb) + code_m(cg) + code_m(cj));
            assert(code_m(all) =~= t_while(*while_state, s0.temp_var_count as nat, n).0);
        }
    }

    fn eval_statement(&mut self, statement: &Statement)
        requires
            stmt_gen_ok(*statement),
            old(self).temp_var_count + stmt_cost(*statement) <= usize::MAX,
            old(self).label_num + stmt_cost(*statement) <= u64::MAX,
        ensures
            extends(*old(self), *final(self)),
            well_labelled(emitted(*old(self), *final(self)), old(self).label_num as nat, final(self).label_num as nat),
            old(self).label_num <= final(self).label_num <= old(self).label_num + stmt_cost(*statement),
            old(self).temp_var_count <= final(self).temp_var_count <= old(self).temp_var_count + stmt_cost(*statement),
            code_m(emitted(*old(self), *final(self))) == t_stmt(*statement, old(self).temp_var_count as nat, old(self).label_num as nat).0,
            final(self).temp_var_count == t_stmt(*statement, old(self).temp_var_count as nat, old(self).label_num as nat).1,
            final(self).label_num == t_stmt(*statement, old(self).temp_var_count as nat, old(self).label_num as nat).2,
        decreases statement,
    {
        match statement {
            Statement::AssignStatement(assign) => {
                self.eval_assign_statement(assign);
                proof {
                    lemma_plain(emitted(*old(self), *final(self)), old(self).label_num as nat);
                }
            },
            Statement::IfStatement(if_state) => {
                self.eval_if_statement(if_state);
            },
            Statement::WhileStatement(while_state) => {
                self.eval_while_statement(while_state);
            },
            Statement::CallStatement(call_state) => {
                self.eval_call_statement(call_state);
                proof {
                    lemma_plain(emitted(*old(self), *final(self)), old(self).label_num as nat);
                }
            },
            Statement::CompoundStatement(inner) => {
                self.eval_statements(inner);
            },
            Statement::EmptyStatement => {
                proof {
                    lemma_extends_refl(*old(self));
                    lemma_plain(emitted(*old(self), *final(self)), old(self).label_num as nat);
                    lemma_code_m_empty();
                }
            },
        }
    }

    fn eval_statements(&mut self, stmts: &Vec<Statement>)
        requires
            stmts_gen_ok(stmts@),
            old(self).temp_var_count + stmts_cost(stmts@) <= usize::MAX,
            old(self).label_num + stmts_cost(stmts@) <= u64::MAX,
        ensures
            extends(*old(self), *final(self)),
            well_labelled(emitted(*old(self), *final(self)), old(self).label_num as nat, final(self).label_num as nat),
            old(self).label_num <= final(self).label_num <= old(self).label_num + stmts_cost(stmts@),
            old(self).temp_var_count <= final(self).temp_var_count <= old(self).temp_var_count + stmts_cost(stmts@),
            code_m(emitted(*old(self), *final(self))) == t_stmts(stmts@, old(self).temp_var_count as nat, old(self).label_num as nat).0,
            final(self).temp_var_count == t_stmts(stmts@, old(self).temp_var_count as nat, old(self).label_num as nat).1,
            final(self).label_num == t_stmts(stmts@, old(self).temp_var_count as nat, old(self).label_num as nat).2,
        decreases stmts,
    {
        let ghost s0 = *self;
        let ghost ss = stmts@;
        let mut i: usize = 0;
        proof {
            lemma_extends_refl(s0);
            lemma_plain(emitted(s0, s0), s0.label_num as nat);
            assert(ss.take(0) =~= Seq::<Statement>::empty());
            lemma_code_m_empty();
        }
        while i < stmts.len()
            invariant
                s0 == *old(self),
                ss == stmts@,
                stmts_gen_ok(ss),
                s0.temp_var_count + stmts_cost(ss) <= usize::MAX,
                s0.label_num + stmts_cost(ss) <= u64::MAX,
                0 <= i <= ss.len(),
                extends(s0, *self),
                well_labelled(emitted(s0, *self), s0.label_num as nat, self.label_num as nat),
                s0.label_num <= self.label_num <= s0.label_num + stmts_cost(ss.take(i as int)),
                s0.temp_var_count <= self.temp_var_count <= s0.temp_var_count + stmts_cost(ss.take(i as int)),
                code_m(emitted(s0, *self)) == t_stmts(ss.take(i as int), s0.temp_var_count as nat, s0.label_num as nat).0,
                self.temp_var_count == t_stmts(ss.take(i as int), s0.temp_var_count as nat, s0.label_num as nat).1,
                self.label_num == t_stmts(ss.take(i as int), s0.temp_var_count as nat, s0.label_num as nat).2,
            decreases ss.len() - i,
        {
            proof {
                assert(ss.take(i + 1).drop_last() =~= ss.take(i as int));
                assert(ss.take(i + 1).last() == ss[i as int]);
                lemma_stmts_cost_prefix(ss, i + 1, ss.len() as int);
                assert(ss.take(ss.len() as int) =~= ss);
                lemma_stmts_gen_ok_index(ss, i as int);
                assert(decreases_to!(stmts => stmts@)) by {
                    broadcast use vstd::std_specs::vec::axiom_vec_decreases_to_view;
                }
            }
            let ghost m0 = *self;
            self.eval_statement(&stmts[i]);
            proof {
                lemma_extends_trans(s0, m0, *self);
                lemma_seq_join(emitted(s0, m0), emitted(m0, *self), s0.label_num as nat, m0.label_num as nat, self.label_num as nat);
                lemma_code_m_concat(emitted(s0, m0), emitted(m0, *self));
            }
            i = i + 1;
        }
        proof {
            assert(ss.take(ss.len() as int) =~= ss);
        }
    }

    fn eval_proc_def(&mut self, proc_def: &ProcedureDefinition)
        requires
            old(self).quadrupels@.len() == 0,
            stmts_gen_ok(proc_def.body@),
            old(self).temp_var_count + stmts_cost(proc_def.body@) <= usize::MAX,
            old(self).label_num + stmts_cost(proc_def.body@) <= u64::MAX,
        ensures
            proc_code_ok(final(self).quadrupels@, proc_def.name@),
            old(self).label_num <= final(self).label_num <= old(self).label_num + stmts_cost(proc_def.body@),
            code_m(final(self).quadrupels@) == seq![label_qm(proc_def.name@)]
                + t_stmts(proc_def.body@, old(self).temp_var_count as nat, old(self).label_num as nat).0,
            final(self).label_num == t_stmts(proc_def.body@, old(self).temp_var_count as nat, old(self).label_num as nat).2,
            final(self).proc_table == old(self).proc_table,
            final(self).global_table == old(self).global_table,
            final(self).current_proc == old(self).current_proc,
    {
        let mut head = Quadrupel::new();
        head.result = QuadrupelResult::Label(proc_def.name.clone());
        let ghost gh = head;
        self.push_quad(head);
        let ghost s1 = *self;
        self.eval_statements(&proc_def.body);
        proof {
            let body = emitted(s1, *self);
            let code = self.quadrupels@;
            lemma_extends_trans(*old(self), s1, *self);
            assert(emitted(*old(self), s1) =~= seq![gh]);
            assert(old(self).quadrupels@.skip(0) =~= old(self).quadrupels@);
            assert(code =~= seq![gh] + body);
            lemma_single(gh);
            lemma_concat(seq![gh], body);
            assert(code[0] == gh);
            assert(code.drop_first() =~= body);
            lemma_range_mono(s1.label_num as nat, self.label_num as nat, 0, self.label_num as nat);
            assert(labels_of(code.drop_first()).subset_of(label_range(0, self.label_num as nat)));
            assert(targets_of(code).subset_of(labels_of(code)));
            lemma_code_m_concat(seq![gh], body);
            lemma_code_m_single(gh);
            assert(quad_m(gh) == label_qm(proc_def.name@));
        }
    }
}

/// The code the table holds under the name `k`, if any.
pub open spec fn stored_code(t: Seq<(String, Vec<Quadrupel>)>, k: Seq<char>) -> Option<Seq<QM>> {
    if has_name(t, k) {
        let i = choose|i: int| 0 <= i < t.len() && (#[trigger] t[i]).0@ == k;
        Some(code_m(t[i].1@))
    } else {
        None
    }
}

proof fn lemma_stored_code_at(t: Seq<(String, Vec<Quadrupel>)>, i: int)
    requires
        procs_ok(t),
        0 <= i < t.len(),
    ensures
        stored_code(t, t[i].0@) == Some(code_m(t[i].1@)),
{
    let k = t[i].0@;
    assert(has_name(t, k));
    let j = choose|j: int| 0 <= j < t.len() && (#[trigger] t[j]).0@ == k;
    if j < i {
        assert(t[j].0@ != t[i].0@);
    } else if i < j {
        assert(t[i].0@ != t[j].0@);
    }
}


/// The table holds the name `k`.
pub open spec fn has_name(t: Seq<(String, Vec<Quadrupel>)>, k: Seq<char>) -> bool {
    exists|i: int| 0 <= i < t.len() && (#[trigger] t[i]).0@ == k
}

/// Each name occurs once in the table, and the code under each name is well formed for it.
pub open spec fn procs_ok(t: Seq<(String, Vec<Quadrupel>)>) -> bool {
    &&& forall|i: int| 0 <= i < t.len() ==> proc_code_ok((#[trigger] t[i]).1@, t[i].0@)
    &&& forall|i: int, j: int| 0 <= i < j < t.len() ==> (#[trigger] t[i]).0@ != (#[trigger] t[j]).0@
}

/// Stores `code` under `name`, in place of the code stored under it before, if any.
fn store_proc(table: &mut Vec<(String, Vec<Quadrupel>)>, name: String, code: Vec<Quadrupel>)
    requires
        procs_ok(old(table)@),
        proc_code_ok(code@, name@),
    ensures
        procs_ok(final(table)@),
        forall|k: Seq<char>| has_name(final(table)@, k) <==> (k == name@ || has_name(old(table)@, k)),
        exists|i: int| 0 <= i < final(table)@.len() && (#[trigger] final(table)@[i]).0@ == name@ && final(table)@[i].1@ == code@,
        forall|k: Seq<char>| #[trigger] stored_code(final(table)@, k)
            == if k == name@ { Some(code_m(code@)) } else { stored_code(old(table)@, k) },
{
    let ghost t0 = table@;
    let ghost gn = name@;
    let ghost gc = code@;
    let mut i: usize = 0;
    while i < table.len()
        invariant
            table@ == t0,
            t0 == old(table)@,
            procs_ok(t0),
            gn == name@,
            gc == code@,
            proc_code_ok(gc, gn),
            0 <= i <= t0.len(),
            forall|j: int| 0 <= j < i ==> (#[trigger] t0[j]).0@ != gn,
        decreases t0.len() - i,
    {
        if table[i].0 == name {
            table.set(i, (name, code));
            proof {
                let t1 = table@;
                assert(t1[i as int].0@ == gn);
                assert forall|k: Seq<char>| has_name(t1, k) <==> (k == gn || has_name(t0, k)) by {
                    if has_name(t1, k) {
                        let j = choose|j: int| 0 <= j < t1.len() && (#[trigger] t1[j]).0@ == k;
                        if j != i {
                            assert(t0[j] == t1[j]);
                        }
                    }
                    if has_name(t0, k) {
                        let j = choose|j: int| 0 <= j < t0.len() && (#[trigger] t0[j]).0@ == k;
                        if j != i {
                            assert(t0[j] == t1[j]);
                        } else {
                            assert(t1[j].0@ == k);
                        }
                    }
                    if k == gn {
                        assert(t1[i as int].0@ == k);
                    }
                }
                assert forall|a: int, b: int| 0 <= a < b < t1.len() implies (#[trigger] t1[a]).0@ != (#[trigger] t1[b]).0@ by {
                    assert(t1[a].0@ == t0[a].0@);
                    assert(t1[b].0@ == t0[b].0@);
                }
                assert forall|k: Seq<char>| #[trigger] stored_code(t1, k)
                    == if k == gn { Some(code_m(gc)) } else { stored_code(t0, k) } by {
                    if k == gn {
                        lemma_stored_code_at(t1, i as int);
                    } else if has_name(t0, k) {
                        let j = choose|j: int| 0 <= j < t0.len() && (#[trigger] t0[j]).0@ == k;
                        lemma_stored_code_at(t0, j);
                        assert(j != i);
                        assert(t1[j] == t0[j]);
                        lemma_stored_code_at(t1, j);
                    }
                }
            }
            return;
        }
        i = i + 1;
    }
    table.push((name, code));
    proof {
        let t1 = table@;
        let n = t0.len() as int;
        assert(t1[n].0@ == gn);
        assert forall|k: Seq<char>| has_name(t1, k) <==> (k == gn || has_name(t0, k)) by {
            if has_name(t1, k) {
                let j = choose|j: int| 0 <= j < t1.len() && (#[trigger] t1[j]).0@ == k;
                if j < n {
                    assert(t0[j] == t1[j]);
                }
            }
            if has_name(t0, k) {
                let j = choose|j: int| 0 <= j < t0.len() && (#[trigger] t0[j]).0@ == k;
                assert(t0[j] == t1[j]);
            }
            if k == gn {
                assert(t1[n].0@ == k);
            }
        }
        assert forall|a: int, b: int| 0 <= a < b < t1.len() implies (#[trigger] t1[a]).0@ != (#[trigger] t1[b]).0@ by {
            assert(t1[a] == t0[a] || a == n);
            if b == n {
                assert(t0[a] == t1[a]);
                assert(t0[a].0@ != gn);
            } else {
                assert(t0[a] == t1[a] && t0[b] == t1[b]);
            }
        }
        assert forall|k: Seq<char>| #[trigger] stored_code(t1, k)
            == if k == gn { Some(code_m(gc)) } else { stored_code(t0, k) } by {
            if k == gn {
                lemma_stored_code_at(t1, n);
            } else if has_name(t0, k) {
                let j = choose|j: int| 0 <= j < t0.len() && (#[trigger] t0[j]).0@ == k;
                lemma_stored_code_at(t0, j);
                assert(t1[j] == t0[j]);
                lemma_stored_code_at(t1, j);
            }
        }
    }
}

impl Tac {
    /// Translates one procedure and stores its code under its name.
    fn translate_proc(&mut self, proc_def: &ProcedureDefinition)
        requires
            old(self).idle(),
            procs_ok(old(self).proc_table@),
            stmts_gen_ok(proc_def.body@),
            stmts_cost(proc_def.body@) <= usize::MAX,
            old(self).label_num + stmts_cost(proc_def.body@) <= u64::MAX,
        ensures
            final(self).idle(),
            procs_ok(final(self).proc_table@),
            forall|k: Seq<char>| has_name(final(self).proc_table@, k)
                <==> (k == proc_def.name@ || has_name(old(self).proc_table@, k)),
            final(self).global_table == old(self).global_table,
            old(self).label_num <= final(self).label_num <= old(self).label_num + stmts_cost(proc_def.body@),
            forall|k: Seq<char>| #[trigger] stored_code(final(self).proc_table@, k)
                == if k == proc_def.name@ { Some(t_proc(*proc_def, old(self).label_num as nat).0) } else { stored_code(old(self).proc_table@, k) },
            final(self).label_num == t_proc(*proc_def, old(self).label_num as nat).1,
    {
        let name = proc_def.name.clone();
        self.current_proc = Some(name.clone());
        self.eval_proc_def(proc_def);
        let mut quad: Vec<Quadrupel> = Vec::new();
        std::mem::swap(&mut quad, &mut self.quadrupels);
        store_proc(&mut self.proc_table, name, quad);
        self.temp_var_count = 0;
    }

    /// Translates every procedure of the program. Afterwards the table holds, under each
    /// procedure's name, the code of the translation scheme (`t_proc`): it starts with that
    /// name as a label, and its jumps all lead to labels it marks. Label numbers go on from
    /// one procedure to the next; a later procedure of the same name replaces an earlier one.
    pub fn code_generation(&mut self, ast: &Program)
        requires
            old(self).idle(),
            procs_ok(old(self).procs()),
            program_gen_ok(ast.definitions@),
            old(self).labels_made() + defs_cost(ast.definitions@) <= u64::MAX,
        ensures
            final(self).idle(),
            procs_ok(final(self).procs()),
            forall|k: Seq<char>| has_name(final(self).procs(), k)
                <==> (has_name(old(self).procs(), k) || proc_names(ast.definitions@).contains(k)),
            forall|k: Seq<char>| #[trigger] stored_code(final(self).procs(), k)
                == match program_code(ast.definitions@, old(self).labels_made(), k) {
                    Some(c) => Some(c),
                    None => stored_code(old(self).procs(), k),
                },
            final(self).global_table() == old(self).global_table(),
            old(self).labels_made() <= final(self).labels_made() <= old(self).labels_made() + defs_cost(ast.definitions@),
            final(self).labels_made() == labels_after(ast.definitions@, old(self).labels_made()),
    {
        let ghost defs = ast.definitions@;
        let ghost t0 = self.proc_table@;
        let ghost l0 = self.label_num;
        let ghost g0 = self.global_table;
        let mut i: usize = 0;
        proof {
            assert(defs.take(0) =~= Seq::<Definition>::empty());
            assert forall|k: Seq<char>| !proc_names(defs.take(0)).contains(k) by {}
            assert forall|k: Seq<char>| #[trigger] stored_code(self.proc_table@, k)
                == match program_code(defs.take(0), l0 as nat, k) {
                    Some(c) => Some(c),
                    None => stored_code(t0, k),
                } by {
                assert(program_code(defs.take(0), l0 as nat, k) is None);
            }
        }
        while i < ast.definitions.len()
            invariant
                defs == ast.definitions@,
                t0 == old(self).proc_table@,
                program_gen_ok(defs),
                l0 + defs_cost(defs) <= u64::MAX,
                0 <= i <= defs.len(),
                self.idle(),
                procs_ok(self.proc_table@),
                self.global_table == g0,
                l0 <= self.label_num <= l0 + defs_cost(defs.take(i as int)),
                forall|k: Seq<char>| has_name(self.proc_table@, k)
                    <==> (has_name(t0, k) || proc_names(defs.take(i as int)).contains(k)),
                forall|k: Seq<char>| #[trigger] stored_code(self.proc_table@, k)
                    == match program_code(defs.take(i as int), l0 as nat, k) {
                        Some(c) => Some(c),
                        None => stored_code(t0, k),
                    },
                self.label_num == labels_after(defs.take(i as int), l0 as nat),
            decreases defs.len() - i,
        {
            proof {
                assert(defs.take(i + 1).drop_last() =~= defs.take(i as int));
                assert(defs.take(i + 1).last() == defs[i as int]);
                lemma_defs_cost_prefix(defs, i + 1, defs.len() as int);
                assert(defs.take(defs.len() as int) =~= defs);
                lemma_proc_names_step(defs, i as int);
            }
            let ghost prev = self.proc_table@;
            assert(forall|k: Seq<char>| has_name(prev, k)
                <==> (has_name(t0, k) || proc_names(defs.take(i as int)).contains(k)));
            match &ast.definitions[i] {
                Definition::ProcedureDefinition(proc_def) => {
                    self.translate_proc(proc_def);
                    proof {
                        assert forall|k: Seq<char>| #[trigger] stored_code(self.proc_table@, k)
                            == match program_code(defs.take(i + 1), l0 as nat, k) {
                                Some(c) => Some(c),
                                None => stored_code(t0, k),
                            } by {
                            assert(stored_code(prev, k) == match program_code(defs.take(i as int), l0 as nat, k) {
                                Some(c) => Some(c),
                                None => stored_code(t0, k),
                            });
                        }
                        assert(def_proc_name(defs[i as int]) == Some(proc_def.name@));
                        assert forall|k: Seq<char>| has_name(self.proc_table@, k)
                            <==> (has_name(t0, k) || proc_names(defs.take(i + 1)).contains(k)) by {
                            assert(has_name(self.proc_table@, k) <==> (k == proc_def.name@ || has_name(prev, k)));
                            assert(has_name(prev, k) <==> (has_name(t0, k) || proc_names(defs.take(i as int)).contains(k)));
                        }
                    }
                },
                Definition::TypeDefinition(_) => {
                    proof {
                        assert forall|k: Seq<char>| #[trigger] stored_code(self.proc_table@, k)
                            == match program_code(defs.take(i + 1), l0 as nat, k) {
                                Some(c) => Some(c),
                                None => stored_code(t0, k),
                            } by {
                            assert(stored_code(prev, k) == match program_code(defs.take(i as int), l0 as nat, k) {
                                Some(c) => Some(c),
                                None => stored_code(t0, k),
                            });
                        }
                        assert(def_proc_name(defs[i as int]) is None);
                        assert forall|k: Seq<char>| has_name(self.proc_table@, k)
                            <==> (has_name(t0, k) || proc_names(defs.take(i + 1)).contains(k)) by {
                            assert(has_name(self.proc_table@, k) <==> (has_name(t0, k) || proc_names(defs.take(i as int)).contains(k)));
                        }
                    }
                },
            }
            i = i + 1;
        }
        proof {
            assert(defs.take(defs.len() as int) =~= defs);
        }
    }
}


impl Tac {
    /// The translated procedures, each name with its code.
    pub fn procedures(&self) -> (r: &Vec<(String, Vec<Quadrupel>)>)
        ensures
            r@ == self.procs(),
    {
        &self.proc_table
    }

    /// The block graph of each translated procedure, in the order of the procedure table.
    pub fn proc_graphs(&self) -> (r: Vec<(String, BlockGraph)>)
        requires
            procs_ok(self.procs()),
        ensures
            r@.len() == self.procs().len(),
            forall|i: int| 0 <= i < r@.len() ==> (#[trigger] r@[i]).0@ == self.procs()[i].0@
                && blocks_of(self.procs()[i].1@, r@[i].1),
    {
        let mut out: Vec<(String, BlockGraph)> = Vec::new();
        let mut i: usize = 0;
        while i < self.proc_table.len()
            invariant
                procs_ok(self.procs()),
                self.procs() == self.proc_table@,
                0 <= i <= self.proc_table@.len(),
                out@.len() == i,
                forall|j: int| 0 <= j < i ==> (#[trigger] out@[j]).0@ == self.procs()[j].0@
                    && blocks_of(self.procs()[j].1@, out@[j].1),
            decreases self.proc_table@.len() - i,
        {
            let entry = &self.proc_table[i];
            proof {
                assert(proc_code_ok(self.procs()[i as int].1@, self.procs()[i as int].0@));
            }
            let g = BlockGraph::from_tac(entry.1.as_slice());
            out.push((entry.0.clone(), g));
            i = i + 1;
        }
        out
    }
}

} // verus!
