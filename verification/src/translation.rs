//! The translation scheme from the abstract syntax tree to three-address code, as spec
//! functions over a view of the quadruples in which names are sequences of characters.
//!
//! Each function takes the number of temporaries (and of labels) already used and gives
//! the code it emits with the numbers afterwards. Temporaries are numbered in the order
//! in which they are created; labels are `L` and a number, two per `if` and `while`.
use vstd::prelude::*;
use crate::absyn::{ArrayAccess, AssignStatement, BinaryExpression, CallStatement, Definition, Expression, IfStatement, Operator, ProcedureDefinition, Statement, Variable, WhileStatement};
use crate::codegen_spec::label_name;
use crate::quadrupel::{Quadrupel, QuadrupelArg, QuadrupelOp, QuadrupelResult, QuadrupelVar, spec_inv, spec_op_of};
use crate::types::spec_byte_size;

verus! {

/// A variable of the three-address code.
pub enum VM {
    Spl(Seq<char>),
    Tmp(nat),
}

/// An operand.
pub enum AM {
    Var(VM),
    Const(int),
    Empty,
}

/// A result field.
pub enum RM {
    Var(VM),
    Label(Seq<char>),
    Empty,
}

/// A quadruple.
pub struct QM {
    pub op: QuadrupelOp,
    pub arg1: AM,
    pub arg2: AM,
    pub result: RM,
}

/// The translation of an expression: a quadruple that still waits for its result, or an
/// operand.
pub enum EM {
    Quad(QM),
    Arg(AM),
}

pub open spec fn qvar_m(v: QuadrupelVar) -> VM {
    match v {
        QuadrupelVar::Spl(s) => VM::Spl(s@),
        QuadrupelVar::Tmp(n) => VM::Tmp(n as nat),
    }
}

pub open spec fn qarg_m(a: QuadrupelArg) -> AM {
    match a {
        QuadrupelArg::Var(v) => AM::Var(qvar_m(v)),
        QuadrupelArg::Const(c) => AM::Const(c as int),
        QuadrupelArg::Empty => AM::Empty,
    }
}

pub open spec fn qres_m(r: QuadrupelResult) -> RM {
    match r {
        QuadrupelResult::Var(v) => RM::Var(qvar_m(v)),
        QuadrupelResult::Label(l) => RM::Label(l@),
        QuadrupelResult::Empty => RM::Empty,
    }
}

pub open spec fn quad_m(q: Quadrupel) -> QM {
    QM { op: q.op, arg1: qarg_m(q.arg1), arg2: qarg_m(q.arg2), result: qres_m(q.result) }
}

pub open spec fn code_m(c: Seq<Quadrupel>) -> Seq<QM> {
    c.map_values(|q: Quadrupel| quad_m(q))
}

pub proof fn lemma_code_m_concat(a: Seq<Quadrupel>, b: Seq<Quadrupel>)
    ensures
        code_m(a + b) == code_m(a) + code_m(b),
{
    assert(code_m(a + b) =~= code_m(a) + code_m(b));
}

pub proof fn lemma_code_m_single(q: Quadrupel)
    ensures
        code_m(seq![q]) == seq![quad_m(q)],
{
    assert(code_m(seq![q]) =~= seq![quad_m(q)]);
}

pub proof fn lemma_code_m_empty()
    ensures
        code_m(Seq::<Quadrupel>::empty()) == Seq::<QM>::empty(),
{
    assert(code_m(Seq::<Quadrupel>::empty()) =~= Seq::<QM>::empty());
}

/// A quadruple with the given operation and operands, and no result.
pub open spec fn qm(op: QuadrupelOp, arg1: AM, arg2: AM) -> QM {
    QM { op, arg1, arg2, result: RM::Empty }
}

/// The mark of a jump target.
pub open spec fn label_qm(l: Seq<char>) -> QM {
    QM { op: QuadrupelOp::Default, arg1: AM::Empty, arg2: AM::Empty, result: RM::Label(l) }
}

/// A jump.
pub open spec fn goto_qm(l: Seq<char>) -> QM {
    QM { op: QuadrupelOp::Goto, arg1: AM::Empty, arg2: AM::Empty, result: RM::Label(l) }
}

/// An operand for an expression: a quadruple gets the next temporary as its result, and
/// the temporary is the operand.
pub open spec fn t_into_tmp(e: EM, t: nat) -> (Seq<QM>, AM, nat) {
    match e {
        EM::Quad(q) => (seq![QM { result: RM::Var(VM::Tmp(t)), ..q }], AM::Var(VM::Tmp(t)), t + 1),
        EM::Arg(a) => (Seq::empty(), a, t),
    }
}

/// A binary operation on two translated operands, left first.
pub open spec fn t_bin(op: QuadrupelOp, l: EM, r: EM, t: nat) -> (Seq<QM>, EM, nat) {
    let (c1, a1, t1) = t_into_tmp(l, t);
    let (c2, a2, t2) = t_into_tmp(r, t1);
    (c1 + c2, EM::Quad(qm(op, a1, a2)), t2)
}

/// The array variable and the byte offset of an array access: the index times the size
/// of an element, plus the offset of the enclosing access.
pub open spec fn t_array_access(a: ArrayAccess, t: nat) -> (Seq<QM>, VM, EM, nat)
    decreases a,
{
    let (c1, idx, t1) = t_expr(a.index, t);
    let size = match a.typ {
        Some(at) => spec_byte_size(*at.base_type).unwrap(),
        None => 0,
    };
    let (c2, off, t2) = t_bin(QuadrupelOp::Mul, idx, EM::Arg(AM::Const(size)), t1);
    match a.array {
        Variable::NamedVariable(n) => (c1 + c2, VM::Spl(n@), off, t2),
        Variable::ArrayAccess(inner) => {
            let (c3, v, ioff, t3) = t_array_access(*inner, t2);
            let (c4, off2, t4) = t_bin(QuadrupelOp::Add, off, ioff, t3);
            (c1 + c2 + c3 + c4, v, off2, t4)
        },
    }
}

/// A variable read: its name, or a load from the array.
pub open spec fn t_var(v: Variable, t: nat) -> (Seq<QM>, EM, nat)
    decreases v,
{
    match v {
        Variable::NamedVariable(n) => (Seq::empty(), EM::Arg(AM::Var(VM::Spl(n@))), t),
        Variable::ArrayAccess(a) => {
            let (c1, var, off, t1) = t_array_access(*a, t);
            let (c2, o, t2) = t_into_tmp(off, t1);
            (c1 + c2, EM::Quad(qm(QuadrupelOp::ArrayLoad, AM::Var(var), o)), t2)
        },
    }
}

/// An expression: the code that computes its operands, and what stands for its value.
pub open spec fn t_expr(e: Expression, t: nat) -> (Seq<QM>, EM, nat)
    decreases e,
{
    match e {
        Expression::BinaryExpression(b) => {
            let (c1, l, t1) = t_expr(b.left, t);
            let (c2, r, t2) = t_expr(b.right, t1);
            let (c3, x, t3) = t_bin(spec_op_of(b.operator), l, r, t2);
            (c1 + c2 + c3, x, t3)
        },
        Expression::UnaryExpression(u) => {
            let (c1, l, t1) = t_expr(u.operand, t);
            let (c2, a, t2) = t_into_tmp(l, t1);
            (c1 + c2, EM::Quad(qm(QuadrupelOp::Neg, a, AM::Empty)), t2)
        },
        Expression::IntLiteral(v) => (Seq::empty(), EM::Arg(AM::Const(v as int)), t),
        Expression::VariableExpression(v) => t_var(*v, t),
    }
}

/// A jump to `target` when the comparison `e` does not hold.
pub open spec fn t_cond(e: Expression, target: Seq<char>, t: nat) -> (Seq<QM>, nat) {
    match e {
        Expression::BinaryExpression(b) => {
            let (c1, l, t1) = t_expr(b.left, t);
            let (c2, r, t2) = t_expr(b.right, t1);
            let (c3, a1, t3) = t_into_tmp(l, t2);
            let (c4, a2, t4) = t_into_tmp(r, t3);
            let j = QM { op: spec_inv(spec_op_of(b.operator)), arg1: a1, arg2: a2, result: RM::Label(target) };
            (c1 + c2 + c3 + c4 + seq![j], t4)
        },
        _ => (Seq::empty(), t),
    }
}

/// The arguments of a call, each computed and passed with `param`, in order.
pub open spec fn t_args(args: Seq<Expression>, t: nat) -> (Seq<QM>, nat)
    decreases args.len(),
{
    if args.len() == 0 {
        (Seq::empty(), t)
    } else {
        let (c1, t1) = t_args(args.drop_last(), t);
        let (c2, p, t2) = t_expr(args.last(), t1);
        let (c3, a, t3) = t_into_tmp(p, t2);
        (c1 + c2 + c3 + seq![qm(QuadrupelOp::Param, a, AM::Empty)], t3)
    }
}

/// `target := value;`
pub open spec fn t_assign(a: AssignStatement, t: nat) -> (Seq<QM>, nat) {
    let (c1, val, t1) = t_expr(a.value, t);
    match a.target {
        Variable::NamedVariable(n) => {
            let q = match val {
                EM::Quad(q) => q,
                EM::Arg(arg) => qm(QuadrupelOp::Assign, arg, AM::Empty),
            };
            (c1 + seq![QM { result: RM::Var(VM::Spl(n@)), ..q }], t1)
        },
        Variable::ArrayAccess(aa) => {
            let (c2, var, off, t2) = t_array_access(*aa, t1);
            let (c3, a2, t3) = t_into_tmp(off, t2);
            let (c4, a1, t4) = t_into_tmp(val, t3);
            let st = QM { op: QuadrupelOp::ArrayStore, arg1: a1, arg2: a2, result: RM::Var(var) };
            (c1 + c2 + c3 + c4 + seq![st], t4)
        },
    }
}

/// `name(arguments);`
pub open spec fn t_call(c: CallStatement, t: nat) -> (Seq<QM>, nat) {
    let (ca, t1) = t_args(c.arguments@, t);
    let call = qm(QuadrupelOp::Call, AM::Var(VM::Spl(c.name@)), AM::Const(c.arguments@.len() as int));
    (ca + seq![call], t1)
}

/// `if`: labels `l` (the else part) and `l + 1` (the end).
pub open spec fn t_if(i: IfStatement, t: nat, l: nat) -> (Seq<QM>, nat, nat)
    decreases i,
{
    let else_label = label_name(l);
    let end_label = label_name(l + 1);
    let (ca, t1) = t_cond(i.condition, else_label, t);
    let (ct, t2, l2) = t_stmt(i.then_branch, t1, l + 2);
    match i.else_branch {
        Some(e) => {
            let (ce, t3, l3) = t_stmt(e, t2, l2);
            (ca + ct + seq![goto_qm(end_label), label_qm(else_label)] + ce + seq![label_qm(end_label)], t3, l3)
        },
        None => (ca + ct + seq![label_qm(else_label), label_qm(end_label)], t2, l2),
    }
}

/// `while`: labels `l` (the exit) and `l + 1` (the test).
pub open spec fn t_while(w: WhileStatement, t: nat, l: nat) -> (Seq<QM>, nat, nat)
    decreases w,
{
    let exit_label = label_name(l);
    let head_label = label_name(l + 1);
    let (ca, t1) = t_cond(w.condition, exit_label, t);
    let (cb, t2, l2) = t_stmt(w.body, t1, l + 2);
    (seq![label_qm(head_label)] + ca + cb + seq![goto_qm(head_label), label_qm(exit_label)], t2, l2)
}

/// A statement, with `t` temporaries and `l` labels used before it: its code and the
/// numbers of temporaries and labels used after it.
pub open spec fn t_stmt(s: Statement, t: nat, l: nat) -> (Seq<QM>, nat, nat)
    decreases s,
{
    match s {
        Statement::AssignStatement(a) => {
            let (c, t1) = t_assign(*a, t);
            (c, t1, l)
        },
        Statement::IfStatement(i) => t_if(*i, t, l),
        Statement::WhileStatement(w) => t_while(*w, t, l),
        Statement::CallStatement(c) => {
            let (cc, t1) = t_call(*c, t);
            (cc, t1, l)
        },
        Statement::EmptyStatement => (Seq::empty(), t, l),
        Statement::CompoundStatement(v) => t_stmts(v@, t, l),
    }
}

/// Statements in order.
pub open spec fn t_stmts(ss: Seq<Statement>, t: nat, l: nat) -> (Seq<QM>, nat, nat)
    decreases ss,
{
    if ss.len() == 0 {
        (Seq::empty(), t, l)
    } else {
        let (c1, t1, l1) = t_stmts(ss.drop_last(), t, l);
        let (c2, t2, l2) = t_stmt(ss.last(), t1, l1);
        (c1 + c2, t2, l2)
    }
}

/// A procedure, translated with no temporaries in use and `l` labels used before: its
/// name as a label, then its body.
pub open spec fn t_proc(p: ProcedureDefinition, l: nat) -> (Seq<QM>, nat) {
    let (c, t1, l1) = t_stmts(p.body@, 0, l);
    (seq![label_qm(p.name@)] + c, l1)
}

/// The number of labels used after translating the procedures of `defs`, in order,
/// starting from `l0`.
pub open spec fn labels_after(defs: Seq<Definition>, l0: nat) -> nat
    decreases defs.len(),
{
    if defs.len() == 0 {
        l0
    } else {
        let l = labels_after(defs.drop_last(), l0);
        match defs.last() {
            Definition::ProcedureDefinition(p) => t_proc(*p, l).1,
            Definition::TypeDefinition(_) => l,
        }
    }
}

/// The code that translating `defs` from `l0` labels on stores under the name `k`: that
/// of the last procedure of that name, if there is one.
pub open spec fn program_code(defs: Seq<Definition>, l0: nat, k: Seq<char>) -> Option<Seq<QM>>
    decreases defs.len(),
{
    if defs.len() == 0 {
        None
    } else {
        match defs.last() {
            Definition::ProcedureDefinition(p) => if p.name@ == k {
                Some(t_proc(*p, labels_after(defs.drop_last(), l0)).0)
            } else {
                program_code(defs.drop_last(), l0, k)
            },
            Definition::TypeDefinition(_) => program_code(defs.drop_last(), l0, k),
        }
    }
}

/// Each operator is translated into its own operation: `+` into `ADD`, `-` into `SUB`,
/// `*` into `MUL`, `/` into `DIV`, and the comparisons `=`, `#`, `<`, `<=`, `>`, `>=` into
/// `EQU`, `NEQ`, `LST`, `LSE`, `GRT`, `GRE`.
pub proof fn law_operator_operations()
    ensures
        spec_op_of(Operator::Add) == QuadrupelOp::Add,
        spec_op_of(Operator::Sub) == QuadrupelOp::Sub,
        spec_op_of(Operator::Mul) == QuadrupelOp::Mul,
        spec_op_of(Operator::Div) == QuadrupelOp::Div,
        spec_op_of(Operator::Equ) == QuadrupelOp::Equ,
        spec_op_of(Operator::Neq) == QuadrupelOp::Neq,
        spec_op_of(Operator::Lst) == QuadrupelOp::Lst,
        spec_op_of(Operator::Lse) == QuadrupelOp::Lse,
        spec_op_of(Operator::Grt) == QuadrupelOp::Grt,
        spec_op_of(Operator::Gre) == QuadrupelOp::Gre,
{
}

/// An operation on two variables or literals is one quadruple of its operator, the left
/// operand first: `x op y` computes `op(x, y)` with no code before it.
pub proof fn law_operation_operands(op: Operator, x: i32, y: i32, a: String, b: String, t: nat)
    ensures
        ({
            let r = t_expr(Expression::BinaryExpression(Box::new(BinaryExpression { operator: op,
                left: Expression::IntLiteral(x), right: Expression::IntLiteral(y) })), t);
            r.0 =~= Seq::<QM>::empty() && r.1 == EM::Quad(qm(spec_op_of(op), AM::Const(x as int), AM::Const(y as int))) && r.2 == t
        }),
        ({
            let r = t_expr(Expression::BinaryExpression(Box::new(BinaryExpression { operator: op,
                left: Expression::VariableExpression(Box::new(Variable::NamedVariable(a))),
                right: Expression::VariableExpression(Box::new(Variable::NamedVariable(b))) })), t);
            r.0 =~= Seq::<QM>::empty() && r.1 == EM::Quad(qm(spec_op_of(op), AM::Var(VM::Spl(a@)), AM::Var(VM::Spl(b@)))) && r.2 == t
        }),
{
    assert(t_expr(Expression::IntLiteral(x), t) == (Seq::<QM>::empty(), EM::Arg(AM::Const(x as int)), t));
    assert(t_expr(Expression::IntLiteral(y), t) == (Seq::<QM>::empty(), EM::Arg(AM::Const(y as int)), t));
    let va = Expression::VariableExpression(Box::new(Variable::NamedVariable(a)));
    let vb = Expression::VariableExpression(Box::new(Variable::NamedVariable(b)));
    assert(t_var(Variable::NamedVariable(a), t) == (Seq::<QM>::empty(), EM::Arg(AM::Var(VM::Spl(a@))), t));
    assert(t_var(Variable::NamedVariable(b), t) == (Seq::<QM>::empty(), EM::Arg(AM::Var(VM::Spl(b@))), t));
    assert(t_expr(va, t) == t_var(Variable::NamedVariable(a), t));
    assert(t_expr(vb, t) == t_var(Variable::NamedVariable(b), t));
}

/// A condition jumps to its target when the comparison does not hold: on two variables
/// it is one jump with the inverted comparison of its operator, the left operand first.
pub proof fn law_condition_jump(op: Operator, a: String, b: String, target: Seq<char>, t: nat)
    ensures
        ({
            let r = t_cond(Expression::BinaryExpression(Box::new(BinaryExpression { operator: op,
                left: Expression::VariableExpression(Box::new(Variable::NamedVariable(a))),
                right: Expression::VariableExpression(Box::new(Variable::NamedVariable(b))) })), target, t);
            r.0 =~= seq![QM { op: spec_inv(spec_op_of(op)), arg1: AM::Var(VM::Spl(a@)), arg2: AM::Var(VM::Spl(b@)), result: RM::Label(target) }]
                && r.1 == t
        }),
{
    let va = Expression::VariableExpression(Box::new(Variable::NamedVariable(a)));
    let vb = Expression::VariableExpression(Box::new(Variable::NamedVariable(b)));
    assert(t_var(Variable::NamedVariable(a), t) == (Seq::<QM>::empty(), EM::Arg(AM::Var(VM::Spl(a@))), t));
    assert(t_var(Variable::NamedVariable(b), t) == (Seq::<QM>::empty(), EM::Arg(AM::Var(VM::Spl(b@))), t));
    assert(t_expr(va, t) == t_var(Variable::NamedVariable(a), t));
    assert(t_expr(vb, t) == t_var(Variable::NamedVariable(b), t));
}

/// Reading an element `a[i]` of an array of integers computes the byte offset `i * 4`
/// into the next temporary and loads from the array at that offset.
pub proof fn law_element_read(a: String, i: i32, size: usize, t: nat)
    ensures
        ({
            let r = t_var(Variable::ArrayAccess(Box::new(ArrayAccess { array: Variable::NamedVariable(a), index: Expression::IntLiteral(i),
                typ: Some(crate::types::ArrayType { base_type: Box::new(crate::types::Type::PrimitiveType(crate::types::PrimitiveType::Int)), size }) })), t);
            &&& r.0 =~= seq![QM { op: QuadrupelOp::Mul, arg1: AM::Const(i as int), arg2: AM::Const(4), result: RM::Var(VM::Tmp(t)) }]
            &&& r.1 == EM::Quad(qm(QuadrupelOp::ArrayLoad, AM::Var(VM::Spl(a@)), AM::Var(VM::Tmp(t))))
            &&& r.2 == t + 1
        }),
{
    let aa = ArrayAccess { array: Variable::NamedVariable(a), index: Expression::IntLiteral(i),
        typ: Some(crate::types::ArrayType { base_type: Box::new(crate::types::Type::PrimitiveType(crate::types::PrimitiveType::Int)), size }) };
    assert(spec_byte_size(crate::types::Type::PrimitiveType(crate::types::PrimitiveType::Int)) == Some(4int));
    assert(t_expr(Expression::IntLiteral(i), t) == (Seq::<QM>::empty(), EM::Arg(AM::Const(i as int)), t));
    let r = t_array_access(aa, t);
    assert(r.0 =~= Seq::<QM>::empty());
    assert(r.1 == VM::Spl(a@));
    assert(r.2 == EM::Quad(qm(QuadrupelOp::Mul, AM::Const(i as int), AM::Const(4))));
    assert(r.3 == t);
}

} // verus!
