//! Three-address code: quadruples and the algebraic identities that simplify them.
use vstd::prelude::*;
use crate::absyn::{Operator, UnaryOperator};
use crate::text::{nat_to_decimal, spec_decimal};

verus! {

/// The operation of a quadruple.
#[derive(Debug, Clone, Copy, PartialEq, Eq, Structural)]
pub enum QuadrupelOp {
    Add,
    Sub,
    Mul,
    Div,
    Neg,
    Equ,
    Neq,
    Lst,
    Lse,
    Grt,
    Gre,
    Assign,
    ArrayLoad,
    ArrayStore,
    Goto,
    Param,
    Call,
    Default,
}

/// A variable of the three-address code: a variable of the source program or a temporary.
#[derive(Debug, PartialEq, Eq)]
pub enum QuadrupelVar {
    Spl(String),
    Tmp(usize),
}

/// An operand of a quadruple.
#[derive(Debug, PartialEq, Eq)]
pub enum QuadrupelArg {
    Var(QuadrupelVar),
    Const(i32),
    Empty,
}

/// The result field of a quadruple: a variable, a jump target, or nothing.
#[derive(Debug, PartialEq, Eq)]
pub enum QuadrupelResult {
    Var(QuadrupelVar),
    Label(String),
    Empty,
}

/// One instruction of the three-address code. An instruction with operation `Default`,
/// empty operands and a label as result marks a jump target.
#[derive(Debug, PartialEq, Eq)]
pub struct Quadrupel {
    pub op: QuadrupelOp,
    pub arg1: QuadrupelArg,
    pub arg2: QuadrupelArg,
    pub result: QuadrupelResult,
}

impl Clone for QuadrupelVar {
    fn clone(&self) -> (r: Self)
        ensures
            r == *self,
    {
        match self {
            QuadrupelVar::Spl(s) => QuadrupelVar::Spl(s.clone()),
            QuadrupelVar::Tmp(n) => QuadrupelVar::Tmp(*n),
        }
    }
}

impl Clone for QuadrupelArg {
    fn clone(&self) -> (r: Self)
        ensures
            r == *self,
    {
        match self {
            QuadrupelArg::Var(v) => QuadrupelArg::Var(v.clone()),
            QuadrupelArg::Const(c) => QuadrupelArg::Const(*c),
            QuadrupelArg::Empty => QuadrupelArg::Empty,
        }
    }
}

impl Clone for QuadrupelResult {
    fn clone(&self) -> (r: Self)
        ensures
            r == *self,
    {
        match self {
            QuadrupelResult::Var(v) => QuadrupelResult::Var(v.clone()),
            QuadrupelResult::Label(l) => QuadrupelResult::Label(l.clone()),
            QuadrupelResult::Empty => QuadrupelResult::Empty,
        }
    }
}

impl Clone for Quadrupel {
    fn clone(&self) -> (r: Self)
        ensures
            r == *self,
    {
        Quadrupel {
            op: self.op,
            arg1: self.arg1.clone(),
            arg2: self.arg2.clone(),
            result: self.result.clone(),
        }
    }
}

/// Two variables name the same thing.
pub open spec fn same_var(a: QuadrupelVar, b: QuadrupelVar) -> bool {
    match (a, b) {
        (QuadrupelVar::Spl(x), QuadrupelVar::Spl(y)) => x@ == y@,
        (QuadrupelVar::Tmp(m), QuadrupelVar::Tmp(n)) => m == n,
        _ => false,
    }
}

/// Two operands are the same.
pub open spec fn same_arg(a: QuadrupelArg, b: QuadrupelArg) -> bool {
    match (a, b) {
        (QuadrupelArg::Var(x), QuadrupelArg::Var(y)) => same_var(x, y),
        (QuadrupelArg::Const(x), QuadrupelArg::Const(y)) => x == y,
        (QuadrupelArg::Empty, QuadrupelArg::Empty) => true,
        _ => false,
    }
}

/// Two results are the same.
pub open spec fn same_result(a: QuadrupelResult, b: QuadrupelResult) -> bool {
    match (a, b) {
        (QuadrupelResult::Var(x), QuadrupelResult::Var(y)) => same_var(x, y),
        (QuadrupelResult::Label(x), QuadrupelResult::Label(y)) => x@ == y@,
        (QuadrupelResult::Empty, QuadrupelResult::Empty) => true,
        _ => false,
    }
}

/// Two quadruples are the same.
pub open spec fn same_quad(a: Quadrupel, b: Quadrupel) -> bool {
    a.op == b.op && same_arg(a.arg1, b.arg1) && same_arg(a.arg2, b.arg2) && same_result(a.result, b.result)
}

/// A result writes the variable that an operand reads.
pub open spec fn result_is_arg(r: QuadrupelResult, a: QuadrupelArg) -> bool {
    match (r, a) {
        (QuadrupelResult::Var(x), QuadrupelArg::Var(y)) => same_var(x, y),
        _ => false,
    }
}

/// The text by which the interpreter's environment knows a variable.
pub open spec fn spec_identifier(v: QuadrupelVar) -> Seq<char> {
    match v {
        QuadrupelVar::Spl(s) => s@,
        QuadrupelVar::Tmp(n) => seq!['T', ':'] + spec_decimal(n as nat),
    }
}

impl QuadrupelVar {
    /// Whether two variables are the same.
    pub fn equals(&self, other: &QuadrupelVar) -> (r: bool)
        ensures
            r == same_var(*self, *other),
    {
        match (self, other) {
            (QuadrupelVar::Spl(x), QuadrupelVar::Spl(y)) => *x == *y,
            (QuadrupelVar::Tmp(m), QuadrupelVar::Tmp(n)) => *m == *n,
            _ => false,
        }
    }

    /// The name of the variable: a source variable by its own name, a temporary as
    /// `T:` followed by its number.
    pub fn to_identifier(&self) -> (r: String)
        ensures
            r@ == spec_identifier(*self),
    {
        match self {
            QuadrupelVar::Spl(s) => s.clone(),
            QuadrupelVar::Tmp(n) => {
                let mut s = String::from_str("T:");
                proof {
                    reveal_strlit("T:");
                }
                let d = nat_to_decimal(*n as u64);
                s.append(d.as_str());
                s
            },
        }
    }
}

impl QuadrupelArg {
    /// Whether two operands are the same.
    pub fn equals(&self, other: &QuadrupelArg) -> (r: bool)
        ensures
            r == same_arg(*self, *other),
    {
        match (self, other) {
            (QuadrupelArg::Var(x), QuadrupelArg::Var(y)) => x.equals(y),
            (QuadrupelArg::Const(x), QuadrupelArg::Const(y)) => *x == *y,
            (QuadrupelArg::Empty, QuadrupelArg::Empty) => true,
            _ => false,
        }
    }
}

impl QuadrupelResult {
    /// Whether two results are the same.
    pub fn equals(&self, other: &QuadrupelResult) -> (r: bool)
        ensures
            r == same_result(*self, *other),
    {
        match (self, other) {
            (QuadrupelResult::Var(x), QuadrupelResult::Var(y)) => x.equals(y),
            (QuadrupelResult::Label(x), QuadrupelResult::Label(y)) => *x == *y,
            (QuadrupelResult::Empty, QuadrupelResult::Empty) => true,
            _ => false,
        }
    }

    /// Whether this result writes the variable that the operand reads.
    pub fn is_arg(&self, arg: &QuadrupelArg) -> (r: bool)
        ensures
            r == result_is_arg(*self, *arg),
    {
        match (self, arg) {
            (QuadrupelResult::Var(x), QuadrupelArg::Var(y)) => x.equals(y),
            _ => false,
        }
    }
}

/// Whether the operation is a comparison, that is, a conditional jump.
pub open spec fn spec_is_relop(op: QuadrupelOp) -> bool {
    op == QuadrupelOp::Equ || op == QuadrupelOp::Neq || op == QuadrupelOp::Lst || op == QuadrupelOp::Lse
        || op == QuadrupelOp::Grt || op == QuadrupelOp::Gre
}

/// The comparison that holds exactly when the given one does not.
pub open spec fn spec_inv(op: QuadrupelOp) -> QuadrupelOp {
    match op {
        QuadrupelOp::Equ => QuadrupelOp::Neq,
        QuadrupelOp::Neq => QuadrupelOp::Equ,
        QuadrupelOp::Lst => QuadrupelOp::Gre,
        QuadrupelOp::Lse => QuadrupelOp::Grt,
        QuadrupelOp::Grt => QuadrupelOp::Lse,
        _ => QuadrupelOp::Lst,
    }
}

/// The inverted comparison of two constants holds exactly when the comparison does not.
pub proof fn lemma_inv_negates(q: Quadrupel)
    requires
        spec_is_relop(q.op),
    ensures
        spec_is_relop(spec_inv(q.op)),
        spec_const_comparison(Quadrupel { op: spec_inv(q.op), ..q }) == match spec_const_comparison(q) {
            Some(b) => Some(!b),
            None => None,
        },
{
}

/// The quadruple operation of a binary operator.
pub open spec fn spec_op_of(op: Operator) -> QuadrupelOp {
    match op {
        Operator::Add => QuadrupelOp::Add,
        Operator::Sub => QuadrupelOp::Sub,
        Operator::Mul => QuadrupelOp::Mul,
        Operator::Div => QuadrupelOp::Div,
        Operator::Equ => QuadrupelOp::Equ,
        Operator::Neq => QuadrupelOp::Neq,
        Operator::Lst => QuadrupelOp::Lst,
        Operator::Lse => QuadrupelOp::Lse,
        Operator::Grt => QuadrupelOp::Grt,
        Operator::Gre => QuadrupelOp::Gre,
    }
}

impl QuadrupelOp {
    /// Whether the operation is a comparison.
    pub fn is_relop(self) -> (r: bool)
        ensures
            r == spec_is_relop(self),
    {
        match self {
            QuadrupelOp::Equ | QuadrupelOp::Neq | QuadrupelOp::Lst | QuadrupelOp::Lse
            | QuadrupelOp::Grt | QuadrupelOp::Gre => true,
            _ => false,
        }
    }

    /// Whether the operation is a jump of any kind.
    pub fn is_any_jump(self) -> (r: bool)
        ensures
            r == (self == QuadrupelOp::Goto || spec_is_relop(self)),
    {
        match self {
            QuadrupelOp::Goto => true,
            _ => self.is_relop(),
        }
    }

    /// The negation of a comparison.
    pub fn inv(self) -> (r: QuadrupelOp)
        requires
            spec_is_relop(self),
        ensures
            r == spec_inv(self),
            spec_is_relop(r),
    {
        match self {
            QuadrupelOp::Equ => QuadrupelOp::Neq,
            QuadrupelOp::Neq => QuadrupelOp::Equ,
            QuadrupelOp::Lst => QuadrupelOp::Gre,
            QuadrupelOp::Lse => QuadrupelOp::Grt,
            QuadrupelOp::Grt => QuadrupelOp::Lse,
            _ => QuadrupelOp::Lst,
        }
    }

    /// The operation of a binary operator.
    pub fn from_operator(op: Operator) -> (r: QuadrupelOp)
        ensures
            r == spec_op_of(op),
    {
        match op {
            Operator::Add => QuadrupelOp::Add,
            Operator::Sub => QuadrupelOp::Sub,
            Operator::Mul => QuadrupelOp::Mul,
            Operator::Div => QuadrupelOp::Div,
            Operator::Equ => QuadrupelOp::Equ,
            Operator::Neq => QuadrupelOp::Neq,
            Operator::Lst => QuadrupelOp::Lst,
            Operator::Lse => QuadrupelOp::Lse,
            Operator::Grt => QuadrupelOp::Grt,
            Operator::Gre => QuadrupelOp::Gre,
        }
    }

    /// The operation of a unary operator.
    pub fn from_unary_operator(op: UnaryOperator) -> (r: QuadrupelOp)
        ensures
            r == QuadrupelOp::Neg,
    {
        match op {
            UnaryOperator::Minus => QuadrupelOp::Neg,
        }
    }
}

/// The value of an arithmetic quadruple whose operands are constants; `None` where an
/// operand is not a constant, the operation is not arithmetic, or the result does not
/// fit in an `i32` (overflow, division by zero).
pub open spec fn spec_calc_const(q: Quadrupel) -> Option<i32> {
    match (q.arg1, q.arg2) {
        (QuadrupelArg::Const(a), QuadrupelArg::Const(b)) => match q.op {
            QuadrupelOp::Add => a.checked_add(b),
            QuadrupelOp::Sub => a.checked_sub(b),
            QuadrupelOp::Mul => a.checked_mul(b),
            QuadrupelOp::Div => a.checked_div(b),
            QuadrupelOp::Neg => 0i32.checked_sub(a),
            _ => None,
        },
        (QuadrupelArg::Const(a), QuadrupelArg::Empty) => match q.op {
            QuadrupelOp::Neg => 0i32.checked_sub(a),
            _ => None,
        },
        _ => None,
    }
}

/// The outcome of a comparison whose operands are constants.
pub open spec fn spec_const_comparison(q: Quadrupel) -> Option<bool> {
    match (q.arg1, q.arg2) {
        (QuadrupelArg::Const(a), QuadrupelArg::Const(b)) => match q.op {
            QuadrupelOp::Equ => Some(a == b),
            QuadrupelOp::Neq => Some(a != b),
            QuadrupelOp::Lst => Some(a < b),
            QuadrupelOp::Lse => Some(a <= b),
            QuadrupelOp::Grt => Some(a > b),
            QuadrupelOp::Gre => Some(a >= b),
            _ => None,
        },
        _ => None,
    }
}

/// A quadruple built from its four parts.
pub open spec fn mk_quad(op: QuadrupelOp, arg1: QuadrupelArg, arg2: QuadrupelArg, result: QuadrupelResult) -> Quadrupel {
    Quadrupel { op, arg1, arg2, result }
}

/// Whether an operand is the constant `c`.
pub open spec fn is_const(a: QuadrupelArg, c: i32) -> bool {
    a == QuadrupelArg::Const(c)
}

/// The quadruple after constant folding and the algebraic identities
/// `0+a = a+0 = a-0 = 1*a = a*1 = a/1 = a`, `0-a = -a`, `a-a = 0`, `2*a = a*2 = a+a`,
/// `0*a = a*0 = 0/a = 0`, tried in this order. A comparison of two constants becomes a
/// jump when it holds and disappears (`None`) when it does not.
pub open spec fn spec_simplify(q: Quadrupel) -> Option<Quadrupel> {
    let r = q.result;
    let e = QuadrupelArg::Empty;
    if spec_calc_const(q) is Some {
        Some(mk_quad(QuadrupelOp::Assign, QuadrupelArg::Const(spec_calc_const(q).unwrap()), e, r))
    } else if spec_const_comparison(q) is Some {
        if spec_const_comparison(q).unwrap() {
            Some(mk_quad(QuadrupelOp::Goto, e, e, r))
        } else {
            None
        }
    } else if q.op == QuadrupelOp::Add && is_const(q.arg1, 0) {
        Some(mk_quad(QuadrupelOp::Assign, q.arg2, e, r))
    } else if (q.op == QuadrupelOp::Add || q.op == QuadrupelOp::Sub) && is_const(q.arg2, 0) {
        Some(mk_quad(QuadrupelOp::Assign, q.arg1, e, r))
    } else if q.op == QuadrupelOp::Mul && is_const(q.arg1, 1) {
        Some(mk_quad(QuadrupelOp::Assign, q.arg2, e, r))
    } else if (q.op == QuadrupelOp::Mul || q.op == QuadrupelOp::Div) && is_const(q.arg2, 1) {
        Some(mk_quad(QuadrupelOp::Assign, q.arg1, e, r))
    } else if q.op == QuadrupelOp::Sub && is_const(q.arg1, 0) {
        Some(mk_quad(QuadrupelOp::Neg, q.arg2, e, r))
    } else if q.op == QuadrupelOp::Sub && same_arg(q.arg1, q.arg2) {
        Some(mk_quad(QuadrupelOp::Assign, QuadrupelArg::Const(0), e, r))
    } else if q.op == QuadrupelOp::Mul && is_const(q.arg1, 2) {
        Some(mk_quad(QuadrupelOp::Add, q.arg2, q.arg2, r))
    } else if q.op == QuadrupelOp::Mul && is_const(q.arg2, 2) {
        Some(mk_quad(QuadrupelOp::Add, q.arg1, q.arg1, r))
    } else if (q.op == QuadrupelOp::Mul || q.op == QuadrupelOp::Div) && is_const(q.arg1, 0) {
        Some(mk_quad(QuadrupelOp::Assign, QuadrupelArg::Const(0), e, r))
    } else if q.op == QuadrupelOp::Mul && is_const(q.arg2, 0) {
        Some(mk_quad(QuadrupelOp::Assign, QuadrupelArg::Const(0), e, r))
    } else {
        Some(q)
    }
}

/// The quadruple that stands for nothing; passes replace removed instructions by it.
pub open spec fn spec_empty_quad() -> Quadrupel {
    mk_quad(QuadrupelOp::Default, QuadrupelArg::Empty, QuadrupelArg::Empty, QuadrupelResult::Empty)
}

impl Quadrupel {
    /// A quadruple with operation `Default`, empty operands and an empty result.
    pub fn new() -> (r: Quadrupel)
        ensures
            r == spec_empty_quad(),
    {
        Quadrupel {
            op: QuadrupelOp::Default,
            arg1: QuadrupelArg::Empty,
            arg2: QuadrupelArg::Empty,
            result: QuadrupelResult::Empty,
        }
    }

    /// The empty quadruple.
    pub fn empty() -> (r: Quadrupel)
        ensures
            r == spec_empty_quad(),
    {
        Quadrupel::new()
    }

    /// Whether this is the empty quadruple.
    pub fn is_empty(&self) -> (r: bool)
        ensures
            r == same_quad(*self, spec_empty_quad()),
    {
        self.op == QuadrupelOp::Default && self.arg1.equals(&QuadrupelArg::Empty)
            && self.arg2.equals(&QuadrupelArg::Empty) && self.result.equals(&QuadrupelResult::Empty)
    }

    /// Whether two quadruples are the same.
    pub fn equals(&self, other: &Quadrupel) -> (r: bool)
        ensures
            r == same_quad(*self, *other),
    {
        self.op == other.op && self.arg1.equals(&other.arg1) && self.arg2.equals(&other.arg2)
            && self.result.equals(&other.result)
    }

    /// Folds an arithmetic operation on two constants.
    pub fn calc_const(&self) -> (r: Option<i32>)
        ensures
            r == spec_calc_const(*self),
    {
        match (&self.arg1, &self.arg2) {
            (QuadrupelArg::Const(a), QuadrupelArg::Const(b)) => match self.op {
                QuadrupelOp::Add => a.checked_add(*b),
                QuadrupelOp::Sub => a.checked_sub(*b),
                QuadrupelOp::Mul => a.checked_mul(*b),
                QuadrupelOp::Div => a.checked_div(*b),
                QuadrupelOp::Neg => 0i32.checked_sub(*a),
                _ => None,
            },
            (QuadrupelArg::Const(a), QuadrupelArg::Empty) => match self.op {
                QuadrupelOp::Neg => 0i32.checked_sub(*a),
                _ => None,
            },
            _ => None,
        }
    }

    /// Evaluates a comparison of two constants.
    pub fn cmp_const(&self) -> (r: Option<bool>)
        ensures
            r == spec_const_comparison(*self),
    {
        match (&self.arg1, &self.arg2) {
            (QuadrupelArg::Const(a), QuadrupelArg::Const(b)) => match self.op {
                QuadrupelOp::Equ => Some(*a == *b),
                QuadrupelOp::Neq => Some(*a != *b),
                QuadrupelOp::Lst => Some(*a < *b),
                QuadrupelOp::Lse => Some(*a <= *b),
                QuadrupelOp::Grt => Some(*a > *b),
                QuadrupelOp::Gre => Some(*a >= *b),
                _ => None,
            },
            _ => None,
        }
    }

    /// Applies constant folding and the algebraic identities (see `spec_simplify`).
    pub fn simplify(self) -> (r: Option<Quadrupel>)
        ensures
            r == spec_simplify(self),
    {
        let e = QuadrupelArg::Empty;
        if let Some(val) = self.calc_const() {
            return Some(Quadrupel { op: QuadrupelOp::Assign, arg1: QuadrupelArg::Const(val), arg2: e, result: self.result });
        }
        if let Some(cond) = self.cmp_const() {
            if cond {
                return Some(Quadrupel { op: QuadrupelOp::Goto, arg1: e, arg2: QuadrupelArg::Empty, result: self.result });
            } else {
                return None;
            }
        }
        let op = self.op;
        let c0 = QuadrupelArg::Const(0);
        let c1 = QuadrupelArg::Const(1);
        let c2 = QuadrupelArg::Const(2);
        if op == QuadrupelOp::Add && self.arg1.equals(&c0) {
            Some(Quadrupel { op: QuadrupelOp::Assign, arg1: self.arg2, arg2: e, result: self.result })
        } else if (op == QuadrupelOp::Add || op == QuadrupelOp::Sub) && self.arg2.equals(&c0) {
            Some(Quadrupel { op: QuadrupelOp::Assign, arg1: self.arg1, arg2: e, result: self.result })
        } else if op == QuadrupelOp::Mul && self.arg1.equals(&c1) {
            Some(Quadrupel { op: QuadrupelOp::Assign, arg1: self.arg2, arg2: e, result: self.result })
        } else if (op == QuadrupelOp::Mul || op == QuadrupelOp::Div) && self.arg2.equals(&c1) {
            Some(Quadrupel { op: QuadrupelOp::Assign, arg1: self.arg1, arg2: e, result: self.result })
        } else if op == QuadrupelOp::Sub && self.arg1.equals(&c0) {
            Some(Quadrupel { op: QuadrupelOp::Neg, arg1: self.arg2, arg2: e, result: self.result })
        } else if op == QuadrupelOp::Sub && self.arg1.equals(&self.arg2) {
            Some(Quadrupel { op: QuadrupelOp::Assign, arg1: c0, arg2: e, result: self.result })
        } else if op == QuadrupelOp::Mul && self.arg1.equals(&c2) {
            let a = self.arg2.clone();
            Some(Quadrupel { op: QuadrupelOp::Add, arg1: a, arg2: self.arg2, result: self.result })
        } else if op == QuadrupelOp::Mul && self.arg2.equals(&c2) {
            let a = self.arg1.clone();
            Some(Quadrupel { op: QuadrupelOp::Add, arg1: a, arg2: self.arg1, result: self.result })
        } else if (op == QuadrupelOp::Mul || op == QuadrupelOp::Div) && self.arg1.equals(&c0) {
            Some(Quadrupel { op: QuadrupelOp::Assign, arg1: c0, arg2: e, result: self.result })
        } else if op == QuadrupelOp::Mul && self.arg2.equals(&c0) {
            Some(Quadrupel { op: QuadrupelOp::Assign, arg1: c0, arg2: e, result: self.result })
        } else {
            Some(self)
        }
    }

    /// Removes every empty quadruple, keeping the order of the others.
    pub fn filter_empty(quads: &mut Vec<Quadrupel>)
        ensures
            final(quads)@ == old(quads)@.filter(|q: Quadrupel| !same_quad(q, spec_empty_quad())),
    {
        let ghost orig = quads@;
        let mut kept: Vec<Quadrupel> = Vec::new();
        let mut i: usize = 0;
        while i < quads.len()
            invariant
                quads@ == orig,
                i <= orig.len(),
                kept@ == orig.take(i as int).filter(|q: Quadrupel| !same_quad(q, spec_empty_quad())),
            decreases orig.len() - i,
        {
            proof {
                reveal_with_fuel(Seq::<Quadrupel>::filter, 1);
                assert(orig.take(i + 1).drop_last() =~= orig.take(i as int));
            }
            if !quads[i].is_empty() {
                kept.push(quads[i].clone());
            }
            i = i + 1;
        }
        assert(orig.take(orig.len() as int) =~= orig);
        *quads = kept;
    }
}

/// Folding constants is integer arithmetic: the sum, the difference (the first operand
/// minus the second) and the product of two constants wherever it fits in an `int`, and
/// nothing where it does not; nothing for a division by zero, and a quotient truncated
/// toward zero otherwise; the negation of one constant.
pub proof fn law_fold_is_arithmetic(a: i32, b: i32, res: QuadrupelResult)
    ensures
        spec_calc_const(mk_quad(QuadrupelOp::Add, QuadrupelArg::Const(a), QuadrupelArg::Const(b), res))
            == (if i32::MIN <= a + b <= i32::MAX { Some((a + b) as i32) } else { None::<i32> }),
        spec_calc_const(mk_quad(QuadrupelOp::Sub, QuadrupelArg::Const(a), QuadrupelArg::Const(b), res))
            == (if i32::MIN <= a - b <= i32::MAX { Some((a - b) as i32) } else { None::<i32> }),
        spec_calc_const(mk_quad(QuadrupelOp::Mul, QuadrupelArg::Const(a), QuadrupelArg::Const(b), res))
            == (if i32::MIN <= a * b <= i32::MAX { Some((a * b) as i32) } else { None::<i32> }),
        spec_calc_const(mk_quad(QuadrupelOp::Div, QuadrupelArg::Const(a), QuadrupelArg::Const(0), res)) is None,
        a >= 0 && b > 0 ==> spec_calc_const(mk_quad(QuadrupelOp::Div, QuadrupelArg::Const(a), QuadrupelArg::Const(b), res))
            == Some(((a as int) / (b as int)) as i32),
        a < 0 && b > 0 ==> spec_calc_const(mk_quad(QuadrupelOp::Div, QuadrupelArg::Const(a), QuadrupelArg::Const(b), res))
            == Some((-((-(a as int)) / (b as int))) as i32),
        spec_calc_const(mk_quad(QuadrupelOp::Neg, QuadrupelArg::Const(a), QuadrupelArg::Empty, res))
            == (if a != i32::MIN { Some((-a) as i32) } else { None::<i32> }),
{
    if a >= 0 && b > 0 {
        assert(0 <= (a as int) / (b as int) <= a) by (nonlinear_arith)
            requires a >= 0, b > 0;
    }
    if a < 0 && b > 0 {
        assert(0 <= (-(a as int)) / (b as int) <= -(a as int)) by (nonlinear_arith)
            requires a < 0, b > 0;
    }
}

/// Folding a comparison of two constants gives the integer order: `=`, `#`, `<`, `<=`,
/// `>` and `>=` of the first operand against the second.
pub proof fn law_fold_comparison_is_order(a: i32, b: i32, res: QuadrupelResult)
    ensures
        spec_const_comparison(mk_quad(QuadrupelOp::Equ, QuadrupelArg::Const(a), QuadrupelArg::Const(b), res)) == Some(a == b),
        spec_const_comparison(mk_quad(QuadrupelOp::Neq, QuadrupelArg::Const(a), QuadrupelArg::Const(b), res)) == Some(a != b),
        spec_const_comparison(mk_quad(QuadrupelOp::Lst, QuadrupelArg::Const(a), QuadrupelArg::Const(b), res)) == Some(a < b),
        spec_const_comparison(mk_quad(QuadrupelOp::Lse, QuadrupelArg::Const(a), QuadrupelArg::Const(b), res)) == Some(a <= b),
        spec_const_comparison(mk_quad(QuadrupelOp::Grt, QuadrupelArg::Const(a), QuadrupelArg::Const(b), res)) == Some(a > b),
        spec_const_comparison(mk_quad(QuadrupelOp::Gre, QuadrupelArg::Const(a), QuadrupelArg::Const(b), res)) == Some(a >= b),
{
}

} // verus!
