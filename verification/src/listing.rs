//! The text of the three-address code listing: each quadruple as four columns of at least
//! fifteen characters.
use vstd::prelude::*;
use crate::quadrupel::{Quadrupel, QuadrupelArg, QuadrupelOp, QuadrupelResult, QuadrupelVar};
use crate::text::{nat_to_decimal, spec_decimal};
use crate::codegen::Tac;

verus! {

/// `n` spaces.
pub open spec fn spaces(n: int) -> Seq<char> {
    Seq::new(if n > 0 { n as nat } else { 0 }, |i: int| ' ')
}

/// The text followed by spaces up to `w` characters; a longer text stays as it is.
pub open spec fn pad(s: Seq<char>, w: int) -> Seq<char> {
    s + spaces(w - s.len())
}

/// The decimal text of an integer, with a minus sign where it is negative.
pub open spec fn int_text(c: int) -> Seq<char> {
    if c < 0 {
        seq!['-'] + spec_decimal((-c) as nat)
    } else {
        spec_decimal(c as nat)
    }
}

/// A variable's column: its name, or `T:` and the number of a temporary.
pub open spec fn var_text(v: QuadrupelVar) -> Seq<char> {
    match v {
        QuadrupelVar::Spl(name) => pad(name@, 15),
        QuadrupelVar::Tmp(n) => seq!['T', ':'] + pad(spec_decimal(n as nat), 13),
    }
}

/// The name of an operation in capitals.
pub open spec fn op_name(op: QuadrupelOp) -> Seq<char> {
    match op {
        QuadrupelOp::Add => "ADD"@,
        QuadrupelOp::Sub => "SUB"@,
        QuadrupelOp::Mul => "MUL"@,
        QuadrupelOp::Div => "DIV"@,
        QuadrupelOp::Neg => "NEG"@,
        QuadrupelOp::Equ => "EQU"@,
        QuadrupelOp::Neq => "NEQ"@,
        QuadrupelOp::Lst => "LST"@,
        QuadrupelOp::Lse => "LSE"@,
        QuadrupelOp::Grt => "GRT"@,
        QuadrupelOp::Gre => "GRE"@,
        QuadrupelOp::Assign => "ASSIGN"@,
        QuadrupelOp::ArrayLoad => "ARRAYLOAD"@,
        QuadrupelOp::ArrayStore => "ARRAYSTORE"@,
        QuadrupelOp::Goto => "GOTO"@,
        QuadrupelOp::Param => "PARAM"@,
        QuadrupelOp::Call => "CALL"@,
        QuadrupelOp::Default => Seq::empty(),
    }
}

/// The operation's column: its capitalised name, padded.
pub open spec fn op_text(op: QuadrupelOp) -> Seq<char> {
    pad(op_name(op), 15)
}

/// An operand's column: a variable, a constant, or blank.
pub open spec fn arg_text(a: QuadrupelArg) -> Seq<char> {
    match a {
        QuadrupelArg::Var(v) => pad(var_text(v), 15),
        QuadrupelArg::Const(c) => pad(int_text(c as int), 15),
        QuadrupelArg::Empty => spaces(15),
    }
}

/// The result's column: a variable, a label's name, or nothing.
pub open spec fn result_column(r: QuadrupelResult) -> Seq<char> {
    match r {
        QuadrupelResult::Var(v) => var_text(v),
        QuadrupelResult::Label(name) => name@,
        QuadrupelResult::Empty => Seq::empty(),
    }
}

/// Appends spaces from length `len` up to `w` characters.
fn pad_to(out: &mut String, w: usize, len: usize)
    ensures
        final(out)@ == old(out)@ + spaces(w - len),
{
    let ghost o0 = out@;
    if len < w {
        let mut k = len;
        proof {
            assert(o0 + spaces(0) =~= o0);
        }
        while k < w
            invariant
                len <= k <= w,
                out@ == o0 + spaces(k - len),
            decreases w - k,
        {
            out.append(" ");
            proof {
                reveal_strlit(" ");
                assert(out@ =~= o0 + spaces(k + 1 - len));
            }
            k = k + 1;
        }
    } else {
        assert(o0 + spaces(w - len) =~= o0);
    }
}

/// The text `s`, padded to `w` characters.
fn padded(s: &str, w: usize) -> (r: String)
    ensures
        r@ == pad(s@, w as int),
{
    let mut out = String::new();
    out.append(s);
    let n = s.unicode_len();
    pad_to(&mut out, w, n);
    proof {
        assert(out@ =~= pad(s@, w as int));
    }
    out
}

/// A variable's column.
pub fn var_column(v: &QuadrupelVar) -> (r: String)
    ensures
        r@ == var_text(*v),
{
    match v {
        QuadrupelVar::Spl(name) => padded(name.as_str(), 15),
        QuadrupelVar::Tmp(n) => {
            let d = nat_to_decimal(*n as u64);
            let p = padded(d.as_str(), 13);
            let mut out = String::new();
            out.append("T:");
            out.append(p.as_str());
            proof {
                reveal_strlit("T:");
                assert(out@ =~= var_text(*v));
            }
            out
        },
    }
}

/// The decimal text of an integer.
fn int_column_text(c: i32) -> (r: String)
    ensures
        r@ == int_text(c as int),
{
    if c < 0 {
        let m: i64 = -(c as i64);
        let d = nat_to_decimal(m as u64);
        let mut out = String::new();
        out.append("-");
        out.append(d.as_str());
        proof {
            reveal_strlit("-");
            assert(out@ =~= int_text(c as int));
        }
        out
    } else {
        nat_to_decimal(c as u64)
    }
}

/// The four columns of a quadruple: operation, first and second operand, result.
pub fn quad_columns(q: &Quadrupel) -> (r: (String, String, String, String))
    ensures
        r.0@ == op_text(q.op),
        r.1@ == arg_text(q.arg1),
        r.2@ == arg_text(q.arg2),
        r.3@ == result_column(q.result),
{
    let op = match q.op {
        QuadrupelOp::Add => "ADD",
        QuadrupelOp::Sub => "SUB",
        QuadrupelOp::Mul => "MUL",
        QuadrupelOp::Div => "DIV",
        QuadrupelOp::Neg => "NEG",
        QuadrupelOp::Equ => "EQU",
        QuadrupelOp::Neq => "NEQ",
        QuadrupelOp::Lst => "LST",
        QuadrupelOp::Lse => "LSE",
        QuadrupelOp::Grt => "GRT",
        QuadrupelOp::Gre => "GRE",
        QuadrupelOp::Assign => "ASSIGN",
        QuadrupelOp::ArrayLoad => "ARRAYLOAD",
        QuadrupelOp::ArrayStore => "ARRAYSTORE",
        QuadrupelOp::Goto => "GOTO",
        QuadrupelOp::Param => "PARAM",
        QuadrupelOp::Call => "CALL",
        QuadrupelOp::Default => {
            proof {
                reveal_strlit("");
            }
            ""
        },
    };
    (padded(op, 15), arg_column(&q.arg1), arg_column(&q.arg2), result_text_column(&q.result))
}

/// An operand's column.
fn arg_column(a: &QuadrupelArg) -> (r: String)
    ensures
        r@ == arg_text(*a),
{
    match a {
        QuadrupelArg::Var(v) => {
            let t = var_column(v);
            padded(t.as_str(), 15)
        },
        QuadrupelArg::Const(c) => {
            let t = int_column_text(*c);
            padded(t.as_str(), 15)
        },
        QuadrupelArg::Empty => {
            let mut out = String::new();
            pad_to(&mut out, 15, 0);
            proof {
                assert(out@ =~= spaces(15));
            }
            out
        },
    }
}

/// The result's column.
fn result_text_column(r: &QuadrupelResult) -> (s: String)
    ensures
        s@ == result_column(*r),
{
    match r {
        QuadrupelResult::Var(v) => var_column(v),
        QuadrupelResult::Label(name) => name.clone(),
        QuadrupelResult::Empty => String::new(),
    }
}

/// The plain line of a quadruple: a label as `name:`, any other quadruple as a tab and
/// its four columns separated by `|`.
pub open spec fn quad_line(q: Quadrupel) -> Seq<char> {
    if q.op == QuadrupelOp::Default {
        result_column(q.result) + ":"@
    } else {
        "\t"@ + op_text(q.op) + "|"@ + arg_text(q.arg1) + "|"@ + arg_text(q.arg2) + "|"@ + result_column(q.result)
    }
}

/// The lines of the first `k` quadruples of `code`.
pub open spec fn code_lines(code: Seq<Quadrupel>, k: int) -> Seq<char>
    decreases k,
{
    if k <= 0 {
        Seq::empty()
    } else {
        code_lines(code, k - 1) + quad_line(code[k - 1]) + "\n"@
    }
}

/// The plain listing of the first `k` procedures: the lines of each procedure's code,
/// then a rule of 58 dashes and an empty line.
pub open spec fn listing_text(procs: Seq<(String, Vec<Quadrupel>)>, k: int) -> Seq<char>
    decreases k,
{
    if k <= 0 {
        Seq::empty()
    } else {
        listing_text(procs, k - 1) + code_lines(procs[k - 1].1@, procs[k - 1].1@.len() as int)
            + "----------------------------------------------------------\n\n"@
    }
}

/// The plain line of a quadruple.
pub fn quad_line_text(q: &Quadrupel) -> (r: String)
    ensures
        r@ == quad_line(*q),
{
    let (op, arg1, arg2, res) = quad_columns(q);
    let mut out = String::new();
    if q.op == QuadrupelOp::Default {
        out.append(res.as_str());
        out.append(":");
    } else {
        out.append("\t");
        out.append(op.as_str());
        out.append("|");
        out.append(arg1.as_str());
        out.append("|");
        out.append(arg2.as_str());
        out.append("|");
        out.append(res.as_str());
    }
    out
}

impl Tac {
    /// The listing of the three-address code without colours: each procedure's
    /// quadruples one per line, then a rule of dashes and an empty line.
    pub fn listing(&self) -> (r: String)
        ensures
            r@ == listing_text(self.procs(), self.procs().len() as int),
    {
        let procs = self.procedures();
        let mut out = String::new();
        let mut i: usize = 0;
        while i < procs.len()
            invariant
                procs@ == self.procs(),
                0 <= i <= procs@.len(),
                out@ == listing_text(procs@, i as int),
            decreases procs@.len() - i,
        {
            let code = &procs[i].1;
            let ghost o0 = out@;
            let mut k: usize = 0;
            while k < code.len()
                invariant
                    0 <= k <= code@.len(),
                    out@ == o0 + code_lines(code@, k as int),
                decreases code@.len() - k,
            {
                let line = quad_line_text(&code[k]);
                out.append(line.as_str());
                out.append("\n");
                proof {
                    assert(out@ =~= o0 + code_lines(code@, k + 1));
                }
                k = k + 1;
            }
            out.append("----------------------------------------------------------\n\n");
            proof {
                assert(out@ =~= listing_text(procs@, i + 1));
            }
            i = i + 1;
        }
        out
    }
}

} // verus!
