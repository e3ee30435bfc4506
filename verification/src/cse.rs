//! Common-subexpression elimination within basic blocks, with a buffer of available
//! expressions.
use vstd::prelude::*;
use crate::blocks::{Block, BlockContent, BlockGraph, block_code};
use crate::quadrupel::{
    Quadrupel, QuadrupelArg, QuadrupelOp, QuadrupelResult, QuadrupelVar, result_is_arg, same_arg,
    spec_identifier, spec_simplify,
};
use crate::table::{Entry, SymbolTable, VariableEntry};
use crate::types::{PrimitiveType, Type};
use crate::worklist::{param_decl, param_resolvable};
use crate::text::spec_decimal;
use crate::codegen_spec::lemma_decimal_injective;

verus! {

/// An available expression: the quadruple that computed it, the position after its
/// placeholder in the new code, and the temporary that holds it once it is reused.
#[derive(Debug)]
pub struct AEBEntry {
    pub quad: Quadrupel,
    pub pos: usize,
    pub tmp: Option<QuadrupelVar>,
}

/// Whether an available expression computes what `other` computes: the same operands,
/// in either order for `+`, `*` and negation (the operation itself is not compared).
pub open spec fn aeb_matches(e: Quadrupel, other: Quadrupel) -> bool {
    match e.op {
        QuadrupelOp::Add | QuadrupelOp::Mul | QuadrupelOp::Neg =>
            (same_arg(e.arg1, other.arg1) && same_arg(e.arg2, other.arg2))
            || (same_arg(e.arg1, other.arg2) && same_arg(e.arg2, other.arg1)),
        QuadrupelOp::Sub | QuadrupelOp::Div | QuadrupelOp::ArrayLoad =>
            same_arg(e.arg1, other.arg1) && same_arg(e.arg2, other.arg2),
        _ => false,
    }
}

impl AEBEntry {
    /// A new available expression without a temporary.
    pub fn new(quad: Quadrupel, pos: usize) -> (r: AEBEntry)
        ensures
            r == (AEBEntry { quad, pos, tmp: None }),
    {
        AEBEntry { quad, pos, tmp: None }
    }

    /// Whether this expression computes what `other` computes.
    pub fn cmp(&self, other: &Quadrupel) -> (r: bool)
        ensures
            r == aeb_matches(self.quad, *other),
    {
        match self.quad.op {
            QuadrupelOp::Add | QuadrupelOp::Mul | QuadrupelOp::Neg =>
                (self.quad.arg1.equals(&other.arg1) && self.quad.arg2.equals(&other.arg2))
                || (self.quad.arg1.equals(&other.arg2) && self.quad.arg2.equals(&other.arg1)),
            QuadrupelOp::Sub | QuadrupelOp::Div | QuadrupelOp::ArrayLoad =>
                self.quad.arg1.equals(&other.arg1) && self.quad.arg2.equals(&other.arg2),
            _ => false,
        }
    }
}

/// The name of temporary `n`.
pub open spec fn tmp_name(n: nat) -> Seq<char> {
    spec_identifier(QuadrupelVar::Tmp(n as usize))
}

/// The position of the first available expression that computes what `q` computes.
pub open spec fn first_match(aeb: Seq<AEBEntry>, q: Quadrupel) -> Option<int>
    decreases aeb.len(),
{
    if aeb.len() == 0 {
        None
    } else if aeb_matches(aeb[0].quad, q) {
        Some(0)
    } else {
        match first_match(aeb.drop_first(), q) {
            Some(k) => Some(k + 1),
            None => None,
        }
    }
}

/// Whether a change (of the variable passed to a reference parameter, or else of the
/// result) makes an operand stale.
pub open spec fn invalidates(ref_arg: Option<QuadrupelArg>, res: QuadrupelResult, a: QuadrupelArg) -> bool {
    match ref_arg {
        Some(x) => same_arg(x, a),
        None => result_is_arg(res, a),
    }
}

/// The available expressions that stay after a change.
pub open spec fn retained(aeb: Seq<AEBEntry>, ref_arg: Option<QuadrupelArg>, res: QuadrupelResult) -> Seq<AEBEntry> {
    aeb.filter(|e: AEBEntry| !invalidates(ref_arg, res, e.quad.arg1) && !invalidates(ref_arg, res, e.quad.arg2))
}

/// Whether the operation computes an expression that can be reused.
pub open spec fn is_expr_op(op: QuadrupelOp) -> bool {
    op == QuadrupelOp::Add || op == QuadrupelOp::Sub || op == QuadrupelOp::Mul || op == QuadrupelOp::Div || op == QuadrupelOp::Neg
}

/// `result := v`.
pub open spec fn assign_from(v: QuadrupelVar, result: QuadrupelResult) -> Quadrupel {
    Quadrupel { op: QuadrupelOp::Assign, arg1: QuadrupelArg::Var(v), arg2: QuadrupelArg::Empty, result }
}

/// The state of the elimination in a block: the available expressions, the new code (with
/// placeholders), and the number of the last temporary made.
pub open spec fn finish(aeb: Seq<AEBEntry>, code: Seq<Option<Quadrupel>>, last: nat, q: Quadrupel, ref_arg: Option<QuadrupelArg>)
    -> (Seq<AEBEntry>, Seq<Option<Quadrupel>>, nat) {
    (retained(aeb, ref_arg, q.result), code.push(Some(q)), last)
}

/// One step of the elimination, for quadruple `i` of `quads`. The quadruple is simplified
/// (dropped where it disappears). An expression found among the available ones is
/// replaced by a copy from the temporary that holds it; the first reuse makes that
/// temporary, rewrites the earlier computation to write it, and copies it to the earlier
/// result. An expression not found becomes available, after a placeholder. Then every
/// available expression that reads the changed variable (the one passed to a reference
/// parameter, or else the result) is dropped, and the quadruple is appended.
pub open spec fn cse_step(st: (Seq<AEBEntry>, Seq<Option<Quadrupel>>, nat), quads: Seq<Quadrupel>, i: int, global: SymbolTable)
    -> (Seq<AEBEntry>, Seq<Option<Quadrupel>>, nat) {
    let (aeb, code, last) = st;
    match spec_simplify(quads[i]) {
        None => st,
        Some(q) => if is_expr_op(q.op) {
            match first_match(aeb, q) {
                Some(k) => {
                    let e = aeb[k];
                    match e.tmp {
                        Some(t) => finish(aeb, code, last, assign_from(t, q.result), None),
                        None => {
                            let n = last + 10;
                            let t = QuadrupelVar::Tmp(n as usize);
                            let aeb1 = aeb.update(k, AEBEntry { quad: e.quad, pos: e.pos, tmp: Some(t) });
                            let code1 = code.update(e.pos - 1, Some(Quadrupel { op: e.quad.op, arg1: e.quad.arg1, arg2: e.quad.arg2, result: QuadrupelResult::Var(t) }))
                                .update(e.pos as int, Some(assign_from(t, e.quad.result)));
                            finish(aeb1, code1, n, assign_from(t, q.result), None)
                        },
                    }
                },
                None => {
                    let code1 = code.push(None);
                    finish(aeb.push(AEBEntry { quad: q, pos: code1.len() as usize, tmp: None }), code1, last, q, None)
                },
            }
        } else if q.op == QuadrupelOp::Param {
            finish(aeb, code, last, q, if param_decl(quads, i, global, global).is_reference { Some(q.arg1) } else { None })
        } else {
            finish(aeb, code, last, q, None)
        },
    }
}

/// The state after the first `k` quadruples of a block, from the counter `last0`.
pub open spec fn cse_prefix(quads: Seq<Quadrupel>, k: int, last0: nat, global: SymbolTable) -> (Seq<AEBEntry>, Seq<Option<Quadrupel>>, nat)
    decreases k,
{
    if k <= 0 {
        (Seq::empty(), Seq::empty(), last0)
    } else {
        cse_step(cse_prefix(quads, k - 1, last0, global), quads, k - 1, global)
    }
}

/// The code with the placeholders dropped.
pub open spec fn flatten(code: Seq<Option<Quadrupel>>) -> Seq<Quadrupel>
    decreases code.len(),
{
    if code.len() == 0 {
        Seq::empty()
    } else {
        flatten(code.drop_last()) + match code.last() {
            Some(q) => seq![q],
            None => Seq::empty(),
        }
    }
}

/// Every `param` of the block can be matched with its formal parameter.
pub open spec fn params_ok(quads: Seq<Quadrupel>, global: SymbolTable) -> bool {
    forall|i: int| 0 <= i < quads.len() && (#[trigger] quads[i]).op == QuadrupelOp::Param ==> param_resolvable(quads, i, global, global)
}

/// The positions of the available expressions lie inside the new code.
pub open spec fn positions_ok(aeb: Seq<AEBEntry>, code: Seq<Option<Quadrupel>>) -> bool {
    forall|k: int| 0 <= k < aeb.len() ==> 1 <= (#[trigger] aeb[k]).pos < code.len()
}

/// No temporary numbered above `last` is in the table.
pub open spec fn tmps_fresh(t: SymbolTable, last: nat) -> bool {
    forall|n: nat| last < n <= usize::MAX ==> !t@.contains_key(#[trigger] tmp_name(n))
}

proof fn lemma_retained_positions(aeb: Seq<AEBEntry>, code: Seq<Option<Quadrupel>>, ref_arg: Option<QuadrupelArg>, res: QuadrupelResult, x: Option<Quadrupel>)
    requires
        forall|k: int| 0 <= k < aeb.len() ==> 1 <= (#[trigger] aeb[k]).pos <= code.len(),
    ensures
        positions_ok(retained(aeb, ref_arg, res), code.push(x)),
{
    let f = |e: AEBEntry| !invalidates(ref_arg, res, e.quad.arg1) && !invalidates(ref_arg, res, e.quad.arg2);
    let r = aeb.filter(f);
    assert forall|k: int| 0 <= k < r.len() implies 1 <= (#[trigger] r[k]).pos < code.push(x).len() by {
        assert(r.contains(r[k]));
        aeb.lemma_filter_contains_rev(f, r[k]);
        let j = choose|j: int| 0 <= j < aeb.len() && aeb[j] == r[k];
    }
}

proof fn lemma_first_match(aeb: Seq<AEBEntry>, q: Quadrupel)
    ensures
        first_match(aeb, q) is Some ==> 0 <= first_match(aeb, q)->0 < aeb.len() && aeb_matches(aeb[first_match(aeb, q)->0].quad, q),
        first_match(aeb, q) is Some ==> forall|j: int| 0 <= j < first_match(aeb, q)->0 ==> !aeb_matches(#[trigger] aeb[j].quad, q),
        first_match(aeb, q) is None ==> forall|j: int| 0 <= j < aeb.len() ==> !aeb_matches(#[trigger] aeb[j].quad, q),
    decreases aeb.len(),
{
    if aeb.len() > 0 && !aeb_matches(aeb[0].quad, q) {
        lemma_first_match(aeb.drop_first(), q);
        assert forall|j: int| 1 <= j < aeb.len() implies aeb[j] == aeb.drop_first()[j - 1] by {}
    }
}


/// Different numbers name different temporaries.
pub proof fn lemma_tmp_name_injective(m: nat, n: nat)
    requires
        m <= usize::MAX,
        n <= usize::MAX,
        tmp_name(m) == tmp_name(n),
    ensures
        m == n,
{
    assert(tmp_name(m).subrange(2, tmp_name(m).len() as int) =~= spec_decimal(m));
    assert(tmp_name(n).subrange(2, tmp_name(n).len() as int) =~= spec_decimal(n));
    lemma_decimal_injective(m, n);
}

impl Clone for AEBEntry {
    fn clone(&self) -> (r: Self)
        ensures
            r == *self,
    {
        AEBEntry {
            quad: self.quad.clone(),
            pos: self.pos,
            tmp: match &self.tmp {
                Some(t) => Some(t.clone()),
                None => None,
            },
        }
    }
}

/// Whether a change makes an operand stale.
fn invalidates_exec(ref_arg: &Option<QuadrupelArg>, res: &QuadrupelResult, a: &QuadrupelArg) -> (r: bool)
    ensures
        r == invalidates(*ref_arg, *res, *a),
{
    match ref_arg {
        Some(x) => x.equals(a),
        None => res.is_arg(a),
    }
}

/// The available expressions that stay after a change.
fn retain_aeb(aeb: &Vec<AEBEntry>, ref_arg: &Option<QuadrupelArg>, res: &QuadrupelResult) -> (r: Vec<AEBEntry>)
    ensures
        r@ == retained(aeb@, *ref_arg, *res),
{
    let ghost f = |e: AEBEntry| !invalidates(*ref_arg, *res, e.quad.arg1) && !invalidates(*ref_arg, *res, e.quad.arg2);
    let mut out: Vec<AEBEntry> = Vec::new();
    let mut i: usize = 0;
    while i < aeb.len()
        invariant
            0 <= i <= aeb@.len(),
            f == (|e: AEBEntry| !invalidates(*ref_arg, *res, e.quad.arg1) && !invalidates(*ref_arg, *res, e.quad.arg2)),
            out@ == aeb@.take(i as int).filter(f),
        decreases aeb@.len() - i,
    {
        proof {
            reveal_with_fuel(Seq::<AEBEntry>::filter, 1);
            assert(aeb@.take(i + 1).drop_last() =~= aeb@.take(i as int));
        }
        if !invalidates_exec(ref_arg, res, &aeb[i].quad.arg1) && !invalidates_exec(ref_arg, res, &aeb[i].quad.arg2) {
            out.push(aeb[i].clone());
        }
        i = i + 1;
    }
    proof {
        assert(aeb@.take(aeb@.len() as int) =~= aeb@);
    }
    out
}

/// The placeholders dropped.
fn flatten_code(code: &Vec<Option<Quadrupel>>) -> (r: Vec<Quadrupel>)
    ensures
        r@ == flatten(code@),
{
    let mut out: Vec<Quadrupel> = Vec::new();
    let mut i: usize = 0;
    while i < code.len()
        invariant
            0 <= i <= code@.len(),
            out@ == flatten(code@.take(i as int)),
        decreases code@.len() - i,
    {
        proof {
            assert(code@.take(i + 1).drop_last() =~= code@.take(i as int));
        }
        match &code[i] {
            Some(q) => out.push(q.clone()),
            None => {},
        }
        proof {
            assert(out@ =~= flatten(code@.take(i + 1)));
        }
        i = i + 1;
    }
    proof {
        assert(code@.take(code@.len() as int) =~= code@);
    }
    out
}

/// The position of the first available expression that computes what `q` computes.
fn find_available(aeb: &Vec<AEBEntry>, q: &Quadrupel) -> (r: (bool, usize))
    ensures
        r.0 <==> first_match(aeb@, *q) is Some,
        r.0 ==> first_match(aeb@, *q)->0 == r.1 && r.1 < aeb@.len(),
{
    let ghost a0 = aeb@;
    let mut k: usize = 0;
    let mut found = false;
    proof {
        lemma_first_match(a0, *q);
    }
    while k < aeb.len() && !found
        invariant
            aeb@ == a0,
            0 <= k <= a0.len(),
            found ==> k < a0.len() && first_match(a0, *q) is Some && first_match(a0, *q)->0 == k,
            !found ==> forall|j: int| 0 <= j < k ==> !aeb_matches(#[trigger] a0[j].quad, *q),
            first_match(a0, *q) is Some ==> 0 <= first_match(a0, *q)->0 < a0.len()
                && aeb_matches(a0[first_match(a0, *q)->0].quad, *q)
                && forall|j: int| 0 <= j < first_match(a0, *q)->0 ==> !aeb_matches(#[trigger] a0[j].quad, *q),
            first_match(a0, *q) is None ==> forall|j: int| 0 <= j < a0.len() ==> !aeb_matches(#[trigger] a0[j].quad, *q),
        decreases a0.len() - k + (if found { 0int } else { 1int }),
    {
        if aeb[k].cmp(q) {
            found = true;
        } else {
            k = k + 1;
        }
    }
    (found, k)
}

/// `k` is the name of a temporary numbered `a + 10`, `a + 20`, .., up to `b`.
pub open spec fn new_tmp_key(k: Seq<char>, a: nat, b: nat) -> bool {
    exists|n: nat| a < n <= b && (n - a) % 10 == 0 && k == #[trigger] tmp_name(n)
}

/// The table `t1` is `t0` with the temporaries numbered `a + 10`, `a + 20`, .., up to `b`
/// entered as integer variables passed by value.
pub open spec fn tmps_entered(t0: SymbolTable, t1: SymbolTable, a: nat, b: nat) -> bool {
    &&& forall|k: Seq<char>| #[trigger] t1@.contains_key(k) <==> (t0@.contains_key(k) || new_tmp_key(k, a, b))
    &&& forall|k: Seq<char>| #[trigger] t0@.contains_key(k) ==> t1@[k] == t0@[k]
    &&& forall|k: Seq<char>| new_tmp_key(k, a, b) && !t0@.contains_key(k) ==> #[trigger] t1@[k]
        == Entry::VariableEntry(VariableEntry { typ: Type::PrimitiveType(PrimitiveType::Int), is_reference: false })
}

proof fn lemma_tmps_entered_refl(t: SymbolTable, a: nat)
    ensures
        tmps_entered(t, t, a, a),
{
}

proof fn lemma_tmps_entered_trans(t0: SymbolTable, t1: SymbolTable, t2: SymbolTable, a: nat, b: nat, c: nat)
    requires
        tmps_entered(t0, t1, a, b),
        tmps_entered(t1, t2, b, c),
        a <= b <= c,
        (b - a) % 10 == 0,
    ensures
        tmps_entered(t0, t2, a, c),
{
    assert forall|k: Seq<char>| new_tmp_key(k, a, b) implies new_tmp_key(k, a, c) by {
        let n = choose|n: nat| a < n <= b && (n - a) % 10 == 0 && k == #[trigger] tmp_name(n);
    }
    assert forall|k: Seq<char>| new_tmp_key(k, b, c) implies new_tmp_key(k, a, c) by {
        let n = choose|n: nat| b < n <= c && (n - b) % 10 == 0 && k == #[trigger] tmp_name(n);
        assert((n - a) % 10 == 0) by (nonlinear_arith)
            requires (n - b) % 10 == 0, (b - a) % 10 == 0, a <= b, b < n;
    }
    assert forall|k: Seq<char>| new_tmp_key(k, a, c) implies new_tmp_key(k, a, b) || new_tmp_key(k, b, c) by {
        let n = choose|n: nat| a < n <= c && (n - a) % 10 == 0 && k == #[trigger] tmp_name(n);
        if n > b {
            assert((n - b) % 10 == 0) by (nonlinear_arith)
                requires (n - a) % 10 == 0, (b - a) % 10 == 0, a <= b, b < n;
        }
    }
    assert forall|k: Seq<char>| #[trigger] t2@.contains_key(k) <==> (t0@.contains_key(k) || new_tmp_key(k, a, c)) by {
        if new_tmp_key(k, a, c) {
            assert(new_tmp_key(k, a, b) || new_tmp_key(k, b, c));
        }
        if new_tmp_key(k, a, b) {
            assert(new_tmp_key(k, a, c));
        }
        if new_tmp_key(k, b, c) {
            assert(new_tmp_key(k, a, c));
        }
    }
    assert forall|k: Seq<char>| #[trigger] t0@.contains_key(k) implies t2@[k] == t0@[k] by {
        assert(t1@.contains_key(k));
    }
    assert forall|k: Seq<char>| new_tmp_key(k, a, c) && !t0@.contains_key(k) implies #[trigger] t2@[k]
        == Entry::VariableEntry(VariableEntry { typ: Type::PrimitiveType(PrimitiveType::Int), is_reference: false }) by {
        assert(new_tmp_key(k, a, b) || new_tmp_key(k, b, c));
        if new_tmp_key(k, a, b) {
            assert(t1@.contains_key(k));
            assert(t2@[k] == t1@[k]);
        } else if t1@.contains_key(k) {
            assert(t2@[k] == t1@[k]);
        }
    }
}

/// The new code and counter of one step, and the table grown by the temporaries it makes.
fn cse_one(quads: &Vec<Quadrupel>, i: usize, aeb: &mut Vec<AEBEntry>, code_new: &mut Vec<Option<Quadrupel>>, last: &mut usize,
    table: &mut SymbolTable, global: &SymbolTable)
    requires
        i < quads@.len(),
        params_ok(quads@, *global),
        positions_ok(old(aeb)@, old(code_new)@),
        tmps_fresh(*old(table), *old(last) as nat),
        *old(last) + 10 <= usize::MAX,
    ensures
        (final(aeb)@, final(code_new)@, *final(last) as nat) == cse_step((old(aeb)@, old(code_new)@, *old(last) as nat), quads@, i as int, *global),
        positions_ok(final(aeb)@, final(code_new)@),
        tmps_fresh(*final(table), *final(last) as nat),
        *old(last) <= *final(last) <= *old(last) + 10,
        *final(last) == *old(last) || *final(last) == *old(last) + 10,
        forall|k: Seq<char>| #[trigger] old(table)@.contains_key(k) ==> final(table)@.contains_key(k) && final(table)@[k] == old(table)@[k],
        tmps_entered(*old(table), *final(table), *old(last) as nat, *final(last) as nat),
{
    let q = match quads[i].clone().simplify() {
        Some(q) => q,
        None => {
            return;
        },
    };
    let ghost a0 = aeb@;
    let ghost c0 = code_new@;
    let ref_arg: Option<QuadrupelArg>;
    let q2: Quadrupel;
    if q.op == QuadrupelOp::Add || q.op == QuadrupelOp::Sub || q.op == QuadrupelOp::Mul || q.op == QuadrupelOp::Div || q.op == QuadrupelOp::Neg {
        let (found, k) = find_available(aeb, &q);
        if found {
            let tmp = match &aeb[k].tmp {
                Some(t) => t.clone(),
                None => {
                    let n = *last + 10;
                    let t = QuadrupelVar::Tmp(n);
                    proof {
                        assert(!table@.contains_key(tmp_name(n as nat)));
                    }
                    let ghost tb = *table;
                    let entered = table.enter(t.to_identifier(), Entry::VariableEntry(VariableEntry { typ: Type::PrimitiveType(PrimitiveType::Int), is_reference: false }));
                    proof {
                        assert(entered is Ok);
                        assert forall|m: nat| n < m <= usize::MAX implies !table@.contains_key(#[trigger] tmp_name(m)) by {
                            if tmp_name(m) == tmp_name(n as nat) {
                                lemma_tmp_name_injective(m, n as nat);
                            }
                        }
                        let a = (n - 10) as nat;
                        assert forall|k: Seq<char>| new_tmp_key(k, a, n as nat) <==> k == tmp_name(n as nat) by {
                            if new_tmp_key(k, a, n as nat) {
                                let j = choose|j: nat| a < j <= n && (j - a) % 10 == 0 && k == #[trigger] tmp_name(j);
                                assert(j == n);
                            }
                            if k == tmp_name(n as nat) {
                                assert(a < n <= n && (n - a) % 10 == 0 && k == tmp_name(n as nat));
                            }
                        }
                        assert(spec_identifier(t) == tmp_name(n as nat));
                        assert(tmps_entered(tb, *table, a, n as nat));
                    }
                    *last = n;
                    let e = aeb[k].clone();
                    code_new.set(e.pos - 1, Some(Quadrupel { op: e.quad.op, arg1: e.quad.arg1.clone(), arg2: e.quad.arg2.clone(), result: QuadrupelResult::Var(t.clone()) }));
                    code_new.set(e.pos, Some(Quadrupel { op: QuadrupelOp::Assign, arg1: QuadrupelArg::Var(t.clone()), arg2: QuadrupelArg::Empty, result: e.quad.result.clone() }));
                    aeb.set(k, AEBEntry { quad: e.quad, pos: e.pos, tmp: Some(t.clone()) });
                    t
                },
            };
            q2 = Quadrupel { op: QuadrupelOp::Assign, arg1: QuadrupelArg::Var(tmp), arg2: QuadrupelArg::Empty, result: q.result };
            ref_arg = None;
        } else {
            code_new.push(None);
            let pos = code_new.len();
            aeb.push(AEBEntry::new(q.clone(), pos));
            q2 = q;
            ref_arg = None;
        }
    } else if q.op == QuadrupelOp::Param {
        let r = Quadrupel::find_param_declaration(quads.as_slice(), i, global, global).is_reference;
        ref_arg = if r { Some(q.arg1.clone()) } else { None };
        q2 = q;
    } else {
        ref_arg = None;
        q2 = q;
    }
    let ghost a1 = aeb@;
    let ghost c1 = code_new@;
    proof {
        lemma_retained_positions(a1, c1, ref_arg, q2.result, Some(q2));
    }
    let kept = retain_aeb(aeb, &ref_arg, &q2.result);
    *aeb = kept;
    code_new.push(Some(q2));
}

/// The state after the first `k` quadruples keeps the counter within `10 k` of its start.
proof fn lemma_cse_prefix_last(quads: Seq<Quadrupel>, k: int, last0: nat, global: SymbolTable)
    ensures
        last0 <= cse_prefix(quads, k, last0, global).2 <= last0 + 10 * (if k > 0 { k } else { 0 }),
    decreases k,
{
    if k > 0 {
        lemma_cse_prefix_last(quads, k - 1, last0, global);
    }
}

/// Eliminates common subexpressions in one block, making temporaries numbered from `last`
/// on in steps of ten and entering them into the local table.
pub fn optimize_block(block: &mut Block, last: &mut usize, local_table: &mut SymbolTable, global: &SymbolTable)
    requires
        params_ok(block_code(*old(block)), *global),
        tmps_fresh(*old(local_table), *old(last) as nat),
        *old(last) + 10 * block_code(*old(block)).len() <= usize::MAX,
    ensures
        final(block).label == old(block).label,
        match old(block).content {
            BlockContent::Code(v) => final(block).content is Code
                && block_code(*final(block)) == flatten(cse_prefix(v@, v@.len() as int, *old(last) as nat, *global).1)
                && *final(last) == cse_prefix(v@, v@.len() as int, *old(last) as nat, *global).2,
            c => final(block).content == c && *final(last) == *old(last),
        },
        tmps_fresh(*final(local_table), *final(last) as nat),
        *old(last) <= *final(last) <= *old(last) + 10 * block_code(*old(block)).len(),
        forall|k: Seq<char>| #[trigger] old(local_table)@.contains_key(k) ==> final(local_table)@.contains_key(k) && final(local_table)@[k] == old(local_table)@[k],
        tmps_entered(*old(local_table), *final(local_table), *old(last) as nat, *final(last) as nat),
        (*final(last) - *old(last)) % 10 == 0,
{
    let is_code = match &block.content {
        BlockContent::Code(_) => true,
        _ => false,
    };
    if !is_code {
        proof {
            lemma_tmps_entered_refl(*local_table, *last as nat);
        }
        return;
    }
    let mut content = BlockContent::Start;
    std::mem::swap(&mut content, &mut block.content);
    let quads = match content {
        BlockContent::Code(v) => v,
        _ => Vec::new(),
    };
    let ghost q0 = quads@;
    let ghost last0 = *last as nat;
    let mut aeb: Vec<AEBEntry> = Vec::new();
    let mut code_new: Vec<Option<Quadrupel>> = Vec::new();
    let mut i: usize = 0;
    while i < quads.len()
        invariant
            quads@ == q0,
            q0 == block_code(*old(block)),
            last0 == *old(last) as nat,
            params_ok(q0, *global),
            0 <= i <= q0.len(),
            (aeb@, code_new@, *last as nat) == cse_prefix(q0, i as int, last0, *global),
            positions_ok(aeb@, code_new@),
            tmps_fresh(*local_table, *last as nat),
            last0 + 10 * q0.len() <= usize::MAX,
            last0 <= *last <= last0 + 10 * i,
            forall|k: Seq<char>| #[trigger] old(local_table)@.contains_key(k) ==> local_table@.contains_key(k) && local_table@[k] == old(local_table)@[k],
            tmps_entered(*old(local_table), *local_table, last0, *last as nat),
            (*last - last0) % 10 == 0,
        decreases q0.len() - i,
    {
        proof {
            assert(*last + 10 <= last0 + 10 * (i + 1)) by (nonlinear_arith)
                requires *last <= last0 + 10 * i;
            assert(last0 + 10 * (i + 1) <= last0 + 10 * q0.len()) by (nonlinear_arith)
                requires i < q0.len();
        }
        let ghost tm = *local_table;
        let ghost lm = *last as nat;
        cse_one(&quads, i, &mut aeb, &mut code_new, last, local_table, global);
        proof {
            lemma_tmps_entered_trans(*old(local_table), tm, *local_table, last0, lm, *last as nat);
        }
        i = i + 1;
    }
    let new_code = flatten_code(&code_new);
    block.content = BlockContent::Code(new_code);
}


/// The highest number of a temporary that the first `k` quadruples write (0 if none).
pub open spec fn max_tmp_code(code: Seq<Quadrupel>, k: int) -> nat
    decreases k,
{
    if k <= 0 {
        0
    } else {
        let m = max_tmp_code(code, k - 1);
        match code[k - 1].result {
            QuadrupelResult::Var(QuadrupelVar::Tmp(n)) => if n > m { n as nat } else { m },
            _ => m,
        }
    }
}

/// The highest number of a temporary written in the first `k` blocks (0 if none).
pub open spec fn max_tmp_blocks(blocks: Seq<Block>, k: int) -> nat
    decreases k,
{
    if k <= 0 {
        0
    } else {
        let m = max_tmp_blocks(blocks, k - 1);
        let c = block_code(blocks[k - 1]);
        let n = max_tmp_code(c, c.len() as int);
        if n > m { n } else { m }
    }
}

/// The number of quadruples in the first `k` blocks.
pub open spec fn total_len(blocks: Seq<Block>, k: int) -> nat
    decreases k,
{
    if k <= 0 {
        0
    } else {
        total_len(blocks, k - 1) + block_code(blocks[k - 1]).len()
    }
}

/// The new code of the first `k` blocks, each block continuing the temporaries' numbering
/// where the one before left it, and the last number used.
pub open spec fn cse_graph(blocks: Seq<Block>, k: int, last0: nat, global: SymbolTable) -> (Seq<Seq<Quadrupel>>, nat)
    decreases k,
{
    if k <= 0 {
        (Seq::empty(), last0)
    } else {
        let prev = cse_graph(blocks, k - 1, last0, global);
        match blocks[k - 1].content {
            BlockContent::Code(v) => {
                let p = cse_prefix(v@, v@.len() as int, prev.1, global);
                (prev.0.push(flatten(p.1)), p.2)
            },
            _ => (prev.0.push(Seq::empty()), prev.1),
        }
    }
}

proof fn lemma_total_len_mono(blocks: Seq<Block>, i: int, j: int)
    requires
        0 <= i <= j <= blocks.len(),
    ensures
        total_len(blocks, i) <= total_len(blocks, j),
    decreases j - i,
{
    if i < j {
        lemma_total_len_mono(blocks, i, j - 1);
    }
}

impl BlockGraph {
    /// Eliminates common subexpressions in every block of code, in order. The new
    /// temporaries are numbered in steps of ten from the highest temporary the code writes,
    /// and entered into the local table.
    pub fn common_subexpression_elimination(&mut self, symbol_table: &mut SymbolTable, global_table: &SymbolTable)
        requires
            forall|b: int| 0 <= b < old(self).blocks@.len() ==> params_ok(block_code(#[trigger] old(self).blocks@[b]), *global_table),
            tmps_fresh(*old(symbol_table), max_tmp_blocks(old(self).blocks@, old(self).blocks@.len() as int)),
            max_tmp_blocks(old(self).blocks@, old(self).blocks@.len() as int) + 10 * total_len(old(self).blocks@, old(self).blocks@.len() as int) <= usize::MAX,
        ensures
            final(self).blocks@.len() == old(self).blocks@.len(),
            final(self).edges == old(self).edges,
            final(self).label_to_id == old(self).label_to_id,
            final(self).sccs == old(self).sccs,
            forall|b: int| 0 <= b < final(self).blocks@.len() ==> (#[trigger] final(self).blocks@[b]).label == old(self).blocks@[b].label,
            forall|b: int| 0 <= b < final(self).blocks@.len() ==> match old(self).blocks@[b].content {
                BlockContent::Code(v) => (#[trigger] final(self).blocks@[b]).content is Code
                    && block_code(final(self).blocks@[b]) == cse_graph(old(self).blocks@, old(self).blocks@.len() as int,
                        max_tmp_blocks(old(self).blocks@, old(self).blocks@.len() as int), *global_table).0[b],
                c => final(self).blocks@[b].content == c,
            },
            forall|k: Seq<char>| #[trigger] old(symbol_table)@.contains_key(k) ==> final(symbol_table)@.contains_key(k) && final(symbol_table)@[k] == old(symbol_table)@[k],
            tmps_entered(*old(symbol_table), *final(symbol_table), max_tmp_blocks(old(self).blocks@, old(self).blocks@.len() as int),
                cse_graph(old(self).blocks@, old(self).blocks@.len() as int, max_tmp_blocks(old(self).blocks@, old(self).blocks@.len() as int), *global_table).1),
    {
        let ghost b0 = self.blocks@;
        let mut last: usize = 0;
        let mut b: usize = 0;
        while b < self.blocks.len()
            invariant
                b0 == self.blocks@,
                0 <= b <= b0.len(),
                last == max_tmp_blocks(b0, b as int),
                max_tmp_blocks(b0, b0.len() as int) + 10 * total_len(b0, b0.len() as int) <= usize::MAX,
            decreases b0.len() - b,
        {
            proof {
                lemma_max_tmp_blocks_mono(b0, b + 1, b0.len() as int);
            }
            match &self.blocks[b].content {
                BlockContent::Code(quads) => {
                    let mut k: usize = 0;
                    let ghost before = last;
                    while k < quads.len()
                        invariant
                            0 <= k <= quads@.len(),
                            quads@ == block_code(b0[b as int]),
                            b < b0.len(),
                            last == (if max_tmp_code(quads@, k as int) > before { max_tmp_code(quads@, k as int) } else { before as nat }),
                            before == max_tmp_blocks(b0, b as int),
                        decreases quads@.len() - k,
                    {
                        match &quads[k].result {
                            QuadrupelResult::Var(QuadrupelVar::Tmp(n)) => {
                                if *n > last {
                                    last = *n;
                                }
                            },
                            _ => {},
                        }
                        k = k + 1;
                    }
                },
                _ => {},
            }
            b = b + 1;
        }
        let ghost m = last as nat;
        let ghost g = *global_table;
        proof {
            lemma_tmps_entered_refl(*symbol_table, m);
        }
        let mut i: usize = 0;
        while i < self.blocks.len()
            invariant
                self.blocks@.len() == b0.len(),
                self.edges == old(self).edges,
                self.label_to_id == old(self).label_to_id,
                self.sccs == old(self).sccs,
                b0 == old(self).blocks@,
                m == max_tmp_blocks(b0, b0.len() as int),
                g == *global_table,
                forall|j: int| 0 <= j < b0.len() ==> params_ok(block_code(#[trigger] b0[j]), g),
                m + 10 * total_len(b0, b0.len() as int) <= usize::MAX,
                0 <= i <= b0.len(),
                last == cse_graph(b0, i as int, m, g).1,
                m <= last <= m + 10 * total_len(b0, i as int),
                tmps_fresh(*symbol_table, last as nat),
                forall|k: Seq<char>| #[trigger] old(symbol_table)@.contains_key(k) ==> symbol_table@.contains_key(k) && symbol_table@[k] == old(symbol_table)@[k],
                tmps_entered(*old(symbol_table), *symbol_table, m, last as nat),
                (last - m) % 10 == 0,
                forall|j: int| 0 <= j < b0.len() ==> (#[trigger] self.blocks@[j]).label == b0[j].label,
                forall|j: int| i <= j < b0.len() ==> #[trigger] self.blocks@[j] == b0[j],
                forall|j: int| 0 <= j < i ==> match b0[j].content {
                    BlockContent::Code(v) => (#[trigger] self.blocks@[j]).content is Code
                        && block_code(self.blocks@[j]) == cse_graph(b0, i as int, m, g).0[j],
                    c => self.blocks@[j].content == c,
                },
            decreases b0.len() - i,
        {
            proof {
                lemma_total_len_mono(b0, i + 1, b0.len() as int);
                lemma_cse_graph_prefix(b0, i as int, m, g);
            }
            let mut blk = Block::new_start(None);
            std::mem::swap(&mut blk, &mut self.blocks[i]);
            let ghost taken = blk;
            let ghost l0 = last;
            let ghost tm = *symbol_table;
            optimize_block(&mut blk, &mut last, symbol_table, global_table);
            self.blocks.set(i, blk);
            proof {
                lemma_tmps_entered_trans(*old(symbol_table), tm, *symbol_table, m, l0 as nat, last as nat);
                assert(taken == b0[i as int]);
                match b0[i as int].content {
                    BlockContent::Code(v) => {
                        lemma_cse_prefix_last(v@, v@.len() as int, l0 as nat, g);
                    },
                    _ => {},
                }
            }
            i = i + 1;
        }
    }
}

proof fn lemma_max_tmp_blocks_mono(blocks: Seq<Block>, i: int, j: int)
    requires
        0 <= i <= j <= blocks.len(),
    ensures
        max_tmp_blocks(blocks, i) <= max_tmp_blocks(blocks, j),
    decreases j - i,
{
    if i < j {
        lemma_max_tmp_blocks_mono(blocks, i, j - 1);
    }
}

/// The new code of earlier blocks does not change when more blocks are processed.
proof fn lemma_cse_graph_prefix(blocks: Seq<Block>, i: int, m: nat, g: SymbolTable)
    requires
        0 <= i < blocks.len(),
    ensures
        cse_graph(blocks, i + 1, m, g).0.len() == i + 1,
        forall|j: int| 0 <= j < i ==> #[trigger] cse_graph(blocks, i + 1, m, g).0[j] == cse_graph(blocks, i, m, g).0[j],
    decreases i,
{
    lemma_cse_graph_len(blocks, i, m, g);
}

proof fn lemma_cse_graph_len(blocks: Seq<Block>, i: int, m: nat, g: SymbolTable)
    requires
        0 <= i <= blocks.len(),
    ensures
        cse_graph(blocks, i, m, g).0.len() == i,
    decreases i,
{
    if i > 0 {
        lemma_cse_graph_len(blocks, i - 1, m, g);
    }
}

proof fn lemma_same_arg_value(a: QuadrupelArg, b: QuadrupelArg, frames: Seq<crate::env::Frame>, cells: Seq<crate::value::Value>)
    requires
        same_arg(a, b),
    ensures
        crate::tac_interp::operand_value(a, frames, cells) == crate::tac_interp::operand_value(b, frames, cells),
{
    if let (QuadrupelArg::Var(x), QuadrupelArg::Var(y)) = (a, b) {
        assert(spec_identifier(x) == spec_identifier(y));
    }
}

/// Two expressions of the same operation that common subexpression elimination takes for
/// one another compute the same value in any frames and cells: the same operands, or for
/// `+` and `*` the operands exchanged.
pub proof fn law_matched_expressions_agree(e: Quadrupel, o: Quadrupel, frames: Seq<crate::env::Frame>, cells: Seq<crate::value::Value>)
    requires
        aeb_matches(e, o),
        e.op == o.op,
        is_expr_op(e.op),
        e.op == QuadrupelOp::Neg ==> e.arg2 is Empty && o.arg2 is Empty,
    ensures
        crate::tac_interp::written_value(e.op, crate::tac_interp::operand_value(e.arg1, frames, cells), crate::tac_interp::operand_value(e.arg2, frames, cells))
            == crate::tac_interp::written_value(o.op, crate::tac_interp::operand_value(o.arg1, frames, cells), crate::tac_interp::operand_value(o.arg2, frames, cells)),
{
    if same_arg(e.arg1, o.arg1) && same_arg(e.arg2, o.arg2) {
        lemma_same_arg_value(e.arg1, o.arg1, frames, cells);
        lemma_same_arg_value(e.arg2, o.arg2, frames, cells);
    } else {
        lemma_same_arg_value(e.arg1, o.arg2, frames, cells);
        lemma_same_arg_value(e.arg2, o.arg1, frames, cells);
        let x = crate::tac_interp::operand_value(e.arg1, frames, cells);
        let y = crate::tac_interp::operand_value(e.arg2, frames, cells);
        if let (Some(crate::value::ValueView::Int(a)), Some(crate::value::ValueView::Int(b))) = (x, y) {
            crate::value::law_arith_is_integer_arithmetic(a, b);
            crate::value::law_arith_is_integer_arithmetic(b, a);
        }
    }
}

} // verus!
