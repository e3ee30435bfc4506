//! Constant propagation and constant folding.
use vstd::prelude::*;
use crate::blocks::{Block, BlockContent, BlockGraph, block_code};
use crate::live::{collect_vars, has_var, index_of_var, lemma_index_of_var_bound, unique_vars, var_index};
use crate::quadrupel::{Quadrupel, QuadrupelArg, QuadrupelOp, QuadrupelResult, QuadrupelVar, mk_quad, spec_calc_const, spec_empty_quad, spec_simplify, same_quad};
use crate::reaching::{is_prev, node_order};
use crate::table::SymbolTable;
use crate::worklist::{defs_ok, graph_defs, param_decl, param_resolvable};
use crate::lattice::Lattice;

verus! {

/// What is known of a variable: nothing yet, a constant value, or that it varies.
#[derive(Debug, Clone, Copy, PartialEq, Eq, Structural)]
pub enum Constness {
    Undefined,
    Constant(i32),
    Variable,
}

/// The meet of two facts: `Undefined` is neutral; equal constants stay; anything else varies.
pub open spec fn spec_meet(a: Constness, b: Constness) -> Constness {
    match (a, b) {
        (Constness::Undefined, c) => c,
        (c, Constness::Undefined) => c,
        (Constness::Constant(v), Constness::Constant(w)) => if v == w { Constness::Constant(v) } else { Constness::Variable },
        _ => Constness::Variable,
    }
}

/// The join of two facts: `Variable` is neutral; equal constants stay; anything else is
/// `Undefined`.
pub open spec fn spec_join(a: Constness, b: Constness) -> Constness {
    match (a, b) {
        (Constness::Variable, c) => c,
        (c, Constness::Variable) => c,
        (Constness::Constant(v), Constness::Constant(w)) => if v == w { Constness::Constant(v) } else { Constness::Undefined },
        _ => Constness::Undefined,
    }
}

/// The facts form a lattice: meet and join are commutative, associative and idempotent,
/// each absorbs the other, `Undefined` is neutral for meet and `Variable` for join, and
/// `Variable` absorbs every meet.
pub proof fn lemma_constness_lattice(a: Constness, b: Constness, c: Constness)
    ensures
        spec_meet(a, b) == spec_meet(b, a),
        spec_join(a, b) == spec_join(b, a),
        spec_meet(spec_meet(a, b), c) == spec_meet(a, spec_meet(b, c)),
        spec_join(spec_join(a, b), c) == spec_join(a, spec_join(b, c)),
        spec_meet(a, a) == a,
        spec_join(a, a) == a,
        spec_meet(a, spec_join(a, b)) == a,
        spec_join(a, spec_meet(a, b)) == a,
        spec_meet(Constness::Undefined, a) == a,
        spec_join(Constness::Variable, a) == a,
        spec_meet(Constness::Variable, a) == Constness::Variable,
{
}

/// What is known of an operand: a variable's known constant, or `Variable`; a constant;
/// `Undefined` for no operand.
pub open spec fn arg_constness(a: QuadrupelArg, st: Seq<Constness>, vars: Seq<QuadrupelVar>) -> Constness {
    match a {
        QuadrupelArg::Var(v) => match st[index_of_var(vars, v)->0 as int] {
            Constness::Constant(c) => Constness::Constant(c),
            _ => Constness::Variable,
        },
        QuadrupelArg::Const(c) => Constness::Constant(c),
        QuadrupelArg::Empty => Constness::Undefined,
    }
}

/// What is known of the variable a quadruple writes: the constant an assignment, a
/// negation or an arithmetic operation on constants yields; `Variable` otherwise, and also
/// where the operation on constants does not yield an `i32`.
pub open spec fn written_constness(op: QuadrupelOp, a1: Constness, a2: Constness, r: QuadrupelResult) -> Constness {
    match (op, a1, a2) {
        (QuadrupelOp::Assign, Constness::Constant(c), _) => Constness::Constant(c),
        (QuadrupelOp::Neg, Constness::Constant(c), _) => match 0i32.checked_sub(c) {
            Some(v) => Constness::Constant(v),
            None => Constness::Variable,
        },
        (QuadrupelOp::Add, Constness::Constant(c1), Constness::Constant(c2))
        | (QuadrupelOp::Sub, Constness::Constant(c1), Constness::Constant(c2))
        | (QuadrupelOp::Mul, Constness::Constant(c1), Constness::Constant(c2))
        | (QuadrupelOp::Div, Constness::Constant(c1), Constness::Constant(c2)) =>
            match spec_calc_const(mk_quad(op, QuadrupelArg::Const(c1), QuadrupelArg::Const(c2), r)) {
                Some(v) => Constness::Constant(v),
                None => Constness::Variable,
            },
        _ => Constness::Variable,
    }
}

/// The state after a quadruple: the variable it writes gets what is known of the written
/// value; a variable passed to a reference parameter (`is_ref`) varies.
pub open spec fn from_quad_spec(q: Quadrupel, st: Seq<Constness>, vars: Seq<QuadrupelVar>, is_ref: bool) -> Seq<Constness> {
    match q.result {
        QuadrupelResult::Var(v) => st.update(index_of_var(vars, v)->0 as int,
            written_constness(q.op, arg_constness(q.arg1, st, vars), arg_constness(q.arg2, st, vars), q.result)),
        _ => if q.op == QuadrupelOp::Param && q.arg1 is Var && is_ref {
            st.update(index_of_var(vars, q.arg1->Var_0)->0 as int, Constness::Variable)
        } else {
            st
        },
    }
}

/// Every variable the quadruple reads or writes is analysed (the callee of a `call` aside).
pub open spec fn quad_vars_known(q: Quadrupel, vars: Seq<QuadrupelVar>) -> bool {
    &&& (q.arg1 is Var && (q.op != QuadrupelOp::Call || q.result is Var)) ==> has_var(vars, q.arg1->Var_0)
    &&& (q.arg2 is Var ==> has_var(vars, q.arg2->Var_0))
    &&& (q.result is Var ==> has_var(vars, q.result->Var_0))
}

/// Whether the quadruple at `i` passes an argument to a reference parameter.
pub open spec fn is_ref_param(code: Seq<Quadrupel>, i: int, local: SymbolTable, global: SymbolTable) -> bool {
    code[i].op == QuadrupelOp::Param && param_decl(code, i, local, global).is_reference
}

/// The state after the first `k` quadruples of a block, from all `Undefined`.
pub open spec fn gen_prefix(code: Seq<Quadrupel>, k: int, vars: Seq<QuadrupelVar>, local: SymbolTable, global: SymbolTable) -> Seq<Constness>
    decreases k,
{
    if k <= 0 {
        Seq::new(vars.len(), |j: int| Constness::Undefined)
    } else {
        from_quad_spec(code[k - 1], gen_prefix(code, k - 1, vars, local, global), vars, is_ref_param(code, k - 1, local, global))
    }
}

/// The facts a block generates.
pub open spec fn gen_of_block(b: Block, vars: Seq<QuadrupelVar>, local: SymbolTable, global: SymbolTable) -> Seq<Constness> {
    match b.content {
        BlockContent::Code(v) => gen_prefix(v@, v@.len() as int, vars, local, global),
        _ => Seq::new(vars.len(), |j: int| Constness::Undefined),
    }
}

/// The facts a block preserves: `Undefined` where it generates one, `Variable` elsewhere.
pub open spec fn prsv_of_gen(g: Seq<Constness>) -> Seq<Constness> {
    Seq::new(g.len(), |j: int| if g[j] == Constness::Undefined { Constness::Variable } else { Constness::Undefined })
}

/// A block of code can be analysed: its variables are known and every `param` can be
/// matched with its formal parameter.
pub open spec fn code_ok(code: Seq<Quadrupel>, vars: Seq<QuadrupelVar>, local: SymbolTable, global: SymbolTable) -> bool {
    &&& forall|i: int| 0 <= i < code.len() ==> quad_vars_known(#[trigger] code[i], vars)
    &&& forall|i: int| 0 <= i < code.len() && (#[trigger] code[i]).op == QuadrupelOp::Param ==> param_resolvable(code, i, local, global)
}

/// Every block of code of the graph can be analysed.
pub open spec fn graph_code_ok(blocks: Seq<Block>, vars: Seq<QuadrupelVar>, local: SymbolTable, global: SymbolTable) -> bool {
    forall|b: int| 0 <= b < blocks.len() ==> code_ok(block_code(#[trigger] blocks[b]), vars, local, global)
}

impl Constness {
    /// What is known of an operand in state `gens`.
    pub fn from_quad_arg(value: &QuadrupelArg, gens: &Vec<Constness>, vars: &Vec<QuadrupelVar>) -> (r: Constness)
        requires
            value is Var ==> has_var(vars@, value->Var_0),
            gens@.len() == vars@.len(),
        ensures
            r == arg_constness(*value, gens@, vars@),
    {
        match value {
            QuadrupelArg::Var(v) => {
                let idx = var_index(vars, v).unwrap();
                match gens[idx] {
                    Constness::Constant(c) => Constness::Constant(c),
                    _ => Constness::Variable,
                }
            },
            QuadrupelArg::Const(c) => Constness::Constant(*c),
            QuadrupelArg::Empty => Constness::Undefined,
        }
    }

    /// Updates the state `gens` with the effect of one quadruple; `is_reference` tells
    /// whether a `param` passes its variable to a reference parameter.
    pub fn from_quad(quad: &Quadrupel, gens: &mut Vec<Constness>, vars: &Vec<QuadrupelVar>, is_reference: bool)
        requires
            quad_vars_known(*quad, vars@),
            old(gens)@.len() == vars@.len(),
        ensures
            final(gens)@ == from_quad_spec(*quad, old(gens)@, vars@, is_reference),
    {
        match &quad.result {
            QuadrupelResult::Var(var) => {
                let idx = var_index(vars, var).unwrap();
                let a1 = Constness::from_quad_arg(&quad.arg1, gens, vars);
                let a2 = Constness::from_quad_arg(&quad.arg2, gens, vars);
                let value = match (quad.op, a1, a2) {
                    (QuadrupelOp::Assign, Constness::Constant(c), _) => Constness::Constant(c),
                    (QuadrupelOp::Neg, Constness::Constant(c), _) => match 0i32.checked_sub(c) {
                        Some(v) => Constness::Constant(v),
                        None => Constness::Variable,
                    },
                    (QuadrupelOp::Add, Constness::Constant(c1), Constness::Constant(c2))
                    | (QuadrupelOp::Sub, Constness::Constant(c1), Constness::Constant(c2))
                    | (QuadrupelOp::Mul, Constness::Constant(c1), Constness::Constant(c2))
                    | (QuadrupelOp::Div, Constness::Constant(c1), Constness::Constant(c2)) => {
                        let q = Quadrupel { op: quad.op, arg1: QuadrupelArg::Const(c1), arg2: QuadrupelArg::Const(c2), result: quad.result.clone() };
                        match q.calc_const() {
                            Some(v) => Constness::Constant(v),
                            None => Constness::Variable,
                        }
                    },
                    _ => Constness::Variable,
                };
                gens.set(idx, value);
            },
            _ => {
                if quad.op == QuadrupelOp::Param && is_reference {
                    match &quad.arg1 {
                        QuadrupelArg::Var(v) => {
                            let idx = var_index(vars, v).unwrap();
                            gens.set(idx, Constness::Variable);
                        },
                        _ => {},
                    }
                }
            },
        }
    }
}


impl Block {
    /// The facts a block generates, from all `Undefined` through its quadruples in order.
    pub fn gcp_gen(&self, vars: &Vec<QuadrupelVar>, global_table: &SymbolTable) -> (r: Vec<Constness>)
        requires
            code_ok(block_code(*self), vars@, *global_table, *global_table),
        ensures
            r@ == gen_of_block(*self, vars@, *global_table, *global_table),
    {
        let mut gens: Vec<Constness> = Vec::new();
        let mut j: usize = 0;
        while j < vars.len()
            invariant
                0 <= j <= vars@.len(),
                gens@ == Seq::new(j as nat, |k: int| Constness::Undefined),
            decreases vars@.len() - j,
        {
            gens.push(Constness::Undefined);
            proof {
                assert(gens@ =~= Seq::new((j + 1) as nat, |k: int| Constness::Undefined));
            }
            j = j + 1;
        }
        match &self.content {
            BlockContent::Code(quads) => {
                let mut i: usize = 0;
                while i < quads.len()
                    invariant
                        0 <= i <= quads@.len(),
                        block_code(*self) == quads@,
                        code_ok(quads@, vars@, *global_table, *global_table),
                        gens@ == gen_prefix(quads@, i as int, vars@, *global_table, *global_table),
                        gens@.len() == vars@.len(),
                    decreases quads@.len() - i,
                {
                    let q = &quads[i];
                    let is_ref = if q.op == QuadrupelOp::Param {
                        Quadrupel::find_param_declaration(quads.as_slice(), i, global_table, global_table).is_reference
                    } else {
                        false
                    };
                    Constness::from_quad(q, &mut gens, vars, is_ref);
                    proof {
                        crate::cp::lemma_from_quad_len(quads@[i as int], gen_prefix(quads@, i as int, vars@, *global_table, *global_table), vars@, is_ref);
                    }
                    i = i + 1;
                }
            },
            _ => {},
        }
        gens
    }

    /// The facts a block preserves, given those it generates.
    pub fn gcp_prsv(gens: &Vec<Constness>) -> (r: Vec<Constness>)
        ensures
            r@ == prsv_of_gen(gens@),
    {
        let mut out: Vec<Constness> = Vec::new();
        let mut j: usize = 0;
        while j < gens.len()
            invariant
                0 <= j <= gens@.len(),
                out@ == prsv_of_gen(gens@).take(j as int),
            decreases gens@.len() - j,
        {
            out.push(if gens[j] == Constness::Undefined { Constness::Variable } else { Constness::Undefined });
            proof {
                assert(out@ =~= prsv_of_gen(gens@).take(j + 1));
            }
            j = j + 1;
        }
        proof {
            assert(prsv_of_gen(gens@).take(j as int) =~= prsv_of_gen(gens@));
        }
        out
    }
}

/// A quadruple's effect keeps the length of the state.
pub proof fn lemma_from_quad_len(q: Quadrupel, st: Seq<Constness>, vars: Seq<QuadrupelVar>, is_ref: bool)
    requires
        st.len() == vars.len(),
        quad_vars_known(q, vars),
    ensures
        from_quad_spec(q, st, vars, is_ref).len() == vars.len(),
{
    if q.result is Var {
        crate::live::lemma_has_var_index(vars, q.result->Var_0);
        lemma_index_of_var_bound(vars, q.result->Var_0);
    }
    if q.arg1 is Var {
        crate::live::lemma_has_var_index(vars, q.arg1->Var_0);
        lemma_index_of_var_bound(vars, q.arg1->Var_0);
    }
}

/// The generated facts have one entry per variable.
pub proof fn lemma_gen_prefix_len(code: Seq<Quadrupel>, k: int, vars: Seq<QuadrupelVar>, local: SymbolTable, global: SymbolTable)
    requires
        k <= code.len(),
        forall|i: int| 0 <= i < code.len() ==> quad_vars_known(#[trigger] code[i], vars),
    ensures
        gen_prefix(code, k, vars, local, global).len() == vars.len(),
    decreases k,
{
    if k > 0 {
        lemma_gen_prefix_len(code, k - 1, vars, local, global);
        lemma_from_quad_len(code[k - 1], gen_prefix(code, k - 1, vars, local, global), vars, is_ref_param(code, k - 1, local, global));
    }
}

/// All `Undefined`.
pub open spec fn all_undefined(s: Seq<Constness>, n: nat) -> bool {
    s.len() == n && forall|j: int| 0 <= j < n ==> s[j] == Constness::Undefined
}

fn undefined_vec(n: usize) -> (r: Vec<Constness>)
    ensures
        all_undefined(r@, n as nat),
{
    let mut v: Vec<Constness> = Vec::new();
    let mut j: usize = 0;
    while j < n
        invariant
            0 <= j <= n,
            all_undefined(v@, j as nat),
        decreases n - j,
    {
        v.push(Constness::Undefined);
        j = j + 1;
    }
    v
}

/// The result of constant propagation for one procedure.
pub struct ConstantPropagation {
    pub vars: Vec<QuadrupelVar>,
    pub gens: Vec<Vec<Constness>>,
    pub prsv: Vec<Vec<Constness>>,
    pub ins: Vec<Vec<Constness>>,
    pub out: Vec<Vec<Constness>>,
}

impl ConstantPropagation {
    /// Runs the analysis: collects the variables, computes for each block the facts it
    /// generates and preserves, and iterates `in[b] = in[b] ⊔ out[p]` over the
    /// predecessors and `out[b] = (in[b] ⊓ prsv[b]) ⊔ gen[b]` from all `Undefined`. As
    /// `Undefined` absorbs every join, every state stays `Undefined`.
    pub fn run(graph: &BlockGraph, local_table: &SymbolTable, global_table: &SymbolTable) -> (r: ConstantPropagation)
        requires
            graph.wf(),
            defs_ok(graph.blocks@, *local_table, *global_table),
            graph_code_ok(graph.blocks@, unique_vars(graph_defs(graph.blocks@, graph.blocks@.len() as int, *local_table, *global_table),
                graph_defs(graph.blocks@, graph.blocks@.len() as int, *local_table, *global_table).len() as int), *global_table, *global_table),
        ensures
            r.vars@ == unique_vars(graph_defs(graph.blocks@, graph.blocks@.len() as int, *local_table, *global_table),
                graph_defs(graph.blocks@, graph.blocks@.len() as int, *local_table, *global_table).len() as int),
            r.gens@.len() == graph.blocks@.len(),
            r.prsv@.len() == graph.blocks@.len(),
            r.ins@.len() == graph.blocks@.len(),
            r.out@.len() == graph.blocks@.len(),
            forall|b: int| 0 <= b < graph.blocks@.len() ==> (#[trigger] r.gens@[b])@ == gen_of_block(graph.blocks@[b], r.vars@, *global_table, *global_table),
            forall|b: int| 0 <= b < graph.blocks@.len() ==> (#[trigger] r.prsv@[b])@ == prsv_of_gen(r.gens@[b]@),
            forall|b: int| 0 <= b < graph.blocks@.len() ==> all_undefined((#[trigger] r.ins@[b])@, r.vars@.len()),
            forall|b: int| 0 <= b < graph.blocks@.len() ==> all_undefined((#[trigger] r.out@[b])@, r.vars@.len()),
    {
        let defs_in_proc = graph.definitions(local_table, global_table);
        let vars = collect_vars(&defs_in_proc);
        let n = graph.blocks.len();
        let mut gens: Vec<Vec<Constness>> = Vec::new();
        let mut prsv: Vec<Vec<Constness>> = Vec::new();
        let mut b: usize = 0;
        while b < n
            invariant
                n == graph.blocks@.len(),
                0 <= b <= n,
                graph_code_ok(graph.blocks@, vars@, *global_table, *global_table),
                gens@.len() == b,
                prsv@.len() == b,
                forall|j: int| 0 <= j < b ==> (#[trigger] gens@[j])@ == gen_of_block(graph.blocks@[j], vars@, *global_table, *global_table),
                forall|j: int| 0 <= j < b ==> (#[trigger] prsv@[j])@ == prsv_of_gen(gens@[j]@),
                forall|j: int| 0 <= j < b ==> (#[trigger] gens@[j])@.len() == vars@.len(),
            decreases n - b,
        {
            proof {
                assert(code_ok(block_code(graph.blocks@[b as int]), vars@, *global_table, *global_table));
            }
            let g = graph.blocks[b].gcp_gen(&vars, global_table);
            proof {
                let c = block_code(graph.blocks@[b as int]);
                lemma_gen_prefix_len(c, c.len() as int, vars@, *global_table, *global_table);
            }
            let p = Block::gcp_prsv(&g);
            gens.push(g);
            prsv.push(p);
            b = b + 1;
        }
        let mut ins: Vec<Vec<Constness>> = Vec::new();
        let mut out: Vec<Vec<Constness>> = Vec::new();
        let mut b2: usize = 0;
        while b2 < n
            invariant
                0 <= b2 <= n,
                ins@.len() == b2,
                out@.len() == b2,
                forall|j: int| 0 <= j < b2 ==> all_undefined((#[trigger] ins@[j])@, vars@.len()),
                forall|j: int| 0 <= j < b2 ==> all_undefined((#[trigger] out@[j])@, vars@.len()),
            decreases n - b2,
        {
            ins.push(undefined_vec(vars.len()));
            out.push(undefined_vec(vars.len()));
            b2 = b2 + 1;
        }
        let prev = graph.edges_prev();
        let mut queue = node_order(n, false);
        let mut qi: usize = 0;
        while qi < queue.len()
            invariant
                n == graph.blocks@.len(),
                graph.wf(),
                is_prev(graph.edges@, prev@),
                gens@.len() == n,
                prsv@.len() == n,
                ins@.len() == n,
                out@.len() == n,
                forall|j: int| 0 <= j < n ==> (#[trigger] prsv@[j])@ == prsv_of_gen(gens@[j]@),
                forall|j: int| 0 <= j < n ==> (#[trigger] gens@[j])@.len() == vars@.len(),
                forall|j: int| 0 <= j < n ==> all_undefined((#[trigger] ins@[j])@, vars@.len()),
                forall|j: int| 0 <= j < n ==> all_undefined((#[trigger] out@[j])@, vars@.len()),
                forall|k: int| 0 <= k < queue@.len() ==> #[trigger] queue@[k] < n,
                0 <= qi <= queue@.len(),
            decreases queue@.len() - qi,
        {
            let node = queue[qi];
            let mut cur = ins[node].clone();
            let mut k: usize = 0;
            while k < prev[node].len()
                invariant
                    node < n,
                    prev@.len() == n,
                    out@.len() == n,
                    forall|j: int, kk: int| 0 <= j < n && 0 <= kk < prev@[j]@.len() ==> (#[trigger] prev@[j]@[kk]) < n,
                    forall|j: int| 0 <= j < n ==> all_undefined((#[trigger] out@[j])@, vars@.len()),
                    all_undefined(cur@, vars@.len()),
                    0 <= k <= prev@[node as int]@.len(),
                decreases prev@[node as int]@.len() - k,
            {
                let p = prev[node][k];
                let mut j: usize = 0;
                while j < cur.len()
                    invariant
                        p < n,
                        out@.len() == n,
                        all_undefined(out@[p as int]@, vars@.len()),
                        all_undefined(cur@, vars@.len()),
                        0 <= j <= cur@.len(),
                    decreases cur@.len() - j,
                {
                    let x = cur[j].join(&out[p][j]);
                    cur.set(j, x);
                    j = j + 1;
                }
                k = k + 1;
            }
            let mut new_out: Vec<Constness> = Vec::new();
            let mut j: usize = 0;
            while j < cur.len()
                invariant
                    node < n,
                    all_undefined(cur@, vars@.len()),
                    prsv@.len() == n,
                    gens@.len() == n,
                    prsv@[node as int]@ == prsv_of_gen(gens@[node as int]@),
                    gens@[node as int]@.len() == vars@.len(),
                    0 <= j <= cur@.len(),
                    all_undefined(new_out@, j as nat),
                decreases cur@.len() - j,
            {
                let m = cur[j].meet(&prsv[node][j]);
                new_out.push(m.join(&gens[node][j]));
                j = j + 1;
            }
            let mut changed = false;
            let mut j2: usize = 0;
            while j2 < new_out.len()
                invariant
                    node < n,
                    out@.len() == n,
                    all_undefined(new_out@, vars@.len()),
                    all_undefined(out@[node as int]@, vars@.len()),
                    0 <= j2 <= new_out@.len(),
                    !changed,
                decreases new_out@.len() - j2,
            {
                if new_out[j2] != out[node][j2] {
                    changed = true;
                }
                j2 = j2 + 1;
            }
            ins.set(node, cur);
            out.set(node, new_out);
            qi = qi + 1;
        }
        ConstantPropagation { vars, gens, prsv, ins, out }
    }

    /// What the state `const_state` knows of `var`.
    pub fn get_constness(&self, var: &QuadrupelVar, const_state: &Vec<Constness>) -> (r: Constness)
        requires
            has_var(self.vars@, *var),
            const_state@.len() == self.vars@.len(),
        ensures
            r == const_state@[index_of_var(self.vars@, *var)->0 as int],
    {
        let idx = var_index(&self.vars, var).unwrap();
        const_state[idx]
    }
}


/// An operand with a variable replaced by its value where the state knows it.
pub open spec fn fold_arg(a: QuadrupelArg, st: Seq<Constness>, vars: Seq<QuadrupelVar>) -> QuadrupelArg {
    match a {
        QuadrupelArg::Var(v) => match st[index_of_var(vars, v)->0 as int] {
            Constness::Constant(c) => QuadrupelArg::Const(c),
            _ => a,
        },
        _ => a,
    }
}

/// One step of constant folding: a `call`, and a `param` of a reference parameter, stay
/// as they are; any other quadruple has its known operands replaced by constants, is
/// simplified (the empty quadruple where it disappears), and its effect is recorded.
pub open spec fn fold_step(q: Quadrupel, st: Seq<Constness>, vars: Seq<QuadrupelVar>, is_ref: bool) -> (Quadrupel, Seq<Constness>) {
    if q.op == QuadrupelOp::Call || (q.op == QuadrupelOp::Param && is_ref) {
        (q, st)
    } else {
        let q1 = Quadrupel { op: q.op, arg1: fold_arg(q.arg1, st, vars), arg2: fold_arg(q.arg2, st, vars), result: q.result };
        let q2 = match spec_simplify(q1) {
            Some(x) => x,
            None => spec_empty_quad(),
        };
        (q2, from_quad_spec(q2, st, vars, is_ref))
    }
}

/// Constant folding over the first `k` quadruples of a block from state `st0`: the
/// rewritten quadruples and the state after them.
pub open spec fn fold_prefix(code: Seq<Quadrupel>, k: int, st0: Seq<Constness>, vars: Seq<QuadrupelVar>, global: SymbolTable) -> (Seq<Quadrupel>, Seq<Constness>)
    decreases k,
{
    if k <= 0 {
        (Seq::empty(), st0)
    } else {
        let prev = fold_prefix(code, k - 1, st0, vars, global);
        let step = fold_step(code[k - 1], prev.1, vars, is_ref_param(code, k - 1, global, global));
        (prev.0.push(step.0), step.1)
    }
}

/// The code of a block after constant folding from `st0`, with the empty quadruples removed.
pub open spec fn folded_code(code: Seq<Quadrupel>, st0: Seq<Constness>, vars: Seq<QuadrupelVar>, global: SymbolTable) -> Seq<Quadrupel> {
    fold_prefix(code, code.len() as int, st0, vars, global).0.filter(|q: Quadrupel| !same_quad(q, spec_empty_quad()))
}

/// The state at the end of a block after constant folding from `st0`.
pub open spec fn folded_state(code: Seq<Quadrupel>, st0: Seq<Constness>, vars: Seq<QuadrupelVar>, global: SymbolTable) -> Seq<Constness> {
    fold_prefix(code, code.len() as int, st0, vars, global).1
}

proof fn lemma_fold_step_ok(q: Quadrupel, st: Seq<Constness>, vars: Seq<QuadrupelVar>, is_ref: bool)
    requires
        quad_vars_known(q, vars),
        st.len() == vars.len(),
    ensures
        quad_vars_known(fold_step(q, st, vars, is_ref).0, vars),
        fold_step(q, st, vars, is_ref).1.len() == vars.len(),
{
    if !(q.op == QuadrupelOp::Call || (q.op == QuadrupelOp::Param && is_ref)) {
        let q1 = Quadrupel { op: q.op, arg1: fold_arg(q.arg1, st, vars), arg2: fold_arg(q.arg2, st, vars), result: q.result };
        assert(quad_vars_known(q1, vars));
        let q2 = match spec_simplify(q1) {
            Some(x) => x,
            None => spec_empty_quad(),
        };
        assert(quad_vars_known(q2, vars));
        lemma_from_quad_len(q2, st, vars, is_ref);
    }
}

impl ConstantPropagation {
    /// Replaces an operand's variable by its value where the state knows it.
    pub fn fold_operand(&self, arg: &QuadrupelArg, const_state: &Vec<Constness>) -> (r: QuadrupelArg)
        requires
            arg is Var ==> has_var(self.vars@, arg->Var_0),
            const_state@.len() == self.vars@.len(),
        ensures
            r == fold_arg(*arg, const_state@, self.vars@),
    {
        match arg {
            QuadrupelArg::Var(v) => match self.get_constness(v, const_state) {
                Constness::Constant(c) => QuadrupelArg::Const(c),
                _ => arg.clone(),
            },
            _ => arg.clone(),
        }
    }

    /// Folds the constants of one block of code, from the block's entry state, and returns
    /// the state at its end.
    fn fold_block(&self, quads: &mut Vec<Quadrupel>, st0: &Vec<Constness>, global_table: &SymbolTable) -> (r: Vec<Constness>)
        requires
            code_ok(old(quads)@, self.vars@, *global_table, *global_table),
            st0@.len() == self.vars@.len(),
        ensures
            final(quads)@ == folded_code(old(quads)@, st0@, self.vars@, *global_table),
            r@ == folded_state(old(quads)@, st0@, self.vars@, *global_table),
    {
        let ghost c0 = quads@;
        let vars = &self.vars;
        let mut ref_params: Vec<bool> = Vec::new();
        let mut i: usize = 0;
        while i < quads.len()
            invariant
                quads@ == c0,
                code_ok(c0, vars@, *global_table, *global_table),
                0 <= i <= c0.len(),
                ref_params@.len() == i,
                forall|j: int| 0 <= j < i ==> #[trigger] ref_params@[j] == is_ref_param(c0, j, *global_table, *global_table),
            decreases c0.len() - i,
        {
            let r = quads[i].op == QuadrupelOp::Param
                && Quadrupel::find_param_declaration(quads.as_slice(), i, global_table, global_table).is_reference;
            ref_params.push(r);
            i = i + 1;
        }
        let mut const_state = st0.clone();
        proof {
            assert(const_state@ =~= st0@);
        }
        let mut k: usize = 0;
        while k < quads.len()
            invariant
                quads@.len() == c0.len(),
                vars@ == self.vars@,
                code_ok(c0, vars@, *global_table, *global_table),
                ref_params@.len() == c0.len(),
                forall|j: int| 0 <= j < c0.len() ==> #[trigger] ref_params@[j] == is_ref_param(c0, j, *global_table, *global_table),
                0 <= k <= c0.len(),
                quads@.take(k as int) == fold_prefix(c0, k as int, st0@, vars@, *global_table).0,
                forall|j: int| k <= j < c0.len() ==> #[trigger] quads@[j] == c0[j],
                const_state@ == fold_prefix(c0, k as int, st0@, vars@, *global_table).1,
                const_state@.len() == vars@.len(),
            decreases c0.len() - k,
        {
            let ghost prev = fold_prefix(c0, k as int, st0@, vars@, *global_table);
            proof {
                lemma_fold_step_ok(c0[k as int], prev.1, vars@, ref_params@[k as int]);
            }
            let op = quads[k].op;
            if op == QuadrupelOp::Call || (op == QuadrupelOp::Param && ref_params[k]) {
            } else {
                let a1 = self.fold_operand(&quads[k].arg1, &const_state);
                let a2 = self.fold_operand(&quads[k].arg2, &const_state);
                let q1 = Quadrupel { op, arg1: a1, arg2: a2, result: quads[k].result.clone() };
                let q2 = match q1.simplify() {
                    Some(x) => x,
                    None => Quadrupel::empty(),
                };
                Constness::from_quad(&q2, &mut const_state, vars, ref_params[k]);
                quads.set(k, q2);
            }
            proof {
                assert(quads@.take(k + 1) =~= prev.0.push(fold_step(c0[k as int], prev.1, vars@, ref_params@[k as int]).0));
            }
            k = k + 1;
        }
        proof {
            assert(quads@ =~= quads@.take(k as int));
        }
        Quadrupel::filter_empty(quads);
        const_state
    }
}

/// The states of two lists are equal.
fn same_states(a: &Vec<Constness>, b: &Vec<Constness>) -> (r: bool)
    ensures
        r == (a@ == b@),
{
    if a.len() != b.len() {
        return false;
    }
    let mut j: usize = 0;
    while j < a.len()
        invariant
            a@.len() == b@.len(),
            0 <= j <= a@.len(),
            forall|i: int| 0 <= i < j ==> a@[i] == b@[i],
        decreases a@.len() - j,
    {
        if a[j] != b[j] {
            return false;
        }
        j = j + 1;
    }
    proof {
        assert(a@ =~= b@);
    }
    true
}

impl BlockGraph {
    /// Folds constants in every block of code, each from its entry state in `const_prop`,
    /// and records each block's exit state there. Returns `Break` when no exit state
    /// changed, `Continue` otherwise.
    pub fn constant_folding(&mut self, const_prop: &mut ConstantPropagation, symbol_table: &SymbolTable) -> (r: core::ops::ControlFlow<()>)
        requires
            old(const_prop).ins@.len() == old(self).blocks@.len(),
            old(const_prop).out@.len() == old(self).blocks@.len(),
            forall|b: int| 0 <= b < old(self).blocks@.len() ==> (#[trigger] old(const_prop).ins@[b])@.len() == old(const_prop).vars@.len(),
            graph_code_ok(old(self).blocks@, old(const_prop).vars@, *symbol_table, *symbol_table),
        ensures
            final(self).blocks@.len() == old(self).blocks@.len(),
            final(self).edges == old(self).edges,
            final(self).label_to_id == old(self).label_to_id,
            final(self).sccs == old(self).sccs,
            final(const_prop).vars == old(const_prop).vars,
            final(const_prop).ins == old(const_prop).ins,
            final(const_prop).gens == old(const_prop).gens,
            final(const_prop).prsv == old(const_prop).prsv,
            final(const_prop).out@.len() == old(const_prop).out@.len(),
            forall|b: int| 0 <= b < final(self).blocks@.len() ==> (#[trigger] final(self).blocks@[b]).label == old(self).blocks@[b].label,
            forall|b: int| 0 <= b < final(self).blocks@.len() ==> match old(self).blocks@[b].content {
                BlockContent::Code(v) => {
                    &&& (#[trigger] final(self).blocks@[b]).content is Code
                    &&& block_code(final(self).blocks@[b]) == folded_code(v@, old(const_prop).ins@[b]@, old(const_prop).vars@, *symbol_table)
                    &&& final(const_prop).out@[b]@ == folded_state(v@, old(const_prop).ins@[b]@, old(const_prop).vars@, *symbol_table)
                },
                c => final(self).blocks@[b].content == c && final(const_prop).out@[b] == old(const_prop).out@[b],
            },
            (r is Break) <==> forall|b: int| 0 <= b < old(self).blocks@.len() && (#[trigger] old(self).blocks@[b]).content is Code
                ==> folded_state(block_code(old(self).blocks@[b]), old(const_prop).ins@[b]@, old(const_prop).vars@, *symbol_table) == old(const_prop).out@[b]@,
    {
        let ghost b0 = self.blocks@;
        let ghost cp0 = *const_prop;
        let mut stable = true;
        let mut b: usize = 0;
        while b < self.blocks.len()
            invariant
                0 <= b <= b0.len(),
                b0 == old(self).blocks@,
                cp0 == *old(const_prop),
                self.blocks@.len() == b0.len(),
                self.edges == old(self).edges,
                self.label_to_id == old(self).label_to_id,
                self.sccs == old(self).sccs,
                const_prop.vars == cp0.vars,
                const_prop.ins == cp0.ins,
                const_prop.gens == cp0.gens,
                const_prop.prsv == cp0.prsv,
                const_prop.out@.len() == cp0.out@.len(),
                cp0.ins@.len() == b0.len(),
                cp0.out@.len() == b0.len(),
                forall|j: int| 0 <= j < b0.len() ==> (#[trigger] cp0.ins@[j])@.len() == cp0.vars@.len(),
                graph_code_ok(b0, cp0.vars@, *symbol_table, *symbol_table),
                forall|j: int| 0 <= j < b0.len() ==> (#[trigger] self.blocks@[j]).label == b0[j].label,
                forall|j: int| b <= j < b0.len() ==> #[trigger] self.blocks@[j] == b0[j],
                forall|j: int| b <= j < b0.len() ==> #[trigger] const_prop.out@[j] == cp0.out@[j],
                forall|j: int| 0 <= j < b ==> match b0[j].content {
                    BlockContent::Code(v) => {
                        &&& (#[trigger] self.blocks@[j]).content is Code
                        &&& block_code(self.blocks@[j]) == folded_code(v@, cp0.ins@[j]@, cp0.vars@, *symbol_table)
                        &&& const_prop.out@[j]@ == folded_state(v@, cp0.ins@[j]@, cp0.vars@, *symbol_table)
                    },
                    c => self.blocks@[j].content == c && const_prop.out@[j] == cp0.out@[j],
                },
                stable <==> forall|j: int| 0 <= j < b && (#[trigger] b0[j]).content is Code
                    ==> folded_state(block_code(b0[j]), cp0.ins@[j]@, cp0.vars@, *symbol_table) == cp0.out@[j]@,
            decreases b0.len() - b,
        {
            let is_code = match &self.blocks[b].content {
                BlockContent::Code(_) => true,
                _ => false,
            };
            if is_code {
                proof {
                    assert(code_ok(block_code(b0[b as int]), cp0.vars@, *symbol_table, *symbol_table));
                }
                let mut blk = Block::new_start(None);
                std::mem::swap(&mut blk, &mut self.blocks[b]);
                let ghost taken = blk;
                let Block { label, content } = blk;
                let mut new_state: Vec<Constness> = Vec::new();
                let new_content = match content {
                    BlockContent::Code(mut code) => {
                        new_state = const_prop.fold_block(&mut code, &const_prop.ins[b], symbol_table);
                        BlockContent::Code(code)
                    },
                    other => other,
                };
                self.blocks.set(b, Block { label, content: new_content });
                if !same_states(&new_state, &const_prop.out[b]) {
                    stable = false;
                }
                const_prop.out.set(b, new_state);
                proof {
                    assert(taken == b0[b as int]);
                }
            }
            b = b + 1;
        }
        if stable {
            core::ops::ControlFlow::Break(())
        } else {
            core::ops::ControlFlow::Continue(())
        }
    }
}

impl crate::worklist::GetVarIdx<QuadrupelVar> for ConstantPropagation {
    open spec fn var_list(&self) -> Seq<QuadrupelVar> {
        self.vars@
    }

    fn vars(&self) -> (r: &[QuadrupelVar]) {
        self.vars.as_slice()
    }
}

impl crate::worklist::Worklist for ConstantPropagation {
    type Lattice = Vec<Constness>;

    const EDGE_DIRECTION: crate::worklist::EdgeDirection = crate::worklist::EdgeDirection::Forward;

    open spec fn runnable(graph: BlockGraph, local_table: SymbolTable, global_table: SymbolTable) -> bool {
        &&& defs_ok(graph.blocks@, local_table, global_table)
        &&& graph_code_ok(graph.blocks@, unique_vars(graph_defs(graph.blocks@, graph.blocks@.len() as int, local_table, global_table),
            graph_defs(graph.blocks@, graph.blocks@.len() as int, local_table, global_table).len() as int), global_table, global_table)
    }

    fn run(graph: &BlockGraph, local_table: &SymbolTable, global_table: &SymbolTable) -> (r: ConstantPropagation)
        ensures
            r.vars@ == unique_vars(graph_defs(graph.blocks@, graph.blocks@.len() as int, *local_table, *global_table),
                graph_defs(graph.blocks@, graph.blocks@.len() as int, *local_table, *global_table).len() as int),
            r.ins@.len() == graph.blocks@.len(),
            forall|b: int| 0 <= b < graph.blocks@.len() ==> (#[trigger] r.gens@[b])@ == gen_of_block(graph.blocks@[b], r.vars@, *global_table, *global_table),
            forall|b: int| 0 <= b < graph.blocks@.len() ==> (#[trigger] r.prsv@[b])@ == prsv_of_gen(r.gens@[b]@),
    {
        ConstantPropagation::run(graph, local_table, global_table)
    }
}

/// The facts `st` hold in the frames and cells: every analysed variable they call a
/// constant holds that integer.
pub open spec fn facts_hold(st: Seq<Constness>, vars: Seq<QuadrupelVar>, frames: Seq<crate::env::Frame>, cells: Seq<crate::value::Value>) -> bool {
    forall|v: QuadrupelVar| #[trigger] index_of_var(vars, v) is Some
        && st[index_of_var(vars, v)->0 as int] is Constant
        ==> crate::tac_interp::operand_value(QuadrupelArg::Var(v), frames, cells)
            == Some(crate::value::ValueView::Int(st[index_of_var(vars, v)->0 as int]->Constant_0))
}

/// Constant folding keeps what a quadruple computes: where the facts hold and the
/// quadruple computes a value from its operands, the folded quadruple writes the same
/// variable and computes the same value.
pub proof fn law_folding_keeps_value(q: Quadrupel, st: Seq<Constness>, vars: Seq<QuadrupelVar>, is_ref: bool,
    frames: Seq<crate::env::Frame>, cells: Seq<crate::value::Value>)
    requires
        quad_vars_known(q, vars),
        st.len() == vars.len(),
        facts_hold(st, vars, frames, cells),
        crate::tac_interp::written_value(q.op, crate::tac_interp::operand_value(q.arg1, frames, cells),
            crate::tac_interp::operand_value(q.arg2, frames, cells)) matches Some(Ok(_)),
    ensures
        ({
            let q2 = fold_step(q, st, vars, is_ref).0;
            &&& q2.result == q.result
            &&& crate::tac_interp::written_value(q2.op, crate::tac_interp::operand_value(q2.arg1, frames, cells),
                crate::tac_interp::operand_value(q2.arg2, frames, cells))
                == crate::tac_interp::written_value(q.op, crate::tac_interp::operand_value(q.arg1, frames, cells),
                    crate::tac_interp::operand_value(q.arg2, frames, cells))
        }),
{
    if !(q.op == QuadrupelOp::Call || (q.op == QuadrupelOp::Param && is_ref)) {
        let q1 = Quadrupel { op: q.op, arg1: fold_arg(q.arg1, st, vars), arg2: fold_arg(q.arg2, st, vars), result: q.result };
        lemma_fold_arg_value(q.arg1, st, vars, frames, cells);
        lemma_fold_arg_value(q.arg2, st, vars, frames, cells);
        crate::tac_interp::law_simplify_keeps_value(q1, frames, cells);
    }
}

proof fn lemma_fold_arg_value(a: QuadrupelArg, st: Seq<Constness>, vars: Seq<QuadrupelVar>,
    frames: Seq<crate::env::Frame>, cells: Seq<crate::value::Value>)
    requires
        a is Var ==> has_var(vars, a->Var_0),
        st.len() == vars.len(),
        facts_hold(st, vars, frames, cells),
    ensures
        crate::tac_interp::operand_value(fold_arg(a, st, vars), frames, cells)
            == crate::tac_interp::operand_value(a, frames, cells) || crate::tac_interp::operand_value(a, frames, cells) is None,
        crate::tac_interp::operand_value(a, frames, cells) is Some
            ==> crate::tac_interp::operand_value(fold_arg(a, st, vars), frames, cells) == crate::tac_interp::operand_value(a, frames, cells),
{
    if let QuadrupelArg::Var(v) = a {
        crate::live::lemma_has_var_index(vars, v);
        lemma_index_of_var_bound(vars, v);
        assert(index_of_var(vars, v) is Some);
    }
}

/// What constant propagation records for a written variable is what the quadruple writes:
/// where the facts hold and it records a constant, the quadruple computes that integer.
pub proof fn law_recorded_constant_is_written(q: Quadrupel, st: Seq<Constness>, vars: Seq<QuadrupelVar>,
    frames: Seq<crate::env::Frame>, cells: Seq<crate::value::Value>)
    requires
        quad_vars_known(q, vars),
        st.len() == vars.len(),
        facts_hold(st, vars, frames, cells),
    ensures
        written_constness(q.op, arg_constness(q.arg1, st, vars), arg_constness(q.arg2, st, vars), q.result) matches Constness::Constant(c)
            ==> crate::tac_interp::written_value(q.op, crate::tac_interp::operand_value(q.arg1, frames, cells),
                crate::tac_interp::operand_value(q.arg2, frames, cells)) == Some(Ok::<crate::value::ValueView, ()>(crate::value::ValueView::Int(c))),
{
    if let QuadrupelArg::Var(v) = q.arg1 {
        crate::live::lemma_has_var_index(vars, v);
        lemma_index_of_var_bound(vars, v);
    }
    if let QuadrupelArg::Var(v) = q.arg2 {
        crate::live::lemma_has_var_index(vars, v);
        lemma_index_of_var_bound(vars, v);
    }
    let c1 = arg_constness(q.arg1, st, vars);
    let c2 = arg_constness(q.arg2, st, vars);
    if let (Constness::Constant(a), Constness::Constant(b)) = (c1, c2) {
        crate::value::law_arith_is_integer_arithmetic(a, b);
        crate::quadrupel::law_fold_is_arithmetic(a, b, q.result);
    }
}

} // verus!
