//! Live variables: which variables may be read before they are written again.
use vstd::prelude::*;
use crate::bits::{Bits, bits_from_vec, bits_of};
use crate::blocks::{Block, BlockContent, BlockGraph, block_code};
use crate::quadrupel::{Quadrupel, QuadrupelArg, QuadrupelResult, QuadrupelVar, same_var};
use crate::reaching::{is_prev, node_order};
use crate::table::SymbolTable;
use crate::worklist::{Definition, defs_ok, graph_defs, is_fixpoint, is_least, solve, views};

verus! {

/// The variable is among `vars`.
pub open spec fn has_var(vars: Seq<QuadrupelVar>, v: QuadrupelVar) -> bool {
    exists|j: int| 0 <= j < vars.len() && #[trigger] same_var(vars[j], v)
}

/// The variables of the first `k` definitions, each once, in the order they first occur.
pub open spec fn unique_vars(defs: Seq<Definition>, k: int) -> Seq<QuadrupelVar>
    decreases k,
{
    if k <= 0 {
        Seq::empty()
    } else {
        let vs = unique_vars(defs, k - 1);
        if has_var(vs, defs[k - 1].var) {
            vs
        } else {
            vs.push(defs[k - 1].var)
        }
    }
}

/// For each variable, whether block `b` defines it.
pub open spec fn def_of(defs: Seq<Definition>, vars: Seq<QuadrupelVar>, b: int) -> Seq<bool> {
    Seq::new(vars.len(), |j: int| exists|i: int| 0 <= i < defs.len() && defs[i].block_id == b && #[trigger] same_var(defs[i].var, vars[j]))
}

/// The assignments of a block: each position whose quadruple writes a variable, with it.
pub open spec fn assigns_of(code: Seq<Quadrupel>, k: int) -> Seq<(usize, QuadrupelVar)>
    decreases k,
{
    if k <= 0 {
        Seq::empty()
    } else {
        assigns_of(code, k - 1) + match code[k - 1].result {
            QuadrupelResult::Var(v) => seq![((k - 1) as usize, v)],
            _ => Seq::empty(),
        }
    }
}

/// The position of the first assignment to a variable, if any.
pub open spec fn first_assign(a: Seq<(usize, QuadrupelVar)>, v: QuadrupelVar) -> Option<usize>
    decreases a.len(),
{
    if a.len() == 0 {
        None
    } else if same_var(a[0].1, v) {
        Some(a[0].0)
    } else {
        first_assign(a.drop_first(), v)
    }
}

/// Quadruple `i` reads `v` through one of its operands.
pub open spec fn reads(q: Quadrupel, v: QuadrupelVar) -> bool {
    (q.arg1 matches QuadrupelArg::Var(x) && same_var(x, v)) || (q.arg2 matches QuadrupelArg::Var(y) && same_var(y, v))
}

/// Whether a block of code reads `v` before (re)assigning it: at a position up to and
/// including that of its first assignment in the block (a quadruple reads its operands
/// before it writes its result).
pub open spec fn used_before_assigned(code: Seq<Quadrupel>, v: QuadrupelVar) -> bool {
    exists|i: int| 0 <= i < code.len() && #[trigger] reads(code[i], v) && match first_assign(assigns_of(code, code.len() as int), v) {
        None => true,
        Some(a) => a >= i,
    }
}

/// For each variable, whether the block uses it before assigning it.
pub open spec fn use_of(b: Block, vars: Seq<QuadrupelVar>) -> Seq<bool> {
    Seq::new(vars.len(), |j: int| b.content is Code && used_before_assigned(block_code(b), vars[j]))
}

/// The position of the first variable of `vars` that is `v`.
pub open spec fn index_of_var(vars: Seq<QuadrupelVar>, v: QuadrupelVar) -> Option<usize>
    decreases vars.len(),
{
    if vars.len() == 0 {
        None
    } else if same_var(vars.last(), v) && !has_var(vars.drop_last(), v) {
        Some((vars.len() - 1) as usize)
    } else {
        index_of_var(vars.drop_last(), v)
    }
}

/// The position of `var` in `vars`, if it occurs.
pub fn var_index(vars: &Vec<QuadrupelVar>, var: &QuadrupelVar) -> (r: Option<usize>)
    ensures
        r == index_of_var(vars@, *var),
        r is Some <==> has_var(vars@, *var),
        r is Some ==> r->0 < vars@.len() && same_var(vars@[r->0 as int], *var),
{
    let mut i: usize = 0;
    while i < vars.len()
        invariant
            0 <= i <= vars@.len(),
            !has_var(vars@.take(i as int), *var),
        decreases vars@.len() - i,
    {
        proof {
            assert(vars@.take(i + 1).drop_last() =~= vars@.take(i as int));
        }
        if vars[i].equals(var) {
            proof {
                lemma_index_of_var_prefix(vars@, i as int + 1, *var);
                assert(vars@.take(i + 1).last() == vars@[i as int]);
            }
            return Some(i);
        }
        proof {
            assert forall|j: int| 0 <= j < i + 1 implies !same_var(#[trigger] vars@.take(i + 1)[j], *var) by {
                if j < i {
                    assert(vars@.take(i + 1)[j] == vars@.take(i as int)[j]);
                }
            }
        }
        i = i + 1;
    }
    proof {
        assert(vars@.take(i as int) =~= vars@);
        lemma_index_of_var_none(vars@, *var);
    }
    None
}

/// A position found for a variable lies in the list.
pub proof fn lemma_index_of_var_bound(vars: Seq<QuadrupelVar>, v: QuadrupelVar)
    ensures
        index_of_var(vars, v) is Some ==> index_of_var(vars, v)->0 < vars.len(),
    decreases vars.len(),
{
    if vars.len() > 0 {
        lemma_index_of_var_bound(vars.drop_last(), v);
    }
}

/// A variable that occurs has a position.
pub proof fn lemma_has_var_index(vars: Seq<QuadrupelVar>, v: QuadrupelVar)
    ensures
        has_var(vars, v) ==> index_of_var(vars, v) is Some,
    decreases vars.len(),
{
    if vars.len() > 0 && has_var(vars, v) {
        if !(same_var(vars.last(), v) && !has_var(vars.drop_last(), v)) {
            if !has_var(vars.drop_last(), v) {
                let j = choose|j: int| 0 <= j < vars.len() && #[trigger] same_var(vars[j], v);
                if j < vars.len() - 1 {
                    assert(vars.drop_last()[j] == vars[j]);
                }
            }
            lemma_has_var_index(vars.drop_last(), v);
        }
    }
}

proof fn lemma_index_of_var_none(vars: Seq<QuadrupelVar>, v: QuadrupelVar)
    requires
        !has_var(vars, v),
    ensures
        index_of_var(vars, v) is None,
    decreases vars.len(),
{
    if vars.len() > 0 {
        assert(!same_var(vars[vars.len() - 1], v));
        assert forall|j: int| 0 <= j < vars.len() - 1 implies !same_var(#[trigger] vars.drop_last()[j], v) by {
            assert(vars.drop_last()[j] == vars[j]);
        }
        lemma_index_of_var_none(vars.drop_last(), v);
    }
}

proof fn lemma_index_of_var_prefix(vars: Seq<QuadrupelVar>, k: int, v: QuadrupelVar)
    requires
        0 < k <= vars.len(),
        same_var(vars[k - 1], v),
        !has_var(vars.take(k - 1), v),
    ensures
        index_of_var(vars, v) == Some((k - 1) as usize),
    decreases vars.len(),
{
    if k < vars.len() {
        assert(has_var(vars.drop_last(), v)) by {
            assert(vars.drop_last()[k - 1] == vars[k - 1]);
        }
        assert(vars.drop_last().take(k - 1) =~= vars.take(k - 1));
        lemma_index_of_var_prefix(vars.drop_last(), k, v);
    } else {
        assert(vars.drop_last() =~= vars.take(k - 1));
    }
}

impl Block {
    /// The assignments of the block: each position of a quadruple that writes a variable,
    /// with that variable, in order.
    pub fn assignments_in_block(&self) -> (r: Vec<(usize, QuadrupelVar)>)
        ensures
            r@ == assigns_of(block_code(*self), block_code(*self).len() as int),
    {
        let mut out: Vec<(usize, QuadrupelVar)> = Vec::new();
        match &self.content {
            BlockContent::Code(quads) => {
                let mut i: usize = 0;
                while i < quads.len()
                    invariant
                        0 <= i <= quads@.len(),
                        block_code(*self) == quads@,
                        out@ == assigns_of(quads@, i as int),
                    decreases quads@.len() - i,
                {
                    match &quads[i].result {
                        QuadrupelResult::Var(v) => {
                            out.push((i, v.clone()));
                        },
                        _ => {},
                    }
                    proof {
                        assert(out@ =~= assigns_of(quads@, i + 1));
                    }
                    i = i + 1;
                }
            },
            _ => {},
        }
        out
    }
}


/// The position of the first assignment to `v`.
pub fn find_first_assign(a: &Vec<(usize, QuadrupelVar)>, v: &QuadrupelVar) -> (r: Option<usize>)
    ensures
        r == first_assign(a@, *v),
{
    let mut i: usize = 0;
    proof {
        assert(a@.skip(0) =~= a@);
    }
    while i < a.len()
        invariant
            0 <= i <= a@.len(),
            first_assign(a@, *v) == first_assign(a@.skip(i as int), *v),
        decreases a@.len() - i,
    {
        proof {
            assert(a@.skip(i as int).drop_first() =~= a@.skip(i + 1));
            assert(a@.skip(i as int)[0] == a@[i as int]);
        }
        if a[i].1.equals(v) {
            return Some(a[i].0);
        }
        i = i + 1;
    }
    proof {
        assert(a@.skip(i as int) =~= Seq::<(usize, QuadrupelVar)>::empty());
    }
    None
}

/// Whether quadruple `q` reads `v`.
pub fn quad_reads(q: &Quadrupel, v: &QuadrupelVar) -> (r: bool)
    ensures
        r == reads(*q, *v),
{
    let a = match &q.arg1 {
        QuadrupelArg::Var(x) => x.equals(v),
        _ => false,
    };
    let b = match &q.arg2 {
        QuadrupelArg::Var(y) => y.equals(v),
        _ => false,
    };
    a || b
}

/// The variables of the first `k + 1` definitions are those of the first `k`, and the
/// `k`-th unless it is already there.
proof fn lemma_unique_vars_step(defs: Seq<Definition>, k: int)
    requires
        0 <= k < defs.len(),
    ensures
        unique_vars(defs, k + 1) == if has_var(unique_vars(defs, k), defs[k].var) {
            unique_vars(defs, k)
        } else {
            unique_vars(defs, k).push(defs[k].var)
        },
{
}

impl Block {
    /// For each variable of `unique_defs`, whether the block reads it before assigning it.
    pub fn get_liv_use(&self, unique_defs: &Vec<QuadrupelVar>) -> (r: Bits)
        ensures
            bits_of(r) == use_of(*self, unique_defs@),
    {
        let assignments = self.assignments_in_block();
        let mut v: Vec<bool> = Vec::new();
        let mut k: usize = 0;
        while k < unique_defs.len()
            invariant
                0 <= k <= unique_defs@.len(),
                assignments@ == assigns_of(block_code(*self), block_code(*self).len() as int),
                v@ == use_of(*self, unique_defs@).take(k as int),
            decreases unique_defs@.len() - k,
        {
            let var = &unique_defs[k];
            let fa = find_first_assign(&assignments, var);
            let mut used = false;
            match &self.content {
                BlockContent::Code(quads) => {
                    let mut i: usize = 0;
                    while i < quads.len()
                        invariant
                            0 <= i <= quads@.len(),
                            block_code(*self) == quads@,
                            fa == first_assign(assigns_of(quads@, quads@.len() as int), *var),
                            used == exists|j: int| 0 <= j < i && #[trigger] reads(quads@[j], *var) && match fa {
                                None => true,
                                Some(a) => a >= j,
                            },
                        decreases quads@.len() - i,
                    {
                        if quad_reads(&quads[i], var) {
                            match fa {
                                None => {
                                    used = true;
                                },
                                Some(a) => {
                                    if a >= i {
                                        used = true;
                                    }
                                },
                            }
                        }
                        i = i + 1;
                    }
                },
                _ => {},
            }
            v.push(used);
            proof {
                assert(use_of(*self, unique_defs@).take(k + 1) =~= use_of(*self, unique_defs@).take(k as int).push(used));
            }
            k = k + 1;
        }
        proof {
            assert(use_of(*self, unique_defs@).take(k as int) =~= use_of(*self, unique_defs@));
        }
        bits_from_vec(unique_defs.len(), &v)
    }

    /// For each variable of `unique_defs`, whether one of the definitions made in block
    /// `block_id` defines it.
    pub fn defs_in_block_2(block_id: usize, defs_in_proc: &Vec<Definition>, unique_defs: &Vec<QuadrupelVar>) -> (r: Bits)
        ensures
            bits_of(r) == def_of(defs_in_proc@, unique_defs@, block_id as int),
    {
        let mut v: Vec<bool> = Vec::new();
        let mut k: usize = 0;
        while k < unique_defs.len()
            invariant
                0 <= k <= unique_defs@.len(),
                v@ == def_of(defs_in_proc@, unique_defs@, block_id as int).take(k as int),
            decreases unique_defs@.len() - k,
        {
            let mut found = false;
            let mut i: usize = 0;
            while i < defs_in_proc.len()
                invariant
                    0 <= i <= defs_in_proc@.len(),
                    0 <= k < unique_defs@.len(),
                    found == exists|j: int| 0 <= j < i && defs_in_proc@[j].block_id == block_id
                        && #[trigger] same_var(defs_in_proc@[j].var, unique_defs@[k as int]),
                decreases defs_in_proc@.len() - i,
            {
                if defs_in_proc[i].block_id == block_id && defs_in_proc[i].var.equals(&unique_defs[k]) {
                    found = true;
                }
                i = i + 1;
            }
            v.push(found);
            proof {
                assert(def_of(defs_in_proc@, unique_defs@, block_id as int).take(k + 1)
                    =~= def_of(defs_in_proc@, unique_defs@, block_id as int).take(k as int).push(found));
            }
            k = k + 1;
        }
        proof {
            assert(def_of(defs_in_proc@, unique_defs@, block_id as int).take(k as int) =~= def_of(defs_in_proc@, unique_defs@, block_id as int));
        }
        bits_from_vec(unique_defs.len(), &v)
    }
}

/// The variables of the definitions, each once, in the order they first occur.
pub fn collect_vars(defs: &Vec<Definition>) -> (r: Vec<QuadrupelVar>)
    ensures
        r@ == unique_vars(defs@, defs@.len() as int),
{
    let mut vars: Vec<QuadrupelVar> = Vec::new();
    let mut i: usize = 0;
    while i < defs.len()
        invariant
            0 <= i <= defs@.len(),
            vars@ == unique_vars(defs@, i as int),
        decreases defs@.len() - i,
    {
        proof {
            lemma_unique_vars_step(defs@, i as int);
        }
        match var_index(&vars, &defs[i].var) {
            Some(_) => {},
            None => {
                vars.push(defs[i].var.clone());
            },
        }
        i = i + 1;
    }
    vars
}

/// The result of the live-variables analysis of one procedure.
pub struct LiveVariables {
    pub vars: Vec<QuadrupelVar>,
    pub def: Vec<Bits>,
    pub use_bits: Vec<Bits>,
    pub livin: Vec<Bits>,
    pub livout: Vec<Bits>,
}

impl LiveVariables {
    /// Runs the analysis: collects the defined variables, computes for each block the ones
    /// it defines and the ones it uses before assigning, and solves the backward equations
    /// `livin[b] = (livout[b] & !def[b]) | use[b]` and `livout[b] ⊇ livin[s]` for every
    /// successor `s` of `b`: the result is their least solution.
    pub fn run(graph: &BlockGraph, local_table: &SymbolTable, global_table: &SymbolTable) -> (r: LiveVariables)
        requires
            graph.wf(),
            defs_ok(graph.blocks@, *local_table, *global_table),
        ensures
            r.vars@ == unique_vars(graph_defs(graph.blocks@, graph.blocks@.len() as int, *local_table, *global_table),
                graph_defs(graph.blocks@, graph.blocks@.len() as int, *local_table, *global_table).len() as int),
            r.def@.len() == graph.blocks@.len(),
            r.use_bits@.len() == graph.blocks@.len(),
            r.livin@.len() == graph.blocks@.len(),
            r.livout@.len() == graph.blocks@.len(),
            forall|b: int| 0 <= b < graph.blocks@.len() ==> bits_of(#[trigger] r.def@[b])
                == def_of(graph_defs(graph.blocks@, graph.blocks@.len() as int, *local_table, *global_table), r.vars@, b),
            forall|b: int| 0 <= b < graph.blocks@.len() ==> bits_of(#[trigger] r.use_bits@[b]) == use_of(graph.blocks@[b], r.vars@),
            forall|b: int| 0 <= b < graph.blocks@.len() ==> bits_of(#[trigger] r.livin@[b]).len() == r.vars@.len(),
            forall|b: int| 0 <= b < graph.blocks@.len() ==> bits_of(#[trigger] r.livout@[b]).len() == r.vars@.len(),
            is_fixpoint(graph.edges@.map_values(|v: Vec<usize>| v@), views(r.use_bits@), views(r.def@), true, views(r.livout@), views(r.livin@)),
            is_least(graph.edges@.map_values(|v: Vec<usize>| v@), views(r.use_bits@), views(r.def@), true, r.vars@.len(), views(r.livout@), views(r.livin@)),
    {
        let defs_in_proc = graph.definitions(local_table, global_table);
        let vars = collect_vars(&defs_in_proc);
        let mut def: Vec<Bits> = Vec::new();
        let mut use_bits: Vec<Bits> = Vec::new();
        let mut b: usize = 0;
        while b < graph.blocks.len()
            invariant
                0 <= b <= graph.blocks@.len(),
                def@.len() == b,
                use_bits@.len() == b,
                forall|j: int| 0 <= j < b ==> bits_of(#[trigger] def@[j]) == def_of(defs_in_proc@, vars@, j),
                forall|j: int| 0 <= j < b ==> bits_of(#[trigger] use_bits@[j]) == use_of(graph.blocks@[j], vars@),
            decreases graph.blocks@.len() - b,
        {
            def.push(Block::defs_in_block_2(b, &defs_in_proc, &vars));
            use_bits.push(graph.blocks[b].get_liv_use(&vars));
            b = b + 1;
        }
        let prev = graph.edges_prev();
        let order = node_order(graph.blocks.len(), true);
        proof {
            assert forall|n: int, k: int| 0 <= n < graph.edges@.len() && 0 <= k < graph.edges@[n]@.len()
                implies prev@[#[trigger] graph.edges@[n]@[k] as int]@.contains(n as usize) by {
                assert(graph.edges@[n]@.contains(graph.edges@[n]@[k]));
            }
        }
        let (livout, livin) = solve(&graph.edges, &prev, order, &use_bits, &def, true, vars.len());
        LiveVariables { vars, def, use_bits, livin, livout }
    }

    /// The position of `var` among the analysed variables.
    pub fn get_var_idx(&self, var: &QuadrupelVar) -> (r: Option<usize>)
        ensures
            r == index_of_var(self.vars@, *var),
            r is Some <==> has_var(self.vars@, *var),
            r is Some ==> r->0 < self.vars@.len(),
    {
        var_index(&self.vars, var)
    }
}

impl crate::worklist::GetVarIdx<QuadrupelVar> for LiveVariables {
    open spec fn var_list(&self) -> Seq<QuadrupelVar> {
        self.vars@
    }

    fn vars(&self) -> (r: &[QuadrupelVar]) {
        self.vars.as_slice()
    }
}

impl crate::worklist::Worklist for LiveVariables {
    type Lattice = Bits;

    const EDGE_DIRECTION: crate::worklist::EdgeDirection = crate::worklist::EdgeDirection::Backward;

    open spec fn runnable(graph: BlockGraph, local_table: SymbolTable, global_table: SymbolTable) -> bool {
        defs_ok(graph.blocks@, local_table, global_table)
    }

    fn run(graph: &BlockGraph, local_table: &SymbolTable, global_table: &SymbolTable) -> (r: LiveVariables)
        ensures
            r.vars@ == unique_vars(graph_defs(graph.blocks@, graph.blocks@.len() as int, *local_table, *global_table),
                graph_defs(graph.blocks@, graph.blocks@.len() as int, *local_table, *global_table).len() as int),
            r.livin@.len() == graph.blocks@.len(),
            is_fixpoint(graph.edges@.map_values(|v: Vec<usize>| v@), views(r.use_bits@), views(r.def@), true, views(r.livout@), views(r.livin@)),
            is_least(graph.edges@.map_values(|v: Vec<usize>| v@), views(r.use_bits@), views(r.def@), true, r.vars@.len(), views(r.livout@), views(r.livin@)),
    {
        LiveVariables::run(graph, local_table, global_table)
    }
}

/// A block uses a variable its first quadruple reads, through either operand, and does
/// not use a variable that none of its quadruples reads.
pub proof fn law_block_uses(code: Seq<Quadrupel>, v: QuadrupelVar)
    ensures
        (code.len() > 0 && ((code[0].arg1 is Var && same_var(code[0].arg1->Var_0, v))
            || (code[0].arg2 is Var && same_var(code[0].arg2->Var_0, v)))) ==> used_before_assigned(code, v),
        (forall|i: int| 0 <= i < code.len() ==> !(code[i].arg1 is Var && same_var(#[trigger] code[i].arg1->Var_0, v))
            && !(code[i].arg2 is Var && same_var(code[i].arg2->Var_0, v))) ==> !used_before_assigned(code, v),
{
    if code.len() > 0 && ((code[0].arg1 is Var && same_var(code[0].arg1->Var_0, v))
        || (code[0].arg2 is Var && same_var(code[0].arg2->Var_0, v))) {
        assert(reads(code[0], v));
    }
    if forall|i: int| 0 <= i < code.len() ==> !(code[i].arg1 is Var && same_var(#[trigger] code[i].arg1->Var_0, v))
        && !(code[i].arg2 is Var && same_var(code[i].arg2->Var_0, v)) {
        assert forall|i: int| 0 <= i < code.len() implies !#[trigger] reads(code[i], v) by {
            assert(!(code[i].arg1 is Var && same_var(code[i].arg1->Var_0, v)));
        }
    }
}

} // verus!
