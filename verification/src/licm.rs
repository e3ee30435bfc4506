//! Loop-invariant code motion: quadruples of a loop whose operands are not defined inside
//! the loop move to a new block placed in front of the loop's first block.
use vstd::prelude::*;
use crate::bits::bits_of;
use crate::blocks::{Block, BlockContent, BlockGraph, block_code, opt_str, last_labelled, lookup_label, lemma_last_labelled_same};
use crate::quadrupel::{Quadrupel, QuadrupelArg, QuadrupelResult, QuadrupelVar, same_var, same_quad, same_arg, same_result};
use crate::reaching::{ReachingDefinitions, gen_of, prsv_of, is_prev, vec_contains};
use crate::table::SymbolTable;
use crate::tarjan::{Scc, sccs_nested, scc_shape, mutual, pair_recorded};
use crate::text::{nat_to_decimal, spec_decimal};
use crate::worklist::{Definition, defs_ok, graph_defs, block_defs, is_fixpoint, is_least, views};

verus! {

/// The variable an operand reads, if any.
pub open spec fn arg_var(a: QuadrupelArg) -> Option<QuadrupelVar> {
    match a {
        QuadrupelArg::Var(v) => Some(v),
        _ => None,
    }
}

/// No definition of `var` made inside the loop `nodes` reaches the loop's first block.
pub open spec fn var_invariant(var: Option<QuadrupelVar>, nodes: Seq<usize>, rchin: Seq<bool>, defs: Seq<Definition>) -> bool {
    match var {
        None => true,
        Some(v) => forall|i: int| 0 <= i < rchin.len() && #[trigger] rchin[i]
            ==> !(same_var(defs[i].var, v) && nodes.contains(defs[i].block_id)),
    }
}

/// A quadruple that writes a variable from loop-invariant operands.
pub open spec fn hoistable(q: Quadrupel, nodes: Seq<usize>, rchin: Seq<bool>, defs: Seq<Definition>) -> bool {
    &&& var_invariant(arg_var(q.arg1), nodes, rchin, defs)
    &&& var_invariant(arg_var(q.arg2), nodes, rchin, defs)
    &&& q.result is Var
}

/// The hoistable quadruples of `code`, in order.
pub open spec fn hoisted_of(code: Seq<Quadrupel>, nodes: Seq<usize>, rchin: Seq<bool>, defs: Seq<Definition>) -> Seq<Quadrupel>
    decreases code.len(),
{
    if code.len() == 0 {
        Seq::empty()
    } else {
        hoisted_of(code.drop_last(), nodes, rchin, defs) + if hoistable(code.last(), nodes, rchin, defs) {
            seq![code.last()]
        } else {
            Seq::empty()
        }
    }
}

/// The other quadruples of `code`, in order.
pub open spec fn kept_of(code: Seq<Quadrupel>, nodes: Seq<usize>, rchin: Seq<bool>, defs: Seq<Definition>) -> Seq<Quadrupel>
    decreases code.len(),
{
    if code.len() == 0 {
        Seq::empty()
    } else {
        kept_of(code.drop_last(), nodes, rchin, defs) + if hoistable(code.last(), nodes, rchin, defs) {
            Seq::empty()
        } else {
            seq![code.last()]
        }
    }
}

/// The hoistable quadruples of the first `k` blocks of the loop, block by block.
pub open spec fn hoisted_all(blocks: Seq<Block>, nodes: Seq<usize>, k: int, rchin: Seq<bool>, defs: Seq<Definition>) -> Seq<Quadrupel>
    decreases k,
{
    if k <= 0 {
        Seq::empty()
    } else {
        hoisted_all(blocks, nodes, k - 1, rchin, defs) + hoisted_of(block_code(blocks[nodes[k - 1] as int]), nodes, rchin, defs)
    }
}

/// The label of the `n`-th block this pass creates.
pub open spec fn preheader_label(n: nat) -> Seq<char> {
    seq!['n'] + spec_decimal(n)
}

/// Whether the ids are distinct and name blocks of a graph with `n` blocks.
pub open spec fn nodes_ok(nodes: Seq<usize>, n: int) -> bool {
    &&& nodes.len() > 0
    &&& nodes.no_duplicates()
    &&& forall|j: int| 0 <= j < nodes.len() ==> (#[trigger] nodes[j]) < n
}

/// `rin` and `rout` solve the reaching-definitions equations of a graph of `n` blocks
/// whose predecessor lists are `prev`, over the definitions `defs`, and are the least
/// solution: each block's input gathers the outputs of its predecessors, and its output
/// keeps what the block does not redefine and adds what it defines.
pub open spec fn reaching_solution(prev: Seq<Vec<usize>>, n: nat, defs: Seq<Definition>, rin: Seq<Seq<bool>>, rout: Seq<Seq<bool>>) -> bool {
    let into = prev.map_values(|v: Vec<usize>| v@);
    let gen = Seq::new(n, |b: int| gen_of(defs, b));
    let prsv = Seq::new(n, |b: int| prsv_of(defs, gen_of(defs, b)));
    &&& is_fixpoint(into, gen, prsv, false, rin, rout)
    &&& is_least(into, gen, prsv, false, defs.len(), rin, rout)
}

/// `rin` gives, for each of the `n` blocks of a graph with successor lists `edges`, the
/// definitions that reach its start.
pub open spec fn is_reaching_in(edges: Seq<Vec<usize>>, n: nat, defs: Seq<Definition>, rin: Seq<Seq<bool>>) -> bool {
    &&& rin.len() == n
    &&& exists|prev: Seq<Vec<usize>>, rout: Seq<Seq<bool>>| is_prev(edges, prev) && #[trigger] reaching_solution(prev, n, defs, rin, rout)
}

/// No quadruple of the blocks of the loop `nodes` can be hoisted, judged by the
/// definitions that reach the loop's first block.
pub open spec fn loop_settled(blocks: Seq<Block>, edges: Seq<Vec<usize>>, nodes: Seq<usize>, local: SymbolTable, global: SymbolTable) -> bool {
    let defs = graph_defs(blocks, blocks.len() as int, local, global);
    exists|rin: Seq<Seq<bool>>| #[trigger] is_reaching_in(edges, blocks.len(), defs, rin)
        && forall|j: int, i: int| 0 <= j < nodes.len() && 0 <= i < block_code(blocks[nodes[j] as int]).len()
            ==> !hoistable(#[trigger] block_code(blocks[nodes[j] as int])[i], nodes, rin[nodes[0] as int], defs)
}

/// The blocks carry the same labels and the same code.
pub open spec fn same_code(a: Seq<Block>, b: Seq<Block>) -> bool {
    &&& a.len() == b.len()
    &&& forall|k: int| 0 <= k < a.len() ==> (#[trigger] b[k]).label == a[k].label
        && (b[k].content == a[k].content
            || (a[k].content is Code && b[k].content is Code && block_code(b[k]) == block_code(a[k])))
}

proof fn lemma_same_code_trans(a: Seq<Block>, b: Seq<Block>, c: Seq<Block>)
    requires
        same_code(a, b),
        same_code(b, c),
    ensures
        same_code(a, c),
{
    assert forall|k: int| 0 <= k < a.len() implies (#[trigger] c[k]).label == a[k].label
        && (c[k].content == a[k].content
            || (a[k].content is Code && c[k].content is Code && block_code(c[k]) == block_code(a[k]))) by {
        assert(b[k].label == a[k].label);
        assert(c[k].label == b[k].label);
    }
}

proof fn lemma_same_code_defs(a: Seq<Block>, b: Seq<Block>, k: int, local: SymbolTable, global: SymbolTable)
    requires
        same_code(a, b),
        0 <= k <= a.len(),
    ensures
        graph_defs(a, k, local, global) == graph_defs(b, k, local, global),
    decreases k,
{
    if k > 0 {
        lemma_same_code_defs(a, b, k - 1, local, global);
        assert(b[k - 1].label == a[k - 1].label);
        assert(block_defs((k - 1) as usize, a[k - 1], local, global) == block_defs((k - 1) as usize, b[k - 1], local, global));
    }
}

proof fn lemma_same_code_defs_ok(a: Seq<Block>, b: Seq<Block>, local: SymbolTable, global: SymbolTable)
    requires
        same_code(a, b),
        defs_ok(a, local, global),
    ensures
        defs_ok(b, local, global),
{
    assert forall|x: int, i: int| 0 <= x < b.len() && b[x].content is Code
        && 0 <= i < block_code(b[x]).len()
        && !((#[trigger] block_code(b[x])[i]).result is Var)
        && block_code(b[x])[i].op == crate::quadrupel::QuadrupelOp::Param
        && block_code(b[x])[i].arg1 is Var
        implies crate::worklist::param_resolvable(block_code(b[x]), i, local, global) by {
        assert(b[x].label == a[x].label);
        assert(block_code(b[x]) == block_code(a[x]));
        assert(a[x].content is Code);
        assert(block_code(a[x])[i] == block_code(b[x])[i]);
    }
}

proof fn lemma_nothing_hoisted(code: Seq<Quadrupel>, nodes: Seq<usize>, rchin: Seq<bool>, defs: Seq<Definition>)
    requires
        hoisted_of(code, nodes, rchin, defs).len() == 0,
    ensures
        kept_of(code, nodes, rchin, defs) == code,
        forall|i: int| 0 <= i < code.len() ==> !hoistable(#[trigger] code[i], nodes, rchin, defs),
    decreases code.len(),
{
    if code.len() > 0 {
        lemma_nothing_hoisted(code.drop_last(), nodes, rchin, defs);
        assert(kept_of(code, nodes, rchin, defs) =~= code);
        assert forall|i: int| 0 <= i < code.len() implies !hoistable(#[trigger] code[i], nodes, rchin, defs) by {
            if i < code.len() - 1 {
                assert(code.drop_last()[i] == code[i]);
            }
        }
    }
}

proof fn lemma_nothing_hoisted_all(blocks: Seq<Block>, nodes: Seq<usize>, k: int, rchin: Seq<bool>, defs: Seq<Definition>)
    requires
        hoisted_all(blocks, nodes, k, rchin, defs).len() == 0,
        0 <= k,
    ensures
        forall|j: int| 0 <= j < k ==> (#[trigger] hoisted_of(block_code(blocks[nodes[j] as int]), nodes, rchin, defs)).len() == 0,
    decreases k,
{
    if k > 0 {
        lemma_nothing_hoisted_all(blocks, nodes, k - 1, rchin, defs);
    }
}

/// After a search of the loop `nodes` of `g1` that found nothing to hoist, the blocks `g`
/// still carry the code of `b0`, and the loop is settled in `b0`.
proof fn lemma_settled_after_empty_hoist(
    b0: Seq<Block>,
    e0: Seq<Vec<usize>>,
    g1: Seq<Block>,
    g: Seq<Block>,
    nodes: Seq<usize>,
    rd: ReachingDefinitions,
    local: SymbolTable,
    global: SymbolTable,
)
    requires
        same_code(b0, g1),
        g1.len() <= usize::MAX,
        nodes_ok(nodes, g1.len() as int),
        rd.defs@ == graph_defs(g1, g1.len() as int, local, global),
        rd.gen_bits@.len() == g1.len(),
        rd.prsv@.len() == g1.len(),
        rd.rchin@.len() == g1.len(),
        rd.rchout@.len() == g1.len(),
        forall|b: int| 0 <= b < g1.len() ==> bits_of(#[trigger] rd.gen_bits@[b]) == gen_of(rd.defs@, b),
        forall|b: int| 0 <= b < g1.len() ==> bits_of(#[trigger] rd.prsv@[b]) == prsv_of(rd.defs@, gen_of(rd.defs@, b)),
        exists|prev: Seq<Vec<usize>>| #[trigger] is_prev(e0, prev) && is_fixpoint(
            prev.map_values(|v: Vec<usize>| v@), views(rd.gen_bits@), views(rd.prsv@), false, views(rd.rchin@), views(rd.rchout@))
            && is_least(prev.map_values(|v: Vec<usize>| v@), views(rd.gen_bits@), views(rd.prsv@), false, rd.defs@.len(),
            views(rd.rchin@), views(rd.rchout@)),
        hoisted_all(g1, nodes, nodes.len() as int, bits_of(rd.rchin@[nodes[0] as int]), rd.defs@).len() == 0,
        g.len() == g1.len(),
        forall|b: int| 0 <= b < g.len() ==> (#[trigger] g[b]).label == g1[b].label,
        forall|b: int| 0 <= b < g.len() ==> if nodes.contains(b as usize) && g1[b].content is Code {
            (#[trigger] g[b]).content is Code && block_code(g[b]) == kept_of(
                block_code(g1[b]), nodes, bits_of(rd.rchin@[nodes[0] as int]), rd.defs@)
        } else {
            g[b] == g1[b]
        },
    ensures
        same_code(b0, g),
        loop_settled(b0, e0, nodes, local, global),
{
    let rch = bits_of(rd.rchin@[nodes[0] as int]);
    let defs = rd.defs@;
    let n = g1.len();
    lemma_nothing_hoisted_all(g1, nodes, nodes.len() as int, rch, defs);
    assert(same_code(g1, g)) by {
        assert forall|b: int| 0 <= b < g1.len() implies (#[trigger] g[b]).label == g1[b].label
            && (g[b].content == g1[b].content
                || (g1[b].content is Code && g[b].content is Code && block_code(g[b]) == block_code(g1[b]))) by {
            if nodes.contains(b as usize) && g1[b].content is Code {
                let j = choose|j: int| 0 <= j < nodes.len() && nodes[j] == b as usize;
                assert(nodes[j] as int == b);
                assert(hoisted_of(block_code(g1[nodes[j] as int]), nodes, rch, defs).len() == 0);
                lemma_nothing_hoisted(block_code(g1[b]), nodes, rch, defs);
            }
        }
    }
    lemma_same_code_trans(b0, g1, g);
    lemma_same_code_defs(b0, g1, n as int, local, global);
    let prev = choose|prev: Seq<Vec<usize>>| #[trigger] is_prev(e0, prev) && is_fixpoint(
        prev.map_values(|v: Vec<usize>| v@), views(rd.gen_bits@), views(rd.prsv@), false, views(rd.rchin@), views(rd.rchout@))
        && is_least(prev.map_values(|v: Vec<usize>| v@), views(rd.gen_bits@), views(rd.prsv@), false, rd.defs@.len(),
        views(rd.rchin@), views(rd.rchout@));
    assert(views(rd.gen_bits@) =~= Seq::new(n, |b: int| gen_of(defs, b)));
    assert(views(rd.prsv@) =~= Seq::new(n, |b: int| prsv_of(defs, gen_of(defs, b))));
    let rin = views(rd.rchin@);
    assert(reaching_solution(prev, n, defs, rin, views(rd.rchout@)));
    assert(is_reaching_in(e0, b0.len(), defs, rin));
    assert(rin[nodes[0] as int] == rch);
    assert forall|j: int, i: int| 0 <= j < nodes.len() && 0 <= i < block_code(b0[nodes[j] as int]).len()
        implies !hoistable(#[trigger] block_code(b0[nodes[j] as int])[i], nodes, rin[nodes[0] as int], defs) by {
        let x = nodes[j] as int;
        assert(g1[x].label == b0[x].label);
        assert(block_code(g1[x]) == block_code(b0[x]));
        assert(hoisted_of(block_code(g1[nodes[j] as int]), nodes, rch, defs).len() == 0);
        lemma_nothing_hoisted(block_code(g1[x]), nodes, rch, defs);
    }
}

proof fn lemma_var_invariant_same(a: QuadrupelArg, b: QuadrupelArg, nodes: Seq<usize>, rchin: Seq<bool>, defs: Seq<Definition>)
    requires
        same_arg(a, b),
        var_invariant(arg_var(b), nodes, rchin, defs),
    ensures
        var_invariant(arg_var(a), nodes, rchin, defs),
{
    match (a, b) {
        (QuadrupelArg::Var(x), QuadrupelArg::Var(y)) => {
            assert forall|i: int| 0 <= i < rchin.len() && #[trigger] rchin[i]
                implies !(same_var(defs[i].var, x) && nodes.contains(defs[i].block_id)) by {
                assert(!(same_var(defs[i].var, y) && nodes.contains(defs[i].block_id)));
            }
        },
        _ => {},
    }
}

proof fn lemma_hoistable_same(a: Quadrupel, b: Quadrupel, nodes: Seq<usize>, rchin: Seq<bool>, defs: Seq<Definition>)
    requires
        same_quad(a, b),
        hoistable(b, nodes, rchin, defs),
    ensures
        hoistable(a, nodes, rchin, defs),
{
    lemma_var_invariant_same(a.arg1, b.arg1, nodes, rchin, defs);
    lemma_var_invariant_same(a.arg2, b.arg2, nodes, rchin, defs);
}

proof fn lemma_kept_members(code: Seq<Quadrupel>, nodes: Seq<usize>, rchin: Seq<bool>, defs: Seq<Definition>)
    ensures
        forall|q: Quadrupel| #[trigger] kept_of(code, nodes, rchin, defs).contains(q) ==> code.contains(q),
        forall|q: Quadrupel| code.contains(q) && !hoistable(q, nodes, rchin, defs) ==> #[trigger] kept_of(code, nodes, rchin, defs).contains(q),
        forall|q: Quadrupel| #[trigger] hoisted_of(code, nodes, rchin, defs).contains(q) ==> q.result is Var,
    decreases code.len(),
{
    if code.len() > 0 {
        let c = code.drop_last();
        lemma_kept_members(c, nodes, rchin, defs);
        let k = kept_of(code, nodes, rchin, defs);
        let h = hoisted_of(code, nodes, rchin, defs);
        assert forall|q: Quadrupel| #[trigger] k.contains(q) implies code.contains(q) by {
            let j = choose|j: int| 0 <= j < k.len() && k[j] == q;
            if j < kept_of(c, nodes, rchin, defs).len() {
                assert(kept_of(c, nodes, rchin, defs).contains(q));
                let i = choose|i: int| 0 <= i < c.len() && c[i] == q;
                assert(code[i] == q);
            } else {
                assert(code[code.len() - 1] == q);
            }
        }
        assert forall|q: Quadrupel| code.contains(q) && !hoistable(q, nodes, rchin, defs) implies #[trigger] k.contains(q) by {
            let i = choose|i: int| 0 <= i < code.len() && code[i] == q;
            if i < c.len() {
                assert(c[i] == q);
                assert(kept_of(c, nodes, rchin, defs).contains(q));
                let j = choose|j: int| 0 <= j < kept_of(c, nodes, rchin, defs).len() && kept_of(c, nodes, rchin, defs)[j] == q;
                assert(k[j] == q);
            } else {
                assert(k[k.len() - 1] == q);
            }
        }
        assert forall|q: Quadrupel| #[trigger] h.contains(q) implies q.result is Var by {
            let j = choose|j: int| 0 <= j < h.len() && h[j] == q;
            if j < hoisted_of(c, nodes, rchin, defs).len() {
                assert(hoisted_of(c, nodes, rchin, defs).contains(q));
            }
        }
    }
}

/// The variable an operand reads, if any.
fn extract_var(arg: &QuadrupelArg) -> (r: Option<&QuadrupelVar>)
    ensures
        match r {
            Some(v) => arg_var(*arg) == Some(*v),
            None => arg_var(*arg) is None,
        },
{
    match arg {
        QuadrupelArg::Var(v) => Some(v),
        _ => None,
    }
}

/// Whether no definition of `var` made inside the loop `nodes` reaches the loop's first
/// block; an operand without a variable is invariant.
fn is_var_invariant(var: Option<&QuadrupelVar>, nodes: &Vec<usize>, reaching: &ReachingDefinitions) -> (r: bool)
    requires
        nodes@.len() > 0,
        (nodes@[0] as int) < reaching.rchin@.len(),
        bits_of(reaching.rchin@[nodes@[0] as int]).len() == reaching.defs@.len(),
    ensures
        r == var_invariant(match var {
            Some(v) => Some(*v),
            None => None,
        }, nodes@, bits_of(reaching.rchin@[nodes@[0] as int]), reaching.defs@),
{
    match var {
        Some(v) => {
            let rchin = &reaching.rchin[nodes[0]];
            let ghost bits = bits_of(*rchin);
            let len = rchin.len();
            let mut i: usize = 0;
            while i < len
                invariant
                    nodes@.len() > 0,
                    (nodes@[0] as int) < reaching.rchin@.len(),
                    *rchin == reaching.rchin@[nodes@[0] as int],
                    var == Some(v),
                    bits == bits_of(*rchin),
                    len == bits.len(),
                    bits.len() == reaching.defs@.len(),
                    0 <= i <= len,
                    forall|j: int| 0 <= j < i && #[trigger] bits[j]
                        ==> !(same_var(reaching.defs@[j].var, *v) && nodes@.contains(reaching.defs@[j].block_id)),
                decreases len - i,
            {
                if rchin.get(i) {
                    let def = &reaching.defs[i];
                    if def.var.equals(v) && vec_contains(nodes, def.block_id) {
                        proof {
                            assert(bits[i as int]);
                            assert(same_var(reaching.defs@[i as int].var, *v));
                            assert(nodes@.contains(reaching.defs@[i as int].block_id));
                            assert(!var_invariant(Some(*v), nodes@, bits, reaching.defs@));

                        }
                        return false;
                    }
                }
                i = i + 1;
            }
            true
        },
        None => true,
    }
}

/// Whether `content` holds a quadruple equal to `q`.
fn contains_quad(content: &Vec<Quadrupel>, q: &Quadrupel) -> (r: bool)
    ensures
        r == exists|j: int| 0 <= j < content@.len() && same_quad(*q, #[trigger] content@[j]),
{
    let mut j: usize = 0;
    while j < content.len()
        invariant
            0 <= j <= content@.len(),
            forall|k: int| 0 <= k < j ==> !same_quad(*q, #[trigger] content@[k]),
        decreases content@.len() - j,
    {
        if q.equals(&content[j]) {
            return true;
        }
        j = j + 1;
    }
    false
}


proof fn lemma_hoisted_members(code: Seq<Quadrupel>, nodes: Seq<usize>, rchin: Seq<bool>, defs: Seq<Definition>)
    ensures
        forall|i: int| 0 <= i < code.len() && hoistable(#[trigger] code[i], nodes, rchin, defs)
            ==> hoisted_of(code, nodes, rchin, defs).contains(code[i]),
        forall|q: Quadrupel| #[trigger] hoisted_of(code, nodes, rchin, defs).contains(q) ==> hoistable(q, nodes, rchin, defs),
    decreases code.len(),
{
    if code.len() > 0 {
        let c = code.drop_last();
        lemma_hoisted_members(c, nodes, rchin, defs);
        let h = hoisted_of(code, nodes, rchin, defs);
        let hc = hoisted_of(c, nodes, rchin, defs);
        assert forall|i: int| 0 <= i < code.len() && hoistable(#[trigger] code[i], nodes, rchin, defs)
            implies h.contains(code[i]) by {
            if i < c.len() {
                assert(c[i] == code[i]);
                assert(hc.contains(code[i]));
                let j = choose|j: int| 0 <= j < hc.len() && hc[j] == code[i];
                assert(h[j] == code[i]);
            } else {
                assert(h[h.len() - 1] == code[i]);
            }
        }
        assert forall|q: Quadrupel| #[trigger] h.contains(q) implies hoistable(q, nodes, rchin, defs) by {
            let j = choose|j: int| 0 <= j < h.len() && h[j] == q;
            if j < hc.len() {
                assert(hc.contains(q));
            }
        }
    }
}

impl BlockGraph {
    /// Takes the hoistable quadruples out of the blocks of the loop `nodes`, block by block,
    /// and returns them in order. What is hoistable is decided by the definitions that
    /// reach the loop's first block, as `reachdef` gives them.
    fn hoist_scc(&mut self, nodes: &Vec<usize>, reachdef: &ReachingDefinitions) -> (content: Vec<Quadrupel>)
        requires
            old(self).wf(),
            nodes_ok(nodes@, old(self).blocks@.len() as int),
            reachdef.rchin@.len() == old(self).blocks@.len(),
            bits_of(reachdef.rchin@[nodes@[0] as int]).len() == reachdef.defs@.len(),
        ensures
            final(self).wf(),
            final(self).blocks@.len() == old(self).blocks@.len(),
            final(self).edges == old(self).edges,
            final(self).label_to_id == old(self).label_to_id,
            final(self).sccs == old(self).sccs,
            forall|b: int| 0 <= b < final(self).blocks@.len() ==> (#[trigger] final(self).blocks@[b]).label == old(self).blocks@[b].label,
            forall|b: int| 0 <= b < final(self).blocks@.len() ==> if nodes@.contains(b as usize) && old(self).blocks@[b].content is Code {
                (#[trigger] final(self).blocks@[b]).content is Code && block_code(final(self).blocks@[b]) == kept_of(
                    block_code(old(self).blocks@[b]), nodes@, bits_of(reachdef.rchin@[nodes@[0] as int]), reachdef.defs@)
            } else {
                final(self).blocks@[b] == old(self).blocks@[b]
            },
            content@ == hoisted_all(old(self).blocks@, nodes@, nodes@.len() as int,
                bits_of(reachdef.rchin@[nodes@[0] as int]), reachdef.defs@),
            forall|j: int| 0 <= j < content@.len() ==> (#[trigger] content@[j]).result is Var,
    {
        let ghost b0 = self.blocks@;
        let ghost rch = bits_of(reachdef.rchin@[nodes@[0] as int]);
        let ghost defs = reachdef.defs@;
        let mut content: Vec<Quadrupel> = Vec::new();
        let nblocks = self.blocks.len();
        let mut j: usize = 0;
        while j < nodes.len()
            invariant
                nblocks == b0.len(),
                nodes_ok(nodes@, b0.len() as int),
                reachdef.rchin@.len() == b0.len(),
                rch == bits_of(reachdef.rchin@[nodes@[0] as int]),
                defs == reachdef.defs@,
                rch.len() == defs.len(),
                0 <= j <= nodes@.len(),
                b0 == old(self).blocks@,
                self.blocks@.len() == b0.len(),
                self.edges == old(self).edges,
                self.label_to_id == old(self).label_to_id,
                self.sccs == old(self).sccs,
                content@ == hoisted_all(b0, nodes@, j as int, rch, defs),
                forall|k: int| 0 <= k < content@.len() ==> hoistable(#[trigger] content@[k], nodes@, rch, defs),
                forall|b: int| 0 <= b < b0.len() ==> (#[trigger] self.blocks@[b]).label == b0[b].label,
                forall|b: int| 0 <= b < b0.len() ==> if nodes@.take(j as int).contains(b as usize) && b0[b].content is Code {
                    (#[trigger] self.blocks@[b]).content is Code
                        && block_code(self.blocks@[b]) == kept_of(block_code(b0[b]), nodes@, rch, defs)
                } else {
                    self.blocks@[b] == b0[b]
                },
            decreases nodes@.len() - j,
        {
            let id = nodes[j];
            proof {
                assert(!nodes@.take(j as int).contains(id)) by {
                    if nodes@.take(j as int).contains(id) {
                        let k = choose|k: int| 0 <= k < j && nodes@.take(j as int)[k] == id;
                        assert(nodes@[k] == nodes@[j as int]);
                    }
                }
                assert(nodes@[j as int] < b0.len());
            }
            let ghost pre = self.blocks@;
            let mut blk = Block::new_start(None);
            std::mem::swap(&mut blk, &mut self.blocks[id]);
            let ghost orig = blk;
            let Block { label, content: c } = blk;
            let ghost c0 = content@;
            let newblk = match c {
                BlockContent::Code(quads) => {
                    let mut i: usize = 0;
                    while i < quads.len()
                        invariant
                            nodes@.len() > 0,
                            (nodes@[0] as int) < reachdef.rchin@.len(),
                            rch == bits_of(reachdef.rchin@[nodes@[0] as int]),
                            defs == reachdef.defs@,
                            rch.len() == defs.len(),
                            0 <= i <= quads@.len(),
                            content@ == c0 + hoisted_of(quads@.take(i as int), nodes@, rch, defs),
                            forall|k: int| 0 <= k < content@.len() ==> hoistable(#[trigger] content@[k], nodes@, rch, defs),
                        decreases quads@.len() - i,
                    {
                        let q = &quads[i];
                        proof {
                            assert(quads@.take(i + 1).drop_last() =~= quads@.take(i as int));
                        }
                        let is_var = match &q.result {
                            QuadrupelResult::Var(_) => true,
                            _ => false,
                        };
                        if is_var_invariant(extract_var(&q.arg1), nodes, reachdef)
                            && is_var_invariant(extract_var(&q.arg2), nodes, reachdef) && is_var {
                            content.push(q.clone());
                        }
                        i = i + 1;
                    }
                    proof {
                        assert(quads@.take(quads@.len() as int) =~= quads@);
                        lemma_hoisted_members(quads@, nodes@, rch, defs);
                    }
                    let mut kept: Vec<Quadrupel> = Vec::new();
                    let mut i: usize = 0;
                    while i < quads.len()
                        invariant
                            0 <= i <= quads@.len(),
                            kept@ == kept_of(quads@.take(i as int), nodes@, rch, defs),
                            content@ == c0 + hoisted_of(quads@, nodes@, rch, defs),
                            forall|k: int| 0 <= k < content@.len() ==> hoistable(#[trigger] content@[k], nodes@, rch, defs),
                            forall|k: int| 0 <= k < quads@.len() && hoistable(#[trigger] quads@[k], nodes@, rch, defs)
                                ==> hoisted_of(quads@, nodes@, rch, defs).contains(quads@[k]),
                        decreases quads@.len() - i,
                    {
                        proof {
                            assert(quads@.take(i + 1).drop_last() =~= quads@.take(i as int));
                        }
                        let found = contains_quad(&content, &quads[i]);
                        proof {
                            let q = quads@[i as int];
                            if found {
                                let k = choose|k: int| 0 <= k < content@.len() && same_quad(q, #[trigger] content@[k]);
                                lemma_hoistable_same(q, content@[k], nodes@, rch, defs);
                            } else if hoistable(q, nodes@, rch, defs) {
                                let h = hoisted_of(quads@, nodes@, rch, defs);
                                assert(h.contains(q));
                                let k = choose|k: int| 0 <= k < h.len() && h[k] == q;
                                assert(content@[c0.len() + k] == q);
                                assert(same_quad(q, content@[c0.len() + k]));
                            }
                        }
                        if !found {
                            kept.push(quads[i].clone());
                        }
                        i = i + 1;
                    }
                    proof {
                        assert(quads@.take(quads@.len() as int) =~= quads@);
                    }
                    Block { label, content: BlockContent::Code(kept) }
                },
                other => Block { label, content: other },
            };
            self.blocks.set(id, newblk);
            proof {
                assert(orig == b0[id as int]);
                assert(nodes@.take(j + 1).drop_last() =~= nodes@.take(j as int));
                assert(nodes@.take(j + 1)[j as int] == id);
                assert forall|b: int| 0 <= b < b0.len() implies (#[trigger] self.blocks@[b]).label == b0[b].label by {
                    if b != id {
                        assert(self.blocks@[b] == pre[b]);
                    }
                }
                assert forall|b: int| 0 <= b < b0.len() implies if nodes@.take(j + 1).contains(b as usize) && b0[b].content is Code {
                    (#[trigger] self.blocks@[b]).content is Code
                        && block_code(self.blocks@[b]) == kept_of(block_code(b0[b]), nodes@, rch, defs)
                } else {
                    self.blocks@[b] == b0[b]
                } by {
                    let t1 = nodes@.take(j + 1);
                    let t0 = nodes@.take(j as int);
                    if b != id {
                        assert(self.blocks@[b] == pre[b]);
                        if t1.contains(b as usize) {
                            let k = choose|k: int| 0 <= k < t1.len() && t1[k] == b as usize;
                            assert(k < j);
                            assert(t0[k] == b as usize);
                        }
                        if t0.contains(b as usize) {
                            let k = choose|k: int| 0 <= k < t0.len() && t0[k] == b as usize;
                            assert(t1[k] == b as usize);
                        }
                    } else {
                        assert(nodes@.take(j + 1).contains(b as usize));
                    }
                }
            }
            j = j + 1;
        }
        proof {
            assert(nodes@.take(nodes@.len() as int) =~= nodes@);
            assert forall|l: Seq<char>| lookup_label(self.label_to_id@, l) == #[trigger] last_labelled(self.blocks@, l) by {
                lemma_last_labelled_same(self.blocks@, b0, l);
                assert(lookup_label(self.label_to_id@, l) == last_labelled(b0, l));
            }
            assert forall|k: int| 0 <= k < content@.len() implies (#[trigger] content@[k]).result is Var by {
                assert(hoistable(content@[k], nodes@, rch, defs));
            }
        }
        content
    }
}


impl BlockGraph {
    /// Appends a block labelled `n<counter>` holding `content`, makes every predecessor of
    /// `header` in `parents` that lies outside the loop `nodes` lead to it in place of
    /// `header`, and makes it lead to `header`.
    fn insert_preheader(&mut self, header: usize, nodes: &Vec<usize>, parents: &Vec<usize>, content: Vec<Quadrupel>, counter: u64) -> (new_id: usize)
        requires
            old(self).wf(),
            header < old(self).blocks@.len(),
            forall|j: int| 0 <= j < parents@.len() ==> (#[trigger] parents@[j]) < old(self).blocks@.len(),
        ensures
            final(self).wf(),
            new_id == old(self).blocks@.len(),
            final(self).blocks@.len() == old(self).blocks@.len() + 1,
            forall|b: int| 0 <= b < old(self).blocks@.len() ==> #[trigger] final(self).blocks@[b] == old(self).blocks@[b],
            opt_str(final(self).blocks@[new_id as int].label) == Some(preheader_label(counter as nat)),
            final(self).blocks@[new_id as int].content == BlockContent::Code(content),
            final(self).sccs == old(self).sccs,
            final(self).succ(new_id as int) == Set::<usize>::empty().insert(header),
            forall|p: int| 0 <= p < old(self).blocks@.len() ==> #[trigger] final(self).succ(p) == if parents@.contains(p as usize) && !nodes@.contains(p as usize) {
                old(self).succ(p).remove(header).insert(new_id)
            } else {
                old(self).succ(p)
            },
    {
        let mut label = String::from_str("n");
        let d = nat_to_decimal(counter);
        label.append(d.as_str());
        proof {
            reveal_strlit("n");
        }
        let ghost g0 = *self;
        let new_id = self.add_block(Block::new(Some(label), BlockContent::Code(content)), None);
        let ghost g1 = *self;
        let mut k: usize = 0;
        while k < parents.len()
            invariant
                self.wf(),
                header < g0.blocks@.len(),
                new_id == g0.blocks@.len(),
                self.blocks == g1.blocks,
                self.sccs == g0.sccs,
                g1.blocks@.len() == g0.blocks@.len() + 1,
                forall|j: int| 0 <= j < parents@.len() ==> (#[trigger] parents@[j]) < g0.blocks@.len(),
                0 <= k <= parents@.len(),
                self.edges@[new_id as int]@ == Seq::<usize>::empty(),
                forall|p: int| 0 <= p < g0.blocks@.len() ==> #[trigger] self.succ(p) == if parents@.take(k as int).contains(p as usize) && !nodes@.contains(p as usize) {
                    g0.succ(p).remove(header).insert(new_id)
                } else {
                    g0.succ(p)
                },
            decreases parents@.len() - k,
        {
            let p = parents[k];
            let ghost pre = *self;
            let ghost t0 = parents@.take(k as int);
            let ghost t1 = parents@.take(k + 1);
            proof {
                assert(t1 =~= t0.push(p));
            }
            if !vec_contains(nodes, p) {
                self.remove_edge(p, header);
                self.add_edge(p, new_id);
                proof {
                    assert(self.succ(p as int) =~= g0.succ(p as int).remove(header).insert(new_id));
                }
            }
            proof {
                assert forall|q: int| 0 <= q < g0.blocks@.len() implies #[trigger] self.succ(q) == if t1.contains(q as usize) && !nodes@.contains(q as usize) {
                    g0.succ(q).remove(header).insert(new_id)
                } else {
                    g0.succ(q)
                } by {
                    if q != p {
                        assert(self.edges@[q] == pre.edges@[q]);
                        assert(self.succ(q) == pre.succ(q));
                        assert(t1.contains(q as usize) == t0.contains(q as usize)) by {
                            if t1.contains(q as usize) {
                                let i = choose|i: int| 0 <= i < t1.len() && t1[i] == q as usize;
                                assert(i < t0.len());
                                assert(t0[i] == q as usize);
                            }
                            if t0.contains(q as usize) {
                                let i = choose|i: int| 0 <= i < t0.len() && t0[i] == q as usize;
                                assert(t1[i] == q as usize);
                            }
                        }
                    } else {
                        assert(t1[k as int] == p);
                        assert(t1.contains(p));
                        if !nodes@.contains(p) {
                            assert(self.succ(q) == g0.succ(q).remove(header).insert(new_id));
                        } else {
                            assert(self.succ(q) == pre.succ(q));
                        }
                    }
                }
            }
            k = k + 1;
        }
        proof {
            assert(parents@.take(parents@.len() as int) =~= parents@);
        }
        let ghost g2 = *self;
        self.add_edge(new_id, header);
        proof {
            assert(g2.succ(new_id as int) =~= Set::<usize>::empty());
            assert forall|p: int| 0 <= p < g0.blocks@.len() implies #[trigger] self.succ(p) == if parents@.contains(p as usize) && !nodes@.contains(p as usize) {
                g0.succ(p).remove(header).insert(new_id)
            } else {
                g0.succ(p)
            } by {
                assert(self.edges@[p] == g2.edges@[p]);
                assert(self.succ(p) == g2.succ(p));
            }
            assert(self.blocks@[new_id as int].label->0@ == preheader_label(counter as nat));
        }
        new_id
    }
}


/// Every component names distinct blocks of a graph with `n` blocks, and its parent is a
/// component.
pub open spec fn sccs_ok(s: Seq<Scc>, n: int) -> bool {
    forall|t: int| 0 <= t < s.len() ==> (nodes_ok(#[trigger] s[t].nodes@, n)
        && (s[t].parent_idx is Some ==> s[t].parent_idx->0 < s.len()))
}

/// `new` is `old` after hoisting: the same label, code stays code and the entry and exit
/// stay as they are, no quadruple appears that was not there, and every quadruple that
/// writes no variable stays.
pub open spec fn code_shrunk(old: Block, new: Block) -> bool {
    &&& new.label == old.label
    &&& old.content is Code ==> new.content is Code
    &&& !(old.content is Code) ==> new.content == old.content
    &&& forall|q: Quadrupel| #[trigger] block_code(new).contains(q) ==> block_code(old).contains(q)
    &&& forall|q: Quadrupel| block_code(old).contains(q) && !(q.result is Var) ==> #[trigger] block_code(new).contains(q)
}

/// Block `b` is the `n`-th block this pass created: labelled `n<n>`, holding code that
/// only writes variables.
pub open spec fn is_preheader(b: Block, n: nat) -> bool {
    &&& opt_str(b.label) == Some(preheader_label(n))
    &&& b.content is Code
    &&& forall|j: int| 0 <= j < block_code(b).len() ==> (#[trigger] block_code(b)[j]).result is Var
}

/// Block `t` is the first block of one of the loops.
pub open spec fn is_loop_head(sccs: Seq<Scc>, t: usize) -> bool {
    exists|i: int| 0 <= i < sccs.len() && (#[trigger] sccs[i]).nodes@.len() > 0 && sccs[i].nodes@[0] == t
}

/// The successors `s` of the created block `b` are a single block: the first block of a
/// loop, or a block created after `b` (among the `n` blocks).
pub open spec fn preheader_exit(s: Set<usize>, b: int, sccs: Seq<Scc>, n: int) -> bool {
    exists|t: usize| #[trigger] s.contains(t) && s == Set::<usize>::empty().insert(t) && (is_loop_head(sccs, t) || (b < t < n))
}

proof fn lemma_loop_heads_kept(a: Seq<Scc>, b: Seq<Scc>, blocks_edges: Set<usize>, x: int, n: int, n2: int)
    requires
        a.len() == b.len(),
        forall|i: int| 0 <= i < a.len() && (#[trigger] a[i]).nodes@.len() > 0
            ==> b[i].nodes@.len() > 0 && b[i].nodes@[0] == a[i].nodes@[0],
        preheader_exit(blocks_edges, x, a, n),
        n <= n2,
    ensures
        preheader_exit(blocks_edges, x, b, n2),
{
    let t = choose|t: usize| #[trigger] blocks_edges.contains(t) && blocks_edges == Set::<usize>::empty().insert(t)
        && (is_loop_head(a, t) || (x < t < n));
    if is_loop_head(a, t) {
        let i = choose|i: int| 0 <= i < a.len() && (#[trigger] a[i]).nodes@.len() > 0 && a[i].nodes@[0] == t;
        assert(b[i].nodes@.len() > 0);
        assert(is_loop_head(b, t));
    }
    assert(blocks_edges.contains(t));
}

proof fn lemma_nested_nodes_ok(s: Seq<Scc>, n: int, k: int)
    requires
        sccs_nested(s, n),
        0 <= k < s.len(),
    ensures
        nodes_ok(s[k].nodes@, n),
        s[k].parent_idx is Some ==> s[k].parent_idx->0 < s.len(),
{
    assert(scc_shape(s, k, 0, n, None, 0));
    let nodes = s[k].nodes@;
    assert forall|j: int| 0 <= j < nodes.len() implies (#[trigger] nodes[j]) < n by {
        if j < nodes.len() - 1 {
            assert(nodes[j] < nodes[nodes.len() - 1]);
        }
    }
    assert(nodes.no_duplicates()) by {
        assert forall|i: int, j: int| 0 <= i < nodes.len() && 0 <= j < nodes.len() && i != j implies nodes[i] != nodes[j] by {
            if i < j {
                assert(nodes[i] < nodes[j]);
            } else {
                assert(nodes[j] < nodes[i]);
            }
        }
    }
}

proof fn lemma_hoist_keeps(b0: Seq<Block>, g1: Seq<Block>, g: Seq<Block>, nodes: Seq<usize>, rch: Seq<bool>, defs: Seq<Definition>)
    requires
        b0.len() <= g1.len(),
        g.len() == g1.len(),
        forall|b: int| 0 <= b < b0.len() ==> code_shrunk(b0[b], #[trigger] g1[b]),
        forall|b: int| b0.len() <= b < g1.len() ==> is_preheader(#[trigger] g1[b], (b - b0.len()) as nat),
        forall|b: int| 0 <= b < g.len() ==> (#[trigger] g[b]).label == g1[b].label,
        forall|b: int| 0 <= b < g.len() ==> if nodes.contains(b as usize) && g1[b].content is Code {
            (#[trigger] g[b]).content is Code && block_code(g[b]) == kept_of(block_code(g1[b]), nodes, rch, defs)
        } else {
            g[b] == g1[b]
        },
    ensures
        forall|b: int| 0 <= b < b0.len() ==> code_shrunk(b0[b], #[trigger] g[b]),
        forall|b: int| b0.len() <= b < g.len() ==> is_preheader(#[trigger] g[b], (b - b0.len()) as nat),
{
    assert forall|b: int| 0 <= b < g.len() implies code_shrunk(g1[b], #[trigger] g[b]) by {
        lemma_kept_members(block_code(g1[b]), nodes, rch, defs);
        if !(nodes.contains(b as usize) && g1[b].content is Code) {
            assert(g[b] == g1[b]);
        }
    }
    assert forall|b: int| 0 <= b < b0.len() implies code_shrunk(b0[b], #[trigger] g[b]) by {
        assert(code_shrunk(b0[b], g1[b]));
        assert(code_shrunk(g1[b], g[b]));
    }
    assert forall|b: int| b0.len() <= b < g.len() implies is_preheader(#[trigger] g[b], (b - b0.len()) as nat) by {
        assert(is_preheader(g1[b], (b - b0.len()) as nat));
        assert(code_shrunk(g1[b], g[b]));
        let c = block_code(g[b]);
        assert forall|j: int| 0 <= j < c.len() implies (#[trigger] c[j]).result is Var by {
            assert(c.contains(c[j]));
            assert(block_code(g1[b]).contains(c[j]));
        }
    }
}

impl BlockGraph {
    /// Moves loop-invariant code out of loops, innermost loops first: for each component
    /// of the graph, the quadruples that write a variable from operands with no definition
    /// inside the component reaching its first block go, in order, into a new block
    /// labelled `n0`, `n1`, ..; the predecessors of the first block outside the component
    /// lead to the new block, which leads to the first block, and the new block joins the
    /// enclosing component. Returns whether any code moved.
    #[verifier::spinoff_prover]
    #[verifier::rlimit(40)]
    pub fn loop_optimization(&mut self, local_table: &SymbolTable, global_table: &SymbolTable) -> (r: bool)
        requires
            old(self).wf(),
        ensures
            final(self).wf(),
            final(self).sccs is Some,
            old(self).blocks@.len() <= final(self).blocks@.len(),
            r == (old(self).blocks@.len() < final(self).blocks@.len()),
            forall|b: int| 0 <= b < old(self).blocks@.len() ==> code_shrunk(old(self).blocks@[b], #[trigger] final(self).blocks@[b]),
            forall|b: int| old(self).blocks@.len() <= b < final(self).blocks@.len()
                ==> is_preheader(#[trigger] final(self).blocks@[b], (b - old(self).blocks@.len()) as nat),
            forall|b: int| old(self).blocks@.len() <= b < final(self).blocks@.len()
                ==> preheader_exit(#[trigger] final(self).succ(b), b, final(self).sccs->0@, final(self).blocks@.len() as int),
            !r ==> same_code(old(self).blocks@, final(self).blocks@),
            !r ==> final(self).edges == old(self).edges && final(self).label_to_id == old(self).label_to_id,
            !r ==> sccs_nested(final(self).sccs->0@, old(self).blocks@.len() as int),
            !r ==> forall|x: usize, y: usize| x < old(self).blocks@.len() && y < old(self).blocks@.len() && x != y
                && #[trigger] mutual(old(self).edges@, 0, old(self).blocks@.len() as int, x, y)
                ==> pair_recorded(final(self).sccs->0@, 0, None, x, y),
            !r && defs_ok(old(self).blocks@, *local_table, *global_table) ==> forall|t: int| 0 <= t < final(self).sccs->0@.len()
                ==> loop_settled(old(self).blocks@, old(self).edges@, (#[trigger] final(self).sccs->0@[t]).nodes@,
                    *local_table, *global_table),
    {
        let mut repeat = false;
        self.tarjan();
        let mut taken: Option<Vec<Scc>> = None;
        std::mem::swap(&mut taken, &mut self.sccs);
        let mut sccs = match taken {
            Some(s) => s,
            None => {
                proof {
                    assert(false);
                }
                Vec::new()
            },
        };
        let ghost b0 = self.blocks@;
        let ghost sccs0 = sccs@;
        proof {
            assert forall|s: int| 0 <= s < sccs@.len() implies (nodes_ok(#[trigger] sccs@[s].nodes@, b0.len() as int)
                && (sccs@[s].parent_idx is Some ==> sccs@[s].parent_idx->0 < sccs@.len())) by {
                lemma_nested_nodes_ok(sccs@, b0.len() as int, s);
            }
            assert forall|b: int| 0 <= b < b0.len() implies code_shrunk(b0[b], #[trigger] self.blocks@[b]) by {}
            assert(same_code(b0, self.blocks@));
        }
        let mut block_counter: usize = 0;
        let total = sccs.len();
        let mut k = total;
        while k > 0
            invariant
                self.wf(),
                b0 == old(self).blocks@,
                sccs@.len() == total,
                k <= total,
                block_counter <= total - k,
                self.blocks@.len() == b0.len() + block_counter,
                repeat == (block_counter > 0),
                sccs_ok(sccs@, self.blocks@.len() as int),
                forall|b: int| 0 <= b < b0.len() ==> code_shrunk(b0[b], #[trigger] self.blocks@[b]),
                forall|b: int| b0.len() <= b < self.blocks@.len() ==> is_preheader(#[trigger] self.blocks@[b], (b - b0.len()) as nat),
                sccs_nested(sccs0, b0.len() as int),
                forall|x: usize, y: usize| x < b0.len() && y < b0.len() && x != y
                    && #[trigger] mutual(old(self).edges@, 0, b0.len() as int, x, y)
                    ==> pair_recorded(sccs0, 0, None, x, y),
                forall|b: int| b0.len() <= b < self.blocks@.len()
                    ==> preheader_exit(#[trigger] self.succ(b), b, sccs@, self.blocks@.len() as int),
                !repeat ==> same_code(b0, self.blocks@),
                !repeat ==> self.edges == old(self).edges && self.label_to_id == old(self).label_to_id,
                !repeat ==> sccs@ == sccs0,
                !repeat && defs_ok(b0, *local_table, *global_table) ==> forall|t: int| k <= t < total
                    ==> loop_settled(b0, old(self).edges@, (#[trigger] sccs@[t]).nodes@, *local_table, *global_table),
            decreases k,
        {
            k = k - 1;
            let header = sccs[k].nodes[0];
            let parent_idx = sccs[k].parent_idx;
            let revers_edges = self.edges_prev();
            let ghost e_pre = self.edges;
            let ghost gtop = *self;
            proof {
                if !repeat && defs_ok(b0, *local_table, *global_table) {
                    lemma_same_code_defs_ok(b0, self.blocks@, *local_table, *global_table);
                }
            }
            if self.defs_resolvable(local_table, global_table) {
                let reachdef = ReachingDefinitions::run(self, local_table, global_table);
                let nblocks = self.blocks.len();
                let ghost g1 = *self;
                let block_content = self.hoist_scc(&sccs[k].nodes, &reachdef);
                proof {
                    assert forall|b: int| b0.len() <= b < self.blocks@.len()
                        implies preheader_exit(#[trigger] self.succ(b), b, sccs@, self.blocks@.len() as int) by {
                        assert(preheader_exit(gtop.succ(b), b, sccs@, gtop.blocks@.len() as int));
                        assert(gtop.succ(b) == self.succ(b));
                    }
                    lemma_hoist_keeps(b0, g1.blocks@, self.blocks@, sccs@[k as int].nodes@,
                        bits_of(reachdef.rchin@[sccs@[k as int].nodes@[0] as int]), reachdef.defs@);
                    if !repeat && block_content@.len() == 0 {
                        lemma_settled_after_empty_hoist(b0, old(self).edges@, g1.blocks@, self.blocks@,
                            sccs@[k as int].nodes@, reachdef, *local_table, *global_table);
                    }
                }
                if block_content.len() > 0 {
                    repeat = true;
                    let ghost g2 = *self;
                    let new_id = self.insert_preheader(header, &sccs[k].nodes, &revers_edges[header], block_content,
                        block_counter as u64);
                    proof {
                        assert(g2.edges == e_pre);
                        let parents = revers_edges@[header as int]@;
                        let nodes_k = sccs@[k as int].nodes@;
                        assert(nodes_ok(nodes_k, g2.blocks@.len() as int));
                        assert(is_loop_head(sccs@, header)) by {
                            assert(sccs@[k as int].nodes@.len() > 0);
                        }
                        assert forall|b: int| b0.len() <= b < self.blocks@.len()
                            implies preheader_exit(#[trigger] self.succ(b), b, sccs@, self.blocks@.len() as int) by {
                            if b == new_id as int {
                                assert(self.succ(b).contains(header));
                            } else {
                                assert(preheader_exit(g2.succ(b), b, sccs@, g2.blocks@.len() as int));
                                let t = choose|t: usize| #[trigger] g2.succ(b).contains(t)
                                    && g2.succ(b) == Set::<usize>::empty().insert(t)
                                    && (is_loop_head(sccs@, t) || (b < t < g2.blocks@.len()));
                                if parents.contains(b as usize) && !nodes_k.contains(b as usize) {
                                    assert(e_pre@[b]@.contains(header));
                                    assert(g2.succ(b).contains(header));
                                    assert(t == header);
                                    assert(self.succ(b) =~= Set::<usize>::empty().insert(new_id));
                                    assert(self.succ(b).contains(new_id));
                                } else {
                                    assert(self.succ(b) == g2.succ(b));
                                    assert(self.succ(b).contains(t));
                                }
                            }
                        }
                        assert forall|b: int| 0 <= b < b0.len() implies code_shrunk(b0[b], #[trigger] self.blocks@[b]) by {
                            assert(self.blocks@[b] == g2.blocks@[b]);
                        }
                        assert forall|b: int| b0.len() <= b < self.blocks@.len() implies is_preheader(#[trigger] self.blocks@[b], (b - b0.len()) as nat) by {
                            if b < g2.blocks@.len() {
                                assert(self.blocks@[b] == g2.blocks@[b]);
                            }
                        }
                    }
                    block_counter = block_counter + 1;
                    let ghost sc0 = sccs@;
                    let ghost n0 = g2.blocks@.len();
                    match parent_idx {
                        Some(pidx) => {
                            let mut entry = Scc::new(Vec::new(), None);
                            std::mem::swap(&mut entry, &mut sccs[pidx]);
                            proof {
                                assert(entry == sc0[pidx as int]);
                            }
                            let ghost old_nodes = entry.nodes@;
                            entry.nodes.push(new_id);
                            sccs.set(pidx, entry);
                            proof {
                                assert(!old_nodes.contains(new_id)) by {
                                    if old_nodes.contains(new_id) {
                                        let j = choose|j: int| 0 <= j < old_nodes.len() && old_nodes[j] == new_id;
                                    }
                                }
                            }
                        },
                        None => {},
                    }
                    proof {
                        assert forall|t: int| 0 <= t < sccs@.len() implies (nodes_ok(#[trigger] sccs@[t].nodes@, self.blocks@.len() as int)
                            && (sccs@[t].parent_idx is Some ==> sccs@[t].parent_idx->0 < sccs@.len())) by {
                            assert(nodes_ok(sc0[t].nodes@, n0 as int));
                            let nd = sccs@[t].nodes@;
                            if parent_idx == Some(t as usize) {
                                assert(sccs@[t].parent_idx == sc0[t].parent_idx);
                                assert(nd == sc0[t].nodes@.push(new_id));
                                assert(nd.no_duplicates()) by {
                                    assert forall|i: int, j: int| 0 <= i < nd.len() && 0 <= j < nd.len() && i != j implies nd[i] != nd[j] by {
                                        if i < nd.len() - 1 && j < nd.len() - 1 {
                                            assert(sc0[t].nodes@[i] != sc0[t].nodes@[j]);
                                        } else if i < nd.len() - 1 {
                                            assert(sc0[t].nodes@[i] < n0);
                                        } else if j < nd.len() - 1 {
                                            assert(sc0[t].nodes@[j] < n0);
                                        }
                                    }
                                }
                                assert forall|j: int| 0 <= j < nd.len() implies (#[trigger] nd[j]) < self.blocks@.len() by {
                                    if j < nd.len() - 1 {
                                        assert(nd[j] == sc0[t].nodes@[j]);
                                    }
                                }
                            } else {
                                assert(sccs@[t] == sc0[t]);
                                assert forall|j: int| 0 <= j < nd.len() implies (#[trigger] nd[j]) < self.blocks@.len() by {
                                    assert(sc0[t].nodes@[j] < n0);
                                }
                            }
                        }
                        assert forall|i: int| 0 <= i < sc0.len() && (#[trigger] sc0[i]).nodes@.len() > 0
                            implies sccs@[i].nodes@.len() > 0 && sccs@[i].nodes@[0] == sc0[i].nodes@[0] by {
                            if parent_idx == Some(i as usize) {
                                assert(sccs@[i].nodes@ == sc0[i].nodes@.push(new_id));
                            } else {
                                assert(sccs@[i] == sc0[i]);
                            }
                        }
                        assert forall|b: int| b0.len() <= b < self.blocks@.len()
                            implies preheader_exit(#[trigger] self.succ(b), b, sccs@, self.blocks@.len() as int) by {
                            lemma_loop_heads_kept(sc0, sccs@, self.succ(b), b, self.blocks@.len() as int, self.blocks@.len() as int);
                        }
                    }
                }
            }
        }
        let ghost gend = *self;
        let ghost sc_end = sccs@;
        self.sccs = Some(sccs);
        proof {
            assert forall|b: int| b0.len() <= b < self.blocks@.len()
                implies preheader_exit(#[trigger] self.succ(b), b, self.sccs->0@, self.blocks@.len() as int) by {
                assert(preheader_exit(gend.succ(b), b, sc_end, gend.blocks@.len() as int));
                assert(gend.succ(b) == self.succ(b));
            }
        }
        repeat
    }
}

/// No definition of `v` made inside the loop reaches the loop's first block.
pub open spec fn no_loop_def_reaches(v: QuadrupelVar, nodes: Seq<usize>, rchin: Seq<bool>, defs: Seq<Definition>) -> bool {
    forall|i: int| 0 <= i < rchin.len() && rchin[i] && nodes.contains(defs[i].block_id) ==> !#[trigger] same_var(defs[i].var, v)
}

/// Code motion moves only what is loop-invariant and splits the code: every moved
/// quadruple writes a variable and reads, through its first and its second operand, only
/// variables with no definition inside the loop reaching the loop's first block; every
/// quadruple of the code is moved or kept, every moved or kept one is of the code, and
/// together they are as many as the code.
pub proof fn law_moved_code_is_invariant(code: Seq<Quadrupel>, nodes: Seq<usize>, rchin: Seq<bool>, defs: Seq<Definition>)
    ensures
        forall|k: int| 0 <= k < hoisted_of(code, nodes, rchin, defs).len() ==> {
            let q = #[trigger] hoisted_of(code, nodes, rchin, defs)[k];
            &&& q.result is Var
            &&& (q.arg1 is Var ==> no_loop_def_reaches(q.arg1->Var_0, nodes, rchin, defs))
            &&& (q.arg2 is Var ==> no_loop_def_reaches(q.arg2->Var_0, nodes, rchin, defs))
            &&& code.contains(q)
        },
        forall|k: int| 0 <= k < kept_of(code, nodes, rchin, defs).len() ==> code.contains(#[trigger] kept_of(code, nodes, rchin, defs)[k]),
        forall|k: int| 0 <= k < code.len() ==> hoisted_of(code, nodes, rchin, defs).contains(#[trigger] code[k])
            || kept_of(code, nodes, rchin, defs).contains(code[k]),
        hoisted_of(code, nodes, rchin, defs).len() + kept_of(code, nodes, rchin, defs).len() == code.len(),
    decreases code.len(),
{
    if code.len() > 0 {
        let c = code.drop_last();
        law_moved_code_is_invariant(c, nodes, rchin, defs);
        let h = hoisted_of(c, nodes, rchin, defs);
        let kk = kept_of(c, nodes, rchin, defs);
        let q = code.last();
        assert(code =~= c.push(q));
        let h2 = hoisted_of(code, nodes, rchin, defs);
        let k2 = kept_of(code, nodes, rchin, defs);
        if hoistable(q, nodes, rchin, defs) {
            assert(h2 =~= h.push(q));
            assert(k2 =~= kk);
        } else {
            assert(h2 =~= h);
            assert(k2 =~= kk.push(q));
        }
        assert forall|k: int| 0 <= k < h2.len() implies {
            let x = #[trigger] h2[k];
            &&& x.result is Var
            &&& (x.arg1 is Var ==> no_loop_def_reaches(x.arg1->Var_0, nodes, rchin, defs))
            &&& (x.arg2 is Var ==> no_loop_def_reaches(x.arg2->Var_0, nodes, rchin, defs))
            &&& code.contains(x)
        } by {
            if k < h.len() {
                assert(h2[k] == h[k]);
                let j = choose|j: int| 0 <= j < c.len() && c[j] == h[k];
                assert(code[j] == c[j]);
            } else {
                assert(h2[k] == q);
                assert(code[code.len() - 1] == q);
            }
        }
        assert forall|k: int| 0 <= k < k2.len() implies code.contains(#[trigger] k2[k]) by {
            if k < kk.len() {
                assert(k2[k] == kk[k]);
                let j = choose|j: int| 0 <= j < c.len() && c[j] == kk[k];
                assert(code[j] == c[j]);
            } else {
                assert(k2[k] == q);
                assert(code[code.len() - 1] == q);
            }
        }
        assert forall|k: int| 0 <= k < code.len() implies h2.contains(#[trigger] code[k]) || k2.contains(code[k]) by {
            if k < c.len() {
                assert(code[k] == c[k]);
                if h.contains(c[k]) {
                    let j = choose|j: int| 0 <= j < h.len() && h[j] == c[k];
                    assert(h2[j] == h[j]);
                } else {
                    let j = choose|j: int| 0 <= j < kk.len() && kk[j] == c[k];
                    assert(k2[j] == kk[j]);
                }
            } else {
                if hoistable(q, nodes, rchin, defs) {
                    assert(h2[h.len() as int] == q);
                } else {
                    assert(k2[kk.len() as int] == q);
                }
            }
        }
    }
}

} // verus!
