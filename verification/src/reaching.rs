//! Reaching definitions: which definitions may reach the entry and the exit of each block.
use vstd::prelude::*;
use crate::bits::{Bits, bits_from_vec, bits_of};
use crate::blocks::{Block, BlockGraph};
use crate::quadrupel::same_var;
use crate::table::SymbolTable;
use crate::worklist::{Definition, defs_ok, graph_defs, is_fixpoint, is_least, solve, views};

verus! {

broadcast use vstd::seq_lib::lemma_seq_contains_after_push;

/// The definitions that block `b` makes, as a bit per definition.
pub open spec fn gen_of(defs: Seq<Definition>, b: int) -> Seq<bool> {
    Seq::new(defs.len(), |i: int| defs[i].block_id == b)
}

/// The definitions that survive a block with the given generated set: those of variables
/// that the block does not define.
pub open spec fn prsv_of(defs: Seq<Definition>, gen: Seq<bool>) -> Seq<bool> {
    Seq::new(defs.len(), |i: int| !exists|j: int| 0 <= j < defs.len() && gen[j] && #[trigger] same_var(defs[j].var, defs[i].var))
}

/// The predecessor lists of a graph: `p` precedes `n` exactly when `n` succeeds `p`.
pub open spec fn is_prev(edges: Seq<Vec<usize>>, prev: Seq<Vec<usize>>) -> bool {
    &&& prev.len() == edges.len()
    &&& forall|n: int| 0 <= n < prev.len() ==> (#[trigger] prev[n])@.no_duplicates()
    &&& forall|n: int, p: int| 0 <= n < prev.len() && 0 <= p < edges.len()
        ==> ((#[trigger] prev[n])@.contains(p as usize) <==> (#[trigger] edges[p])@.contains(n as usize))
    &&& forall|n: int, k: int| 0 <= n < prev.len() && 0 <= k < prev[n]@.len() ==> (#[trigger] prev[n]@[k]) < edges.len()
}

/// Whether `x` occurs in `v`.
pub fn vec_contains(v: &Vec<usize>, x: usize) -> (r: bool)
    ensures
        r == v@.contains(x),
{
    let mut i: usize = 0;
    while i < v.len()
        invariant
            0 <= i <= v@.len(),
            forall|j: int| 0 <= j < i ==> v@[j] != x,
        decreases v@.len() - i,
    {
        if v[i] == x {
            return true;
        }
        i = i + 1;
    }
    false
}

/// The node ids `0 .. n`, ascending or descending.
pub fn node_order(n: usize, descending: bool) -> (r: Vec<usize>)
    ensures
        forall|i: int| 0 <= i < n ==> r@.contains(#[trigger] (i as usize)),
        forall|k: int| 0 <= k < r@.len() ==> #[trigger] r@[k] < n,
{
    let mut v: Vec<usize> = Vec::new();
    let mut i: usize = 0;
    while i < n
        invariant
            0 <= i <= n,
            v@.len() == i,
            forall|k: int| 0 <= k < i ==> #[trigger] v@[k] == if descending { (n - 1 - k) as usize } else { k as usize },
        decreases n - i,
    {
        if descending {
            v.push(n - 1 - i);
        } else {
            v.push(i);
        }
        i = i + 1;
    }
    proof {
        assert forall|i: int| 0 <= i < n implies v@.contains(#[trigger] (i as usize)) by {
            if descending {
                assert(v@[n - 1 - i] == i as usize);
            } else {
                assert(v@[i] == i as usize);
            }
        }
    }
    v
}

impl BlockGraph {
    /// The predecessors of each block.
    pub fn edges_prev(&self) -> (r: Vec<Vec<usize>>)
        requires
            self.wf(),
        ensures
            is_prev(self.edges@, r@),
    {
        let n = self.blocks.len();
        let mut prev: Vec<Vec<usize>> = Vec::new();
        let mut m: usize = 0;
        while m < n
            invariant
                self.wf(),
                n == self.blocks@.len(),
                0 <= m <= n,
                prev@.len() == m,
                forall|j: int| 0 <= j < m ==> (#[trigger] prev@[j])@.no_duplicates(),
                forall|j: int, q: int| 0 <= j < m && 0 <= q < n
                    ==> ((#[trigger] prev@[j])@.contains(q as usize) <==> (#[trigger] self.edges@[q])@.contains(j as usize)),
                forall|j: int, k: int| 0 <= j < m && 0 <= k < prev@[j]@.len() ==> (#[trigger] prev@[j]@[k]) < n,
            decreases n - m,
        {
            let mut v: Vec<usize> = Vec::new();
            let mut p: usize = 0;
            while p < n
                invariant
                    self.wf(),
                    n == self.blocks@.len(),
                    0 <= m < n,
                    0 <= p <= n,
                    v@.no_duplicates(),
                    forall|k: int| 0 <= k < v@.len() ==> #[trigger] v@[k] < p,
                    forall|q: int| 0 <= q < n ==> (v@.contains(q as usize) <==> (q < p && (#[trigger] self.edges@[q])@.contains(m as usize))),
                decreases n - p,
            {
                if vec_contains(&self.edges[p], m) {
                    proof {
                        assert(!v@.contains(p));
                    }
                    v.push(p);
                }
                p = p + 1;
            }
            prev.push(v);
            proof {
                assert forall|j: int, q: int| 0 <= j < m + 1 && 0 <= q < n
                    implies ((#[trigger] prev@[j])@.contains(q as usize) <==> (#[trigger] self.edges@[q])@.contains(j as usize)) by {
                    if j == m {
                        assert(prev@[j] == v);
                    }
                }
            }
            m = m + 1;
        }
        prev
    }

    /// For each block, the definitions it makes.
    pub fn defs_per_block(&self, defs_in_proc: &Vec<Definition>) -> (r: Vec<Bits>)
        ensures
            r@.len() == self.blocks@.len(),
            forall|b: int| 0 <= b < r@.len() ==> bits_of(#[trigger] r@[b]) == gen_of(defs_in_proc@, b),
    {
        let mut out: Vec<Bits> = Vec::new();
        let mut b: usize = 0;
        while b < self.blocks.len()
            invariant
                0 <= b <= self.blocks@.len(),
                out@.len() == b,
                forall|j: int| 0 <= j < b ==> bits_of(#[trigger] out@[j]) == gen_of(defs_in_proc@, j),
            decreases self.blocks@.len() - b,
        {
            out.push(Block::defs_in_block(b, defs_in_proc));
            b = b + 1;
        }
        out
    }
}

impl Block {
    /// The definitions block `block_id` makes, as a bit per definition.
    pub fn defs_in_block(block_id: usize, defs_in_proc: &Vec<Definition>) -> (r: Bits)
        ensures
            bits_of(r) == gen_of(defs_in_proc@, block_id as int),
    {
        let mut v: Vec<bool> = Vec::new();
        let mut i: usize = 0;
        while i < defs_in_proc.len()
            invariant
                0 <= i <= defs_in_proc@.len(),
                v@ == gen_of(defs_in_proc@, block_id as int).take(i as int),
            decreases defs_in_proc@.len() - i,
        {
            v.push(defs_in_proc[i].block_id == block_id);
            proof {
                assert(gen_of(defs_in_proc@, block_id as int).take(i + 1) =~= gen_of(defs_in_proc@, block_id as int).take(i as int).push(defs_in_proc@[i as int].block_id == block_id));
            }
            i = i + 1;
        }
        proof {
            assert(gen_of(defs_in_proc@, block_id as int).take(i as int) =~= gen_of(defs_in_proc@, block_id as int));
        }
        bits_from_vec(defs_in_proc.len(), &v)
    }

    /// The definitions that survive a block: those of variables that none of the block's
    /// own definitions (the bits set in `gen`) defines.
    pub fn get_rch_prsrv(gen: &Bits, defs_in_proc: &Vec<Definition>) -> (r: Bits)
        requires
            bits_of(*gen).len() == defs_in_proc@.len(),
        ensures
            bits_of(r) == prsv_of(defs_in_proc@, bits_of(*gen)),
    {
        let d = defs_in_proc;
        let ghost g = bits_of(*gen);
        let mut v: Vec<bool> = Vec::new();
        let mut i: usize = 0;
        while i < d.len()
            invariant
                g == bits_of(*gen),
                g.len() == d@.len(),
                0 <= i <= d@.len(),
                v@ == prsv_of(d@, g).take(i as int),
            decreases d@.len() - i,
        {
            let mut killed = false;
            let mut j: usize = 0;
            while j < d.len()
                invariant
                    g == bits_of(*gen),
                    g.len() == d@.len(),
                    0 <= i < d@.len(),
                    0 <= j <= d@.len(),
                    killed == exists|jj: int| 0 <= jj < j && g[jj] && #[trigger] same_var(d@[jj].var, d@[i as int].var),
                decreases d@.len() - j,
            {
                if gen.get(j) && d[j].var.equals(&d[i].var) {
                    killed = true;
                }
                j = j + 1;
            }
            v.push(!killed);
            proof {
                assert(prsv_of(d@, g).take(i + 1) =~= prsv_of(d@, g).take(i as int).push(!killed));
            }
            i = i + 1;
        }
        proof {
            assert(prsv_of(d@, g).take(i as int) =~= prsv_of(d@, g));
        }
        bits_from_vec(d.len(), &v)
    }
}

/// The result of the reaching-definitions analysis of one procedure.
pub struct ReachingDefinitions {
    pub defs: Vec<Definition>,
    pub gen_bits: Vec<Bits>,
    pub prsv: Vec<Bits>,
    pub rchin: Vec<Bits>,
    pub rchout: Vec<Bits>,
}

impl ReachingDefinitions {
    /// Runs the analysis: collects the definitions, computes for each block the ones it
    /// generates and the ones it preserves, and solves the forward equations
    /// `rchout[b] = (rchin[b] & prsv[b]) | gen[b]` and `rchin[b] ⊇ rchout[p]` for every
    /// predecessor `p` of `b`: the result is their least solution.
    pub fn run(graph: &BlockGraph, local_table: &SymbolTable, global_table: &SymbolTable) -> (r: ReachingDefinitions)
        requires
            graph.wf(),
            defs_ok(graph.blocks@, *local_table, *global_table),
        ensures
            r.defs@ == graph_defs(graph.blocks@, graph.blocks@.len() as int, *local_table, *global_table),
            r.gen_bits@.len() == graph.blocks@.len(),
            r.prsv@.len() == graph.blocks@.len(),
            r.rchin@.len() == graph.blocks@.len(),
            r.rchout@.len() == graph.blocks@.len(),
            forall|b: int| 0 <= b < graph.blocks@.len() ==> bits_of(#[trigger] r.gen_bits@[b]) == gen_of(r.defs@, b),
            forall|b: int| 0 <= b < graph.blocks@.len() ==> bits_of(#[trigger] r.prsv@[b]) == prsv_of(r.defs@, gen_of(r.defs@, b)),
            forall|b: int| 0 <= b < graph.blocks@.len() ==> bits_of(#[trigger] r.rchin@[b]).len() == r.defs@.len(),
            forall|b: int| 0 <= b < graph.blocks@.len() ==> bits_of(#[trigger] r.rchout@[b]).len() == r.defs@.len(),
            exists|prev: Seq<Vec<usize>>| #[trigger] is_prev(graph.edges@, prev) && is_fixpoint(
                prev.map_values(|v: Vec<usize>| v@), views(r.gen_bits@), views(r.prsv@), false, views(r.rchin@), views(r.rchout@))
                && is_least(prev.map_values(|v: Vec<usize>| v@), views(r.gen_bits@), views(r.prsv@), false, r.defs@.len(),
                views(r.rchin@), views(r.rchout@)),
    {
        let defs_all = graph.definitions(local_table, global_table);
        let gen = graph.defs_per_block(&defs_all);
        let mut prsv: Vec<Bits> = Vec::new();
        let mut i: usize = 0;
        while i < gen.len()
            invariant
                0 <= i <= gen@.len(),
                gen@.len() == graph.blocks@.len(),
                forall|b: int| 0 <= b < gen@.len() ==> bits_of(#[trigger] gen@[b]) == gen_of(defs_all@, b),
                prsv@.len() == i,
                forall|b: int| 0 <= b < i ==> bits_of(#[trigger] prsv@[b]) == prsv_of(defs_all@, gen_of(defs_all@, b)),
            decreases gen@.len() - i,
        {
            prsv.push(Block::get_rch_prsrv(&gen[i], &defs_all));
            i = i + 1;
        }
        let prev = graph.edges_prev();
        let order = node_order(graph.blocks.len(), false);
        proof {
            assert forall|n: int, k: int| 0 <= n < prev@.len() && 0 <= k < prev@[n]@.len()
                implies graph.edges@[#[trigger] prev@[n]@[k] as int]@.contains(n as usize) by {
                assert(prev@[n]@.contains(prev@[n]@[k]));
            }
            assert forall|n: int, k: int| 0 <= n < graph.edges@.len() && 0 <= k < graph.edges@[n]@.len()
                implies (#[trigger] graph.edges@[n]@[k]) < graph.edges@.len() by {
            }
        }
        let (rchin, rchout) = solve(&prev, &graph.edges, order, &gen, &prsv, false, defs_all.len());
        ReachingDefinitions { defs: defs_all, gen_bits: gen, prsv, rchin, rchout }
    }
}

impl crate::worklist::Worklist for ReachingDefinitions {
    type Lattice = Bits;

    const EDGE_DIRECTION: crate::worklist::EdgeDirection = crate::worklist::EdgeDirection::Forward;

    open spec fn runnable(graph: BlockGraph, local_table: SymbolTable, global_table: SymbolTable) -> bool {
        defs_ok(graph.blocks@, local_table, global_table)
    }

    fn run(graph: &BlockGraph, local_table: &SymbolTable, global_table: &SymbolTable) -> (r: ReachingDefinitions)
        ensures
            r.defs@ == graph_defs(graph.blocks@, graph.blocks@.len() as int, *local_table, *global_table),
            r.rchin@.len() == graph.blocks@.len(),
            exists|prev: Seq<Vec<usize>>| #[trigger] is_prev(graph.edges@, prev) && is_fixpoint(
                prev.map_values(|v: Vec<usize>| v@), views(r.gen_bits@), views(r.prsv@), false, views(r.rchin@), views(r.rchout@))
                && is_least(prev.map_values(|v: Vec<usize>| v@), views(r.gen_bits@), views(r.prsv@), false, r.defs@.len(),
                views(r.rchin@), views(r.rchout@)),
    {
        ReachingDefinitions::run(graph, local_table, global_table)
    }
}

} // verus!
