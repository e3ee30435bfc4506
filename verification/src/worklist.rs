//! The iterative data-flow solver over bit-vectors, and the definitions of a procedure
//! that the analyses work on.
use vstd::prelude::*;
use crate::bits::{Bits, bits_of, seq_and, seq_not, seq_or};
use crate::blocks::{Block, BlockContent, BlockGraph};
use crate::quadrupel::{Quadrupel, QuadrupelArg, QuadrupelOp, QuadrupelResult, QuadrupelVar};
use crate::table::{Entry, Parameter, SymbolTable, scoped_lookup};
use vstd::std_specs::cmp::PartialEqSpec;

verus! {

/// A data-flow analysis run over a block graph by the iterative solver.
pub trait Worklist: Sized {
    /// The facts the analysis computes, one per block and side.
    type Lattice: crate::lattice::Lattice;

    /// The direction in which facts flow.
    const EDGE_DIRECTION: EdgeDirection;

    /// The graph and the tables meet what the analysis needs to run.
    spec fn runnable(graph: BlockGraph, local_table: SymbolTable, global_table: SymbolTable) -> bool;

    /// Runs the analysis over the blocks of `graph`.
    fn run(graph: &BlockGraph, local_table: &SymbolTable, global_table: &SymbolTable) -> Self
        requires
            graph.wf(),
            Self::runnable(*graph, *local_table, *global_table),
    ;
}

/// An analysis that numbers the variables it tracks by their position in a list.
pub trait GetVarIdx<V: PartialEq> {
    /// The tracked variables, in order.
    spec fn var_list(&self) -> Seq<V>;

    /// The tracked variables.
    fn vars(&self) -> (r: &[V])
        ensures
            r@ == self.var_list(),
    ;

    /// The position of the first variable of `vars` equal to `var`, if any.
    fn get_var_idx_in(vars: &[V], var: &V) -> (r: Option<usize>)
        ensures
            r matches Some(i) ==> i < vars@.len(),
            V::obeys_eq_spec() ==> match r {
                Some(i) => vars@[i as int].eq_spec(var) && forall|j: int| 0 <= j < i ==> !(#[trigger] vars@[j]).eq_spec(var),
                None => forall|j: int| 0 <= j < vars@.len() ==> !(#[trigger] vars@[j]).eq_spec(var),
            },
    {
        let mut i: usize = 0;
        while i < vars.len()
            invariant
                i <= vars@.len(),
                V::obeys_eq_spec() ==> forall|j: int| 0 <= j < i ==> !(#[trigger] vars@[j]).eq_spec(var),
            decreases vars@.len() - i,
        {
            if vars[i] == *var {
                return Some(i);
            }
            i = i + 1;
        }
        None
    }

    /// The position of `var` among the tracked variables, if it is one.
    fn get_var_idx(&self, var: &V) -> (r: Option<usize>)
        ensures
            r matches Some(i) ==> i < self.var_list().len(),
            V::obeys_eq_spec() ==> match r {
                Some(i) => self.var_list()[i as int].eq_spec(var)
                    && forall|j: int| 0 <= j < i ==> !(#[trigger] self.var_list()[j]).eq_spec(var),
                None => forall|j: int| 0 <= j < self.var_list().len() ==> !(#[trigger] self.var_list()[j]).eq_spec(var),
            },
    {
        Self::get_var_idx_in(self.vars(), var)
    }
}

/// The direction in which information flows along the edges of the block graph.
#[derive(Debug, Clone, Copy, PartialEq, Eq)]
pub enum EdgeDirection {
    Forward,
    Backward,
}

/// Bitwise inclusion: every bit set in `s` is set in `t`.
pub open spec fn le_bits(s: Seq<bool>, t: Seq<bool>) -> bool {
    s.len() == t.len() && forall|i: int| 0 <= i < s.len() ==> s[i] ==> t[i]
}

/// The transfer function of a block: `(inp & keep) | add`, where `keep` is `b`, or its
/// complement when `negate` is set.
pub open spec fn transfer(inp: Seq<bool>, add: Seq<bool>, b: Seq<bool>, negate: bool) -> Seq<bool> {
    seq_or(seq_and(inp, if negate { seq_not(b) } else { b }), add)
}

/// The number of clear bits.
pub open spec fn false_count(s: Seq<bool>) -> nat
    decreases s.len(),
{
    if s.len() == 0 {
        0
    } else {
        false_count(s.drop_last()) + if s.last() { 0nat } else { 1nat }
    }
}

/// The number of clear bits over all nodes.
pub open spec fn total_false(s: Seq<Seq<bool>>) -> nat
    decreases s.len(),
{
    if s.len() == 0 {
        0
    } else {
        total_false(s.drop_last()) + false_count(s.last())
    }
}

/// The views of a list of bit-vectors.
pub open spec fn views(v: Seq<Bits>) -> Seq<Seq<bool>> {
    Seq::new(v.len(), |i: int| bits_of(v[i]))
}

/// Node `n` is still waiting in the queue.
pub open spec fn pending(q: Seq<usize>, qi: int, n: usize) -> bool {
    exists|k: int| qi <= k < q.len() && q[k] == n
}

/// The equations the solver establishes: each output is the transfer of its input, and
/// each input includes the output of every node that flows into it.
pub open spec fn is_fixpoint(
    into: Seq<Seq<usize>>,
    add: Seq<Seq<bool>>,
    b: Seq<Seq<bool>>,
    negate: bool,
    ins: Seq<Seq<bool>>,
    outs: Seq<Seq<bool>>,
) -> bool {
    &&& forall|n: int| 0 <= n < outs.len() ==> #[trigger] outs[n] == transfer(ins[n], add[n], b[n], negate)
    &&& forall|n: int, k: int| 0 <= n < into.len() && 0 <= k < into[n].len()
        ==> le_bits(outs[#[trigger] into[n][k] as int], ins[n])
}

/// `x` has `n` vectors of `width` bits each.
pub open spec fn sized(x: Seq<Seq<bool>>, n: nat, width: nat) -> bool {
    x.len() == n && forall|j: int| 0 <= j < n ==> (#[trigger] x[j]).len() == width
}

/// Every input and output is included in the corresponding one of `xi` and `xo`.
pub open spec fn below(ins: Seq<Seq<bool>>, outs: Seq<Seq<bool>>, xi: Seq<Seq<bool>>, xo: Seq<Seq<bool>>) -> bool {
    &&& forall|j: int| 0 <= j < ins.len() ==> le_bits(#[trigger] ins[j], xi[j])
    &&& forall|j: int| 0 <= j < ins.len() ==> le_bits(#[trigger] outs[j], xo[j])
}

/// The inputs and outputs are included in those of every solution of the equations
/// (of `ins.len()` nodes and `width` bits): with `is_fixpoint`, they are the least
/// solution.
pub closed spec fn is_least(
    into: Seq<Seq<usize>>,
    add: Seq<Seq<bool>>,
    b: Seq<Seq<bool>>,
    negate: bool,
    width: nat,
    ins: Seq<Seq<bool>>,
    outs: Seq<Seq<bool>>,
) -> bool {
    forall|xi: Seq<Seq<bool>>, xo: Seq<Seq<bool>>|
        #[trigger] is_fixpoint(into, add, b, negate, xi, xo) && sized(xi, ins.len(), width) && sized(xo, ins.len(), width)
            ==> below(ins, outs, xi, xo)
}

proof fn lemma_false_count_le(s: Seq<bool>, t: Seq<bool>)
    requires
        le_bits(s, t),
    ensures
        false_count(t) <= false_count(s),
        s != t ==> false_count(t) < false_count(s),
    decreases s.len(),
{
    if s.len() > 0 {
        let s0 = s.drop_last();
        let t0 = t.drop_last();
        assert(le_bits(s0, t0));
        lemma_false_count_le(s0, t0);
        assert(false_count(s) == false_count(s0) + if s.last() { 0nat } else { 1nat });
        assert(false_count(t) == false_count(t0) + if t.last() { 0nat } else { 1nat });
        assert(s[s.len() - 1] ==> t[s.len() - 1]);
        if s != t && s0 == t0 {
            assert(s.last() != t.last()) by {
                if s.last() == t.last() {
                    assert forall|i: int| 0 <= i < s.len() implies s[i] == t[i] by {
                        if i < s.len() - 1 {
                            assert(s[i] == s0[i]);
                            assert(t[i] == t0[i]);
                        }
                    }
                    assert(s =~= t);
                }
            }
        }
    } else {
        assert(s =~= t);
    }
}

proof fn lemma_total_false_update(s: Seq<Seq<bool>>, i: int, t: Seq<bool>)
    requires
        0 <= i < s.len(),
    ensures
        total_false(s.update(i, t)) + false_count(s[i]) == total_false(s) + false_count(t),
    decreases s.len(),
{
    if i < s.len() - 1 {
        assert(s.update(i, t).drop_last() =~= s.drop_last().update(i, t));
        lemma_total_false_update(s.drop_last(), i, t);
    } else {
        assert(s.update(i, t).drop_last() =~= s.drop_last());
    }
}

proof fn lemma_transfer_mono(s: Seq<bool>, t: Seq<bool>, add: Seq<bool>, b: Seq<bool>, negate: bool)
    requires
        le_bits(s, t),
        add.len() == s.len(),
        b.len() == s.len(),
    ensures
        le_bits(transfer(s, add, b, negate), transfer(t, add, b, negate)),
{
}

/// Solves the data-flow equations by iteration. Information flows into node `n` from
/// the nodes `into[n]`; when the output of node `m` changes, the nodes `from[m]` are
/// visited again; `order` is the initial queue. The result is the pair of inputs and
/// outputs, starting from all-clear vectors, at the least fixpoint of the equations.
pub fn solve(
    into: &Vec<Vec<usize>>,
    from: &Vec<Vec<usize>>,
    order: Vec<usize>,
    add: &Vec<Bits>,
    b: &Vec<Bits>,
    negate: bool,
    width: usize,
) -> (r: (Vec<Bits>, Vec<Bits>))
    requires
        into@.len() == from@.len(),
        add@.len() == into@.len(),
        b@.len() == into@.len(),
        forall|n: int| 0 <= n < add@.len() ==> bits_of(#[trigger] add@[n]).len() == width,
        forall|n: int| 0 <= n < b@.len() ==> bits_of(#[trigger] b@[n]).len() == width,
        forall|n: int, k: int| 0 <= n < into@.len() && 0 <= k < into@[n]@.len() ==> (#[trigger] into@[n]@[k]) < into@.len(),
        forall|n: int, k: int| 0 <= n < from@.len() && 0 <= k < from@[n]@.len() ==> (#[trigger] from@[n]@[k]) < from@.len(),
        forall|n: int, k: int| 0 <= n < into@.len() && 0 <= k < into@[n]@.len()
            ==> from@[#[trigger] into@[n]@[k] as int]@.contains(n as usize),
        forall|n: int| 0 <= n < into@.len() ==> order@.contains(#[trigger] (n as usize)),
        forall|k: int| 0 <= k < order@.len() ==> #[trigger] order@[k] < into@.len(),
    ensures
        r.0@.len() == into@.len(),
        r.1@.len() == into@.len(),
        forall|n: int| 0 <= n < into@.len() ==> bits_of(#[trigger] r.0@[n]).len() == width,
        forall|n: int| 0 <= n < into@.len() ==> bits_of(#[trigger] r.1@[n]).len() == width,
        is_fixpoint(into@.map_values(|v: Vec<usize>| v@), views(add@), views(b@), negate, views(r.0@), views(r.1@)),
        is_least(into@.map_values(|v: Vec<usize>| v@), views(add@), views(b@), negate, width as nat, views(r.0@), views(r.1@)),
{
    let n = into.len();
    let ghost intos = into@.map_values(|v: Vec<usize>| v@);
    let ghost va = views(add@);
    let ghost vb = views(b@);
    let mut ins: Vec<Bits> = Vec::new();
    let mut outs: Vec<Bits> = Vec::new();
    let mut i: usize = 0;
    while i < n
        invariant
            n == into@.len(),
            0 <= i <= n,
            ins@.len() == i,
            outs@.len() == i,
            forall|j: int| 0 <= j < i ==> bits_of(#[trigger] ins@[j]) == Seq::new(width as nat, |k: int| false),
            forall|j: int| 0 <= j < i ==> bits_of(#[trigger] outs@[j]) == Seq::new(width as nat, |k: int| false),
        decreases n - i,
    {
        ins.push(Bits::repeat(false, width));
        outs.push(Bits::repeat(false, width));
        i = i + 1;
    }
    let mut queue = order;
    let mut qi: usize = 0;
    proof {
        assert forall|j: int| 0 <= j < n implies le_bits(bits_of(#[trigger] outs@[j]), transfer(bits_of(ins@[j]), va[j], vb[j], negate)) by {
            assert(va[j] == bits_of(add@[j]));
            assert(vb[j] == bits_of(b@[j]));
        }
        assert forall|j: int| 0 <= j < n implies #[trigger] pending(queue@, 0, j as usize) by {
            assert(queue@.contains(j as usize));
        }
        assert forall|xi: Seq<Seq<bool>>, xo: Seq<Seq<bool>>|
            #[trigger] is_fixpoint(intos, va, vb, negate, xi, xo) && sized(xi, n as nat, width as nat) && sized(xo, n as nat, width as nat)
            implies below(views(ins@), views(outs@), xi, xo) by {
            assert forall|j: int| 0 <= j < n implies le_bits(#[trigger] views(ins@)[j], xi[j]) && le_bits(views(outs@)[j], xo[j]) by {
                assert(views(ins@)[j] == bits_of(ins@[j]));
                assert(views(outs@)[j] == bits_of(outs@[j]));
            }
        }
    }
    while qi < queue.len()
        invariant
            n == into@.len(),
            intos == into@.map_values(|v: Vec<usize>| v@),
            va == views(add@),
            vb == views(b@),
            into@.len() == from@.len(),
            add@.len() == n,
            b@.len() == n,
            forall|j: int| 0 <= j < n ==> bits_of(#[trigger] add@[j]).len() == width,
            forall|j: int| 0 <= j < n ==> bits_of(#[trigger] b@[j]).len() == width,
            forall|j: int, k: int| 0 <= j < n && 0 <= k < into@[j]@.len() ==> (#[trigger] into@[j]@[k]) < n,
            forall|j: int, k: int| 0 <= j < n && 0 <= k < from@[j]@.len() ==> (#[trigger] from@[j]@[k]) < n,
            forall|j: int, k: int| 0 <= j < n && 0 <= k < into@[j]@.len()
                ==> from@[#[trigger] into@[j]@[k] as int]@.contains(j as usize),
            ins@.len() == n,
            outs@.len() == n,
            0 <= qi <= queue@.len(),
            forall|k: int| 0 <= k < queue@.len() ==> #[trigger] queue@[k] < n,
            forall|j: int| 0 <= j < n ==> bits_of(#[trigger] ins@[j]).len() == width,
            forall|j: int| 0 <= j < n ==> bits_of(#[trigger] outs@[j]).len() == width,
            forall|j: int| 0 <= j < n ==> le_bits(bits_of(#[trigger] outs@[j]), transfer(bits_of(ins@[j]), va[j], vb[j], negate)),
            forall|j: int| 0 <= j < n && !pending(queue@, qi as int, j as usize)
                ==> bits_of(#[trigger] outs@[j]) == transfer(bits_of(ins@[j]), va[j], vb[j], negate),
            forall|j: int, k: int| 0 <= j < n && 0 <= k < into@[j]@.len() && !pending(queue@, qi as int, j as usize)
                ==> le_bits(bits_of(outs@[#[trigger] into@[j]@[k] as int]), bits_of(ins@[j])),
            forall|xi: Seq<Seq<bool>>, xo: Seq<Seq<bool>>|
                #[trigger] is_fixpoint(intos, va, vb, negate, xi, xo) && sized(xi, n as nat, width as nat) && sized(xo, n as nat, width as nat)
                ==> below(views(ins@), views(outs@), xi, xo),
        decreases total_false(views(outs@)), queue@.len() - qi,
    {
        let x = queue[qi];
        let ghost outs0 = outs@;
        let ghost ins0 = ins@;
        let ghost q0 = queue@;
        let mut cur = ins[x].copy();
        proof {
            assert forall|xi: Seq<Seq<bool>>, xo: Seq<Seq<bool>>|
                #[trigger] is_fixpoint(intos, va, vb, negate, xi, xo) && sized(xi, n as nat, width as nat) && sized(xo, n as nat, width as nat)
                implies below(views(ins@), views(outs@), xi, xo) && le_bits(bits_of(cur), xi[x as int]) by {
                assert(views(ins@)[x as int] == bits_of(ins@[x as int]));
            }
        }
        let mut k: usize = 0;
        while k < into[x].len()
            invariant
                x < n,
                n == into@.len(),
                ins@ == ins0,
                outs@ == outs0,
                ins@.len() == n,
                outs@.len() == n,
                forall|j: int, kk: int| 0 <= j < n && 0 <= kk < into@[j]@.len() ==> (#[trigger] into@[j]@[kk]) < n,
                forall|j: int| 0 <= j < n ==> bits_of(#[trigger] outs@[j]).len() == width,
                0 <= k <= into@[x as int]@.len(),
                bits_of(cur).len() == width,
                le_bits(bits_of(ins@[x as int]), bits_of(cur)),
                forall|kk: int| 0 <= kk < k ==> le_bits(bits_of(outs@[#[trigger] into@[x as int]@[kk] as int]), bits_of(cur)),
                intos == into@.map_values(|v: Vec<usize>| v@),
                forall|xi: Seq<Seq<bool>>, xo: Seq<Seq<bool>>|
                    #[trigger] is_fixpoint(intos, va, vb, negate, xi, xo) && sized(xi, n as nat, width as nat) && sized(xo, n as nat, width as nat)
                    ==> below(views(ins@), views(outs@), xi, xo) && le_bits(bits_of(cur), xi[x as int]),
            decreases into@[x as int]@.len() - k,
        {
            let p = into[x][k];
            let ghost before = bits_of(cur);
            cur.or_assign(&outs[p]);
            proof {
                assert forall|xi: Seq<Seq<bool>>, xo: Seq<Seq<bool>>|
                    #[trigger] is_fixpoint(intos, va, vb, negate, xi, xo) && sized(xi, n as nat, width as nat) && sized(xo, n as nat, width as nat)
                    implies below(views(ins@), views(outs@), xi, xo) && le_bits(bits_of(cur), xi[x as int]) by {
                    assert(intos[x as int] == into@[x as int]@);
                    assert(intos.len() == into@.len());
                    assert(0 <= x < intos.len());
                    assert(0 <= k < intos[x as int].len());
                    assert(intos[x as int][k as int] == p);
                    assert(le_bits(xo[p as int], xi[x as int]));
                    assert(p < views(ins@).len());
                    assert(le_bits(views(outs@)[p as int], xo[p as int]));
                    assert(views(outs@)[p as int] == bits_of(outs@[p as int]));
                }
                assert forall|kk: int| 0 <= kk < k + 1 implies le_bits(bits_of(outs@[#[trigger] into@[x as int]@[kk] as int]), bits_of(cur)) by {
                    if kk < k {
                        assert(le_bits(bits_of(outs@[into@[x as int]@[kk] as int]), before));
                    }
                }
            }
            k = k + 1;
        }
        proof {
            assert forall|xi: Seq<Seq<bool>>, xo: Seq<Seq<bool>>|
                #[trigger] is_fixpoint(intos, va, vb, negate, xi, xo) && sized(xi, n as nat, width as nat) && sized(xo, n as nat, width as nat)
                implies le_bits(bits_of(cur), xi[x as int]) by {
            }
        }
        let keep = if negate { b[x].not() } else { b[x].copy() };
        let mut new_out = cur.and(&keep);
        new_out.or_assign(&add[x]);
        let changed = !new_out.equals(&outs[x]);
        let ghost old_in = bits_of(ins@[x as int]);
        let ghost old_out = bits_of(outs@[x as int]);
        let ghost new_in = bits_of(cur);
        let ghost nout = bits_of(new_out);
        proof {
            assert(va[x as int] == bits_of(add@[x as int]));
            assert(vb[x as int] == bits_of(b@[x as int]));
            assert(nout =~= transfer(new_in, va[x as int], vb[x as int], negate));
            lemma_transfer_mono(old_in, new_in, va[x as int], vb[x as int], negate);
            assert(le_bits(old_out, nout));
            lemma_false_count_le(old_out, nout);
            lemma_total_false_update(views(outs@), x as int, nout);
            assert(views(outs@).update(x as int, nout) =~= views(outs@.update(x as int, new_out)));
        }
        ins.set(x, cur);
        outs.set(x, new_out);
        proof {
            assert forall|xi: Seq<Seq<bool>>, xo: Seq<Seq<bool>>|
                #[trigger] is_fixpoint(intos, va, vb, negate, xi, xo) && sized(xi, n as nat, width as nat) && sized(xo, n as nat, width as nat)
                implies below(views(ins@), views(outs@), xi, xo) by {
                assert(below(views(ins0), views(outs0), xi, xo));
                assert(le_bits(new_in, xi[x as int]));
                lemma_transfer_mono(new_in, xi[x as int], va[x as int], vb[x as int], negate);
                assert(xo[x as int] == transfer(xi[x as int], va[x as int], vb[x as int], negate));
                assert forall|j: int| 0 <= j < n implies le_bits(#[trigger] views(ins@)[j], xi[j]) && le_bits(views(outs@)[j], xo[j]) by {
                    assert(views(ins@)[j] == bits_of(ins@[j]));
                    assert(views(outs@)[j] == bits_of(outs@[j]));
                    if j != x {
                        assert(ins@[j] == ins0[j]);
                        assert(outs@[j] == outs0[j]);
                        assert(views(ins0)[j] == bits_of(ins0[j]));
                        assert(views(outs0)[j] == bits_of(outs0[j]));
                    }
                }
            }
        }
        if changed {
            let mut m: usize = 0;
            while m < from[x].len()
                invariant
                    x < n,
                    n == from@.len(),
                    qi < q0.len(),
                    q0.len() <= queue@.len(),
                    queue@.subrange(0, q0.len() as int) == q0,
                    forall|kk: int| 0 <= kk < queue@.len() ==> #[trigger] queue@[kk] < n,
                    forall|j: int, kk: int| 0 <= j < n && 0 <= kk < from@[j]@.len() ==> (#[trigger] from@[j]@[kk]) < n,
                    0 <= m <= from@[x as int]@.len(),
                    forall|mm: int| 0 <= mm < m ==> pending(queue@, qi as int + 1, #[trigger] from@[x as int]@[mm]),
                decreases from@[x as int]@.len() - m,
            {
                let y = from[x][m];
                let ghost qb = queue@;
                queue.push(y);
                proof {
                    assert(queue@[qb.len() as int] == y);
                    assert(queue@.subrange(0, q0.len() as int) =~= q0) by {
                        assert(qb.subrange(0, q0.len() as int) == q0);
                    }
                    assert forall|mm: int| 0 <= mm < m + 1 implies pending(queue@, qi as int + 1, #[trigger] from@[x as int]@[mm]) by {
                        if mm < m {
                            let kk = choose|kk: int| qi as int + 1 <= kk < qb.len() && qb[kk] == from@[x as int]@[mm];
                            assert(queue@[kk] == qb[kk]);
                        } else {
                            assert(qi + 1 <= q0.len() <= qb.len());
                        }
                    }
                }
                m = m + 1;
            }
        }
        proof {
            let q1 = queue@;
            assert forall|j: int| 0 <= j < n && #[trigger] pending(q0, qi as int + 1, j as usize) implies pending(q1, qi as int + 1, j as usize) by {
                let kk = choose|kk: int| qi as int + 1 <= kk < q0.len() && q0[kk] == j as usize;
                assert(q1.subrange(0, q0.len() as int)[kk] == q0[kk]);
            }
            assert forall|j: int| 0 <= j < n && !(#[trigger] pending(q1, qi as int + 1, j as usize)) && j != x implies !pending(q0, qi as int, j as usize) by {
                if pending(q0, qi as int, j as usize) {
                    let kk = choose|kk: int| qi as int <= kk < q0.len() && q0[kk] == j as usize;
                    if kk == qi {
                        assert(q0[kk] == x);
                    } else {
                        assert(pending(q0, qi as int + 1, j as usize));
                    }
                }
            }
            assert forall|j: int| 0 <= j < n implies le_bits(bits_of(#[trigger] outs@[j]), transfer(bits_of(ins@[j]), va[j], vb[j], negate)) by {
                if j != x {
                    assert(outs@[j] == outs0[j]);
                    assert(ins@[j] == ins0[j]);
                }
            }
            assert forall|j: int| 0 <= j < n && !pending(q1, qi as int + 1, j as usize)
                implies bits_of(#[trigger] outs@[j]) == transfer(bits_of(ins@[j]), va[j], vb[j], negate) by {
                if j != x {
                    assert(outs@[j] == outs0[j]);
                    assert(ins@[j] == ins0[j]);
                }
            }
            assert forall|j: int, kk: int| 0 <= j < n && 0 <= kk < into@[j]@.len() && !pending(q1, qi as int + 1, j as usize)
                implies le_bits(bits_of(outs@[#[trigger] into@[j]@[kk] as int]), bits_of(ins@[j])) by {
                let p = into@[j]@[kk];
                if j == x {
                    if p == x {
                        assert(le_bits(old_out, new_in));
                        if changed {
                            assert(from@[p as int]@.contains(j as usize));
                            let mm = choose|mm: int| 0 <= mm < from@[p as int]@.len() && from@[p as int]@[mm] == j as usize;
                            assert(pending(q1, qi as int + 1, from@[x as int]@[mm]));
                        }
                    } else {
                        assert(outs@[p as int] == outs0[p as int]);
                    }
                } else {
                    assert(ins@[j] == ins0[j]);
                    if p == x {
                        if changed {
                            assert(from@[p as int]@.contains(j as usize));
                            let mm = choose|mm: int| 0 <= mm < from@[p as int]@.len() && from@[p as int]@[mm] == j as usize;
                            assert(pending(q1, qi as int + 1, from@[x as int]@[mm]));
                        } else {
                            assert(nout == old_out);
                        }
                    } else {
                        assert(outs@[p as int] == outs0[p as int]);
                    }
                }
            }
        }
        qi = qi + 1;
    }
    proof {
        let vi = views(ins@);
        let vo = views(outs@);
        assert forall|j: int| 0 <= j < vo.len() implies #[trigger] vo[j] == transfer(vi[j], va[j], vb[j], negate) by {
            assert(!pending(queue@, qi as int, j as usize));
        }
        assert forall|j: int, k: int| 0 <= j < intos.len() && 0 <= k < intos[j].len()
            implies le_bits(vo[#[trigger] intos[j][k] as int], vi[j]) by {
            assert(!pending(queue@, qi as int, j as usize));
            assert(intos[j] == into@[j]@);
        }
    }
    (ins, outs)
}


/// A definition of a variable: the block and the position of the quadruple that writes it.
#[derive(Debug)]
pub struct Definition {
    pub block_id: usize,
    pub quad_id: usize,
    pub var: QuadrupelVar,
}

impl Clone for Definition {
    fn clone(&self) -> (r: Self)
        ensures
            r == *self,
    {
        Definition { block_id: self.block_id, quad_id: self.quad_id, var: self.var.clone() }
    }
}

/// The first `call` at or after position `i`.
pub open spec fn next_call(q: Seq<Quadrupel>, i: int) -> Option<int>
    decreases q.len() - i,
{
    if i < 0 || i >= q.len() {
        None
    } else if q[i].op == QuadrupelOp::Call {
        Some(i)
    } else {
        next_call(q, i + 1)
    }
}

/// The `call` found from `i` on lies at or after `i`.
pub proof fn lemma_next_call_ge(q: Seq<Quadrupel>, i: int)
    ensures
        next_call(q, i) is Some ==> i <= next_call(q, i)->0 < q.len() && q[next_call(q, i)->0].op == QuadrupelOp::Call,
    decreases q.len() - i,
{
    if 0 <= i < q.len() && q[i].op != QuadrupelOp::Call {
        lemma_next_call_ge(q, i + 1);
    }
}

/// The number of `param` quadruples in `[i, c)`.
pub open spec fn params_in(q: Seq<Quadrupel>, i: int, c: int) -> nat
    decreases c - i,
{
    if i >= c {
        0
    } else {
        params_in(q, i + 1, c) + if q[i].op == QuadrupelOp::Param { 1nat } else { 0nat }
    }
}

/// At most one `param` per position.
pub proof fn lemma_params_in_le(q: Seq<Quadrupel>, i: int, c: int)
    ensures
        params_in(q, i, c) <= if c > i { c - i } else { 0 },
    decreases c - i,
{
    if i < c {
        lemma_params_in_le(q, i + 1, c);
    }
}

/// The procedure entry that the `call` following position `i` calls, looked up in the
/// local table and then the global one.
pub open spec fn called_proc(q: Seq<Quadrupel>, i: int, local: SymbolTable, global: SymbolTable) -> Option<crate::table::ProcedureEntry> {
    match next_call(q, i) {
        Some(c) => match q[c].arg1 {
            QuadrupelArg::Var(QuadrupelVar::Spl(name)) => match scoped_lookup(local, Some(global), name@) {
                Some(Entry::ProcedureEntry(p)) => Some(p),
                _ => None,
            },
            _ => None,
        },
        None => None,
    }
}

/// The `param` at position `i` can be matched with a formal parameter: a `call` of a known
/// procedure follows, and the number of arguments from `i` to it is at least one and at
/// most the number of formal parameters.
pub open spec fn param_resolvable(q: Seq<Quadrupel>, i: int, local: SymbolTable, global: SymbolTable) -> bool {
    &&& called_proc(q, i, local, global) is Some
    &&& 1 <= params_in(q, i, next_call(q, i)->0)
    &&& params_in(q, i, next_call(q, i)->0) <= called_proc(q, i, local, global)->0.parameters@.len()
}

/// The formal parameter that the `param` at position `i` passes an argument for: counting
/// the arguments from `i` to the `call` as `n`, the `n`-th formal parameter from the end.
pub open spec fn param_decl(q: Seq<Quadrupel>, i: int, local: SymbolTable, global: SymbolTable) -> Parameter {
    let p = called_proc(q, i, local, global)->0;
    let n = params_in(q, i, next_call(q, i)->0);
    p.parameters@[p.parameters@.len() - n]
}

impl Quadrupel {
    /// The formal parameter that the `param` at `quad_index_param` passes an argument for.
    pub fn find_param_declaration(
        quads: &[Quadrupel],
        quad_index_param: usize,
        symbol_table: &SymbolTable,
        global_table: &SymbolTable,
    ) -> (r: Parameter)
        requires
            param_resolvable(quads@, quad_index_param as int, *symbol_table, *global_table),
        ensures
            r == param_decl(quads@, quad_index_param as int, *symbol_table, *global_table),
    {
        let ghost q = quads@;
        let ghost i0 = quad_index_param as int;
        let mut k = quad_index_param;
        let mut n: usize = 0;
        while quads[k].op != QuadrupelOp::Call
            invariant
                q == quads@,
                i0 <= k < q.len(),
                next_call(q, i0) == next_call(q, k as int),
                next_call(q, i0) is Some,
                params_in(q, i0, next_call(q, i0)->0) == n + params_in(q, k as int, next_call(q, i0)->0),
                n <= k - i0,
            decreases q.len() - k,
        {
            proof {
                lemma_next_call_ge(q, k as int);
                let c = next_call(q, i0)->0;
                assert(k < c);
                assert(params_in(q, k as int, c) == params_in(q, k + 1, c) + if q[k as int].op == QuadrupelOp::Param { 1nat } else { 0nat });
                lemma_params_in_le(q, k + 1, c);
            }
            if quads[k].op == QuadrupelOp::Param {
                n = n + 1;
            }
            k = k + 1;
            proof {
                if k >= q.len() {
                    assert(next_call(q, k as int) is None);
                }
            }
        }
        proof {
            assert(next_call(q, k as int) == Some(k as int));
        }
        let name = match &quads[k].arg1 {
            QuadrupelArg::Var(QuadrupelVar::Spl(name)) => name,
            _ => {
                proof {
                    assert(false);
                }
                return Parameter::new(String::new(), crate::types::Type::int_type(), false);
            },
        };
        match symbol_table.lookup(name, Some(global_table)) {
            Some(Entry::ProcedureEntry(p)) => {
                let len = p.parameters.len();
                p.parameters[len - n].clone()
            },
            _ => {
                proof {
                    assert(false);
                }
                Parameter::new(String::new(), crate::types::Type::int_type(), false)
            },
        }
    }
}


/// The variable that quadruple `i` defines: the variable it writes, or the variable it
/// passes to a reference parameter.
pub open spec fn quad_def(q: Seq<Quadrupel>, i: int, local: SymbolTable, global: SymbolTable) -> Option<QuadrupelVar> {
    match q[i].result {
        QuadrupelResult::Var(v) => Some(v),
        _ => if q[i].op == QuadrupelOp::Param && q[i].arg1 is Var && param_decl(q, i, local, global).is_reference {
            Some(q[i].arg1->Var_0)
        } else {
            None
        },
    }
}

/// The definitions made by the first `k` quadruples of block `bid`, in order.
pub open spec fn code_defs(bid: usize, q: Seq<Quadrupel>, k: int, local: SymbolTable, global: SymbolTable) -> Seq<Definition>
    decreases k,
{
    if k <= 0 {
        Seq::empty()
    } else {
        code_defs(bid, q, k - 1, local, global) + match quad_def(q, k - 1, local, global) {
            Some(v) => seq![Definition { block_id: bid, quad_id: (k - 1) as usize, var: v }],
            None => Seq::empty(),
        }
    }
}

/// The definitions the entry block stands for: every name of the local table, as if
/// defined at the start.
pub open spec fn start_defs(entries: Seq<(String, Entry)>) -> Seq<Definition> {
    Seq::new(entries.len(), |i: int| Definition { block_id: 0, quad_id: 0, var: QuadrupelVar::Spl(entries[i].0) })
}

/// The definitions of one block.
pub open spec fn block_defs(bid: usize, b: Block, local: SymbolTable, global: SymbolTable) -> Seq<Definition> {
    match b.content {
        BlockContent::Start => start_defs(local.entries@),
        BlockContent::Code(v) => code_defs(bid, v@, v@.len() as int, local, global),
        BlockContent::Stop => Seq::empty(),
    }
}

/// The definitions of the first `k` blocks, block by block.
pub open spec fn graph_defs(blocks: Seq<Block>, k: int, local: SymbolTable, global: SymbolTable) -> Seq<Definition>
    decreases k,
{
    if k <= 0 {
        Seq::empty()
    } else {
        graph_defs(blocks, k - 1, local, global) + block_defs((k - 1) as usize, blocks[k - 1], local, global)
    }
}

/// The definitions can be collected: the local table holds variables only, and every
/// `param` of a variable can be matched with its formal parameter.
pub open spec fn defs_ok(blocks: Seq<Block>, local: SymbolTable, global: SymbolTable) -> bool {
    &&& forall|j: int| 0 <= j < local.entries@.len() ==> (#[trigger] local.entries@[j]).1 is VariableEntry
    &&& forall|b: int, i: int| 0 <= b < blocks.len() && blocks[b].content is Code
        && 0 <= i < crate::blocks::block_code(blocks[b]).len()
        && !((#[trigger] crate::blocks::block_code(blocks[b])[i]).result is Var)
        && crate::blocks::block_code(blocks[b])[i].op == QuadrupelOp::Param
        && crate::blocks::block_code(blocks[b])[i].arg1 is Var
        ==> param_resolvable(crate::blocks::block_code(blocks[b]), i, local, global)
}

/// Whether the `param` at position `i` can be matched with a formal parameter.
pub fn param_resolvable_exec(quads: &Vec<Quadrupel>, i: usize, local: &SymbolTable, global: &SymbolTable) -> (r: bool)
    requires
        i < quads@.len(),
    ensures
        r == param_resolvable(quads@, i as int, *local, *global),
{
    let ghost q = quads@;
    let mut k = i;
    while k < quads.len() && quads[k].op != QuadrupelOp::Call
        invariant
            q == quads@,
            i <= k <= q.len(),
            next_call(q, i as int) == next_call(q, k as int),
        decreases q.len() - k,
    {
        k = k + 1;
    }
    if k == quads.len() {
        proof {
            assert(next_call(q, k as int) is None);
        }
        return false;
    }
    proof {
        assert(next_call(q, k as int) == Some(k as int));
    }
    let c = k;
    let mut j = i;
    let mut n: usize = 0;
    while j < c
        invariant
            q == quads@,
            i <= j <= c < q.len(),
            next_call(q, i as int) == Some(c as int),
            params_in(q, i as int, c as int) == n + params_in(q, j as int, c as int),
            n <= j - i,
        decreases c - j,
    {
        if quads[j].op == QuadrupelOp::Param {
            n = n + 1;
        }
        j = j + 1;
    }
    match &quads[c].arg1 {
        QuadrupelArg::Var(QuadrupelVar::Spl(name)) => {
            match local.lookup(name, Some(global)) {
                Some(Entry::ProcedureEntry(p)) => 1 <= n && n <= p.parameters.len(),
                _ => false,
            }
        },
        _ => false,
    }
}

/// Whether every `param` of a variable in `quads` that writes no variable can be matched
/// with its formal parameter.
pub fn code_params_resolvable(quads: &Vec<Quadrupel>, local: &SymbolTable, global: &SymbolTable) -> (r: bool)
    ensures
        r == (forall|i: int| 0 <= i < quads@.len() && !(quads@[i].result is Var)
            && (#[trigger] quads@[i]).op == QuadrupelOp::Param && quads@[i].arg1 is Var
            ==> param_resolvable(quads@, i, *local, *global)),
{
    let mut i: usize = 0;
    while i < quads.len()
        invariant
            0 <= i <= quads@.len(),
            forall|j: int| 0 <= j < i && !(quads@[j].result is Var)
                && (#[trigger] quads@[j]).op == QuadrupelOp::Param && quads@[j].arg1 is Var
                ==> param_resolvable(quads@, j, *local, *global),
        decreases quads@.len() - i,
    {
        let q = &quads[i];
        let writes = match &q.result {
            QuadrupelResult::Var(_) => true,
            _ => false,
        };
        let reads_var = match &q.arg1 {
            QuadrupelArg::Var(_) => true,
            _ => false,
        };
        let candidate = !writes && q.op == QuadrupelOp::Param && reads_var;
        if candidate && !param_resolvable_exec(quads, i, local, global) {
            return false;
        }
        i = i + 1;
    }
    true
}

impl BlockGraph {
    /// Whether the definitions of the graph can be collected (see `defs_ok`).
    pub fn defs_resolvable(&self, local_table: &SymbolTable, global_table: &SymbolTable) -> (r: bool)
        ensures
            r == defs_ok(self.blocks@, *local_table, *global_table),
    {
        let mut j: usize = 0;
        while j < local_table.entries.len()
            invariant
                0 <= j <= local_table.entries@.len(),
                forall|k: int| 0 <= k < j ==> (#[trigger] local_table.entries@[k]).1 is VariableEntry,
            decreases local_table.entries@.len() - j,
        {
            match &local_table.entries[j].1 {
                Entry::VariableEntry(_) => {},
                _ => {
                    return false;
                },
            }
            j = j + 1;
        }
        let mut b: usize = 0;
        while b < self.blocks.len()
            invariant
                0 <= b <= self.blocks@.len(),
                forall|k: int| 0 <= k < local_table.entries@.len() ==> (#[trigger] local_table.entries@[k]).1 is VariableEntry,
                forall|bb: int, i: int| 0 <= bb < b && self.blocks@[bb].content is Code
                    && 0 <= i < crate::blocks::block_code(self.blocks@[bb]).len()
                    && !((#[trigger] crate::blocks::block_code(self.blocks@[bb])[i]).result is Var)
                    && crate::blocks::block_code(self.blocks@[bb])[i].op == QuadrupelOp::Param
                    && crate::blocks::block_code(self.blocks@[bb])[i].arg1 is Var
                    ==> param_resolvable(crate::blocks::block_code(self.blocks@[bb]), i, *local_table, *global_table),
            decreases self.blocks@.len() - b,
        {
            match &self.blocks[b].content {
                BlockContent::Code(quads) => {
                    if !code_params_resolvable(quads, local_table, global_table) {
                        proof {
                            let i = choose|i: int| 0 <= i < quads@.len() && !(quads@[i].result is Var)
                                && (#[trigger] quads@[i]).op == QuadrupelOp::Param && quads@[i].arg1 is Var
                                && !param_resolvable(quads@, i, *local_table, *global_table);
                            assert(crate::blocks::block_code(self.blocks@[b as int])[i] == quads@[i]);
                        }
                        return false;
                    }
                },
                _ => {},
            }
            b = b + 1;
        }
        true
    }
}

impl Block {
    /// The definitions made by a block of code, in order.
    pub fn code_definitions(block_id: usize, quads: &Vec<Quadrupel>, symbol_table: &SymbolTable, global_table: &SymbolTable) -> (r: Vec<Definition>)
        requires
            forall|i: int| 0 <= i < quads@.len() && !(quads@[i].result is Var)
                && (#[trigger] quads@[i]).op == QuadrupelOp::Param && quads@[i].arg1 is Var
                ==> param_resolvable(quads@, i, *symbol_table, *global_table),
        ensures
            r@ == code_defs(block_id, quads@, quads@.len() as int, *symbol_table, *global_table),
    {
        let mut out: Vec<Definition> = Vec::new();
        let mut i: usize = 0;
        while i < quads.len()
            invariant
                0 <= i <= quads@.len(),
                forall|j: int| 0 <= j < quads@.len() && !(quads@[j].result is Var)
                    && (#[trigger] quads@[j]).op == QuadrupelOp::Param && quads@[j].arg1 is Var
                    ==> param_resolvable(quads@, j, *symbol_table, *global_table),
                out@ == code_defs(block_id, quads@, i as int, *symbol_table, *global_table),
            decreases quads@.len() - i,
        {
            let q = &quads[i];
            match &q.result {
                QuadrupelResult::Var(v) => {
                    out.push(Definition { block_id, quad_id: i, var: v.clone() });
                },
                _ => {
                    if q.op == QuadrupelOp::Param {
                        match &q.arg1 {
                            QuadrupelArg::Var(v) => {
                                let param = Quadrupel::find_param_declaration(quads.as_slice(), i, symbol_table, global_table);
                                if param.is_reference {
                                    out.push(Definition { block_id, quad_id: i, var: v.clone() });
                                }
                            },
                            _ => {},
                        }
                    }
                },
            }
            i = i + 1;
        }
        out
    }
}

impl BlockGraph {
    /// All definitions of the procedure, block by block: for the entry block one per name
    /// of the local table, for a block of code one per quadruple that writes a variable or
    /// passes one to a reference parameter.
    pub fn definitions(&self, local_table: &SymbolTable, global_table: &SymbolTable) -> (r: Vec<Definition>)
        requires
            defs_ok(self.blocks@, *local_table, *global_table),
        ensures
            r@ == graph_defs(self.blocks@, self.blocks@.len() as int, *local_table, *global_table),
    {
        let mut out: Vec<Definition> = Vec::new();
        let mut b: usize = 0;
        while b < self.blocks.len()
            invariant
                0 <= b <= self.blocks@.len(),
                defs_ok(self.blocks@, *local_table, *global_table),
                out@ == graph_defs(self.blocks@, b as int, *local_table, *global_table),
            decreases self.blocks@.len() - b,
        {
            let ghost before = out@;
            match &self.blocks[b].content {
                BlockContent::Start => {
                    let mut j: usize = 0;
                    while j < local_table.entries.len()
                        invariant
                            0 <= j <= local_table.entries@.len(),
                            out@ == before + start_defs(local_table.entries@).take(j as int),
                        decreases local_table.entries@.len() - j,
                    {
                        out.push(Definition { block_id: 0, quad_id: 0, var: QuadrupelVar::Spl(local_table.entries[j].0.clone()) });
                        proof {
                            assert(start_defs(local_table.entries@).take(j + 1) =~= start_defs(local_table.entries@).take(j as int).push(start_defs(local_table.entries@)[j as int]));
                        }
                        j = j + 1;
                    }
                    proof {
                        assert(start_defs(local_table.entries@).take(j as int) =~= start_defs(local_table.entries@));
                    }
                },
                BlockContent::Code(quads) => {
                    proof {
                        assert forall|i: int| 0 <= i < quads@.len() && !(quads@[i].result is Var)
                            && (#[trigger] quads@[i]).op == QuadrupelOp::Param && quads@[i].arg1 is Var
                            implies param_resolvable(quads@, i, *local_table, *global_table) by {
                            assert(crate::blocks::block_code(self.blocks@[b as int]) == quads@);
                        }
                    }
                    let d = Block::code_definitions(b, quads, local_table, global_table);
                    let mut d2 = d;
                    out.append(&mut d2);
                },
                BlockContent::Stop => {},
            }
            proof {
                assert(out@ =~= graph_defs(self.blocks@, b + 1, *local_table, *global_table));
            }
            b = b + 1;
        }
        out
    }
}

} // verus!
