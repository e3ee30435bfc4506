//! Dead-code elimination driven by live variables.
use vstd::prelude::*;
use crate::bits::{Bits, bits_of};
use crate::blocks::{Block, BlockContent, BlockGraph, block_code};
use crate::live::{LiveVariables, index_of_var, lemma_index_of_var_bound, var_index};
use crate::quadrupel::{Quadrupel, QuadrupelArg, QuadrupelResult, QuadrupelVar, same_quad, spec_empty_quad};

verus! {

/// A quadruple is dead when it writes an analysed variable that is not live after it.
pub open spec fn is_dead(q: Quadrupel, live: Seq<bool>, vars: Seq<QuadrupelVar>) -> bool {
    match q.result {
        QuadrupelResult::Var(v) => match index_of_var(vars, v) {
            Some(idx) => !live[idx as int],
            None => false,
        },
        _ => false,
    }
}

/// Marks an operand's variable as live, if it is an analysed variable.
pub open spec fn mark_arg(a: QuadrupelArg, live: Seq<bool>, vars: Seq<QuadrupelVar>) -> Seq<bool> {
    match a {
        QuadrupelArg::Var(v) => match index_of_var(vars, v) {
            Some(idx) => live.update(idx as int, true),
            None => live,
        },
        _ => live,
    }
}

/// The live set before a quadruple, given the one after it: a dead quadruple changes
/// nothing; any other marks the variables it reads. A write does not clear liveness.
pub open spec fn live_step(q: Quadrupel, live: Seq<bool>, vars: Seq<QuadrupelVar>) -> Seq<bool> {
    if is_dead(q, live, vars) {
        live
    } else {
        mark_arg(q.arg2, mark_arg(q.arg1, live, vars), vars)
    }
}

/// The live set before position `i`, scanning back from the end of the code where `lo`
/// is live.
pub open spec fn live_from(code: Seq<Quadrupel>, i: int, lo: Seq<bool>, vars: Seq<QuadrupelVar>) -> Seq<bool>
    decreases code.len() - i,
{
    if i < 0 || i >= code.len() {
        lo
    } else {
        live_step(code[i], live_from(code, i + 1, lo, vars), vars)
    }
}

/// The code with every dead quadruple replaced by the empty quadruple.
pub open spec fn dce_marked(code: Seq<Quadrupel>, lo: Seq<bool>, vars: Seq<QuadrupelVar>) -> Seq<Quadrupel> {
    Seq::new(code.len(), |i: int| if is_dead(code[i], live_from(code, i + 1, lo, vars), vars) { spec_empty_quad() } else { code[i] })
}

/// The code after dead-code elimination: the dead quadruples, and the empty ones, removed.
pub open spec fn dce_code(code: Seq<Quadrupel>, lo: Seq<bool>, vars: Seq<QuadrupelVar>) -> Seq<Quadrupel> {
    dce_marked(code, lo, vars).filter(|q: Quadrupel| !same_quad(q, spec_empty_quad()))
}

proof fn lemma_live_len(code: Seq<Quadrupel>, i: int, lo: Seq<bool>, vars: Seq<QuadrupelVar>)
    requires
        lo.len() == vars.len(),
    ensures
        live_from(code, i, lo, vars).len() == vars.len(),
    decreases code.len() - i,
{
    if 0 <= i < code.len() {
        lemma_live_len(code, i + 1, lo, vars);
        let q = code[i];
        if q.arg1 is Var {
            lemma_index_of_var_bound(vars, q.arg1->Var_0);
        }
        if q.arg2 is Var {
            lemma_index_of_var_bound(vars, q.arg2->Var_0);
        }
    }
}

/// Removes the dead quadruples of one block of code.
fn dce_block(code: &mut Vec<Quadrupel>, live_out: &Bits, livar: &LiveVariables)
    requires
        bits_of(*live_out).len() == livar.vars@.len(),
    ensures
        final(code)@ == dce_code(old(code)@, bits_of(*live_out), livar.vars@),
{
    let ghost c0 = code@;
    let ghost lo = bits_of(*live_out);
    let ghost vars = livar.vars@;
    let mut liveout = live_out.copy();
    let mut i = code.len();
    while i > 0
        invariant
            0 <= i <= c0.len(),
            code@.len() == c0.len(),
            lo.len() == vars.len(),
            vars == livar.vars@,
            bits_of(liveout) == live_from(c0, i as int, lo, vars),
            forall|j: int| i <= j < c0.len() ==> #[trigger] code@[j] == dce_marked(c0, lo, vars)[j],
            forall|j: int| 0 <= j < i ==> #[trigger] code@[j] == c0[j],
        decreases i,
    {
        let k = i - 1;
        proof {
            lemma_live_len(c0, i as int, lo, vars);
        }
        let dead = match &code[k].result {
            QuadrupelResult::Var(var) => match livar.get_var_idx(var) {
                Some(idx) => !liveout.get(idx),
                None => false,
            },
            _ => false,
        };
        if dead {
            code.set(k, Quadrupel::empty());
        } else {
            match &code[k].arg1 {
                QuadrupelArg::Var(v) => match var_index(&livar.vars, v) {
                    Some(idx) => liveout.set(idx, true),
                    None => {},
                },
                _ => {},
            }
            match &code[k].arg2 {
                QuadrupelArg::Var(v) => match var_index(&livar.vars, v) {
                    Some(idx) => liveout.set(idx, true),
                    None => {},
                },
                _ => {},
            }
        }
        proof {
            assert(bits_of(liveout) =~= live_from(c0, k as int, lo, vars));
        }
        i = k;
    }
    proof {
        assert(code@ =~= dce_marked(c0, lo, vars));
    }
    Quadrupel::filter_empty(code);
}

impl BlockGraph {
    /// Removes the dead quadruples of every block, scanning each block backwards from the
    /// variables live at its exit.
    pub fn dead_code_elimination(&mut self, livar: &LiveVariables)
        requires
            livar.livout@.len() == old(self).blocks@.len(),
            forall|b: int| 0 <= b < livar.livout@.len() ==> bits_of(#[trigger] livar.livout@[b]).len() == livar.vars@.len(),
        ensures
            final(self).blocks@.len() == old(self).blocks@.len(),
            final(self).edges == old(self).edges,
            final(self).label_to_id == old(self).label_to_id,
            final(self).sccs == old(self).sccs,
            forall|b: int| 0 <= b < final(self).blocks@.len() ==> (#[trigger] final(self).blocks@[b]).label == old(self).blocks@[b].label,
            forall|b: int| 0 <= b < final(self).blocks@.len() ==> match old(self).blocks@[b].content {
                BlockContent::Code(v) => (#[trigger] final(self).blocks@[b]).content is Code
                    && block_code(final(self).blocks@[b]) == dce_code(v@, bits_of(livar.livout@[b]), livar.vars@),
                c => final(self).blocks@[b].content == c,
            },
    {
        let ghost b0 = self.blocks@;
        let mut b: usize = 0;
        while b < self.blocks.len()
            invariant
                0 <= b <= b0.len(),
                self.blocks@.len() == b0.len(),
                self.edges == old(self).edges,
                self.label_to_id == old(self).label_to_id,
                self.sccs == old(self).sccs,
                b0 == old(self).blocks@,
                livar.livout@.len() == b0.len(),
                forall|j: int| 0 <= j < livar.livout@.len() ==> bits_of(#[trigger] livar.livout@[j]).len() == livar.vars@.len(),
                forall|j: int| 0 <= j < b0.len() ==> (#[trigger] self.blocks@[j]).label == b0[j].label,
                forall|j: int| b <= j < b0.len() ==> #[trigger] self.blocks@[j] == b0[j],
                forall|j: int| 0 <= j < b ==> match b0[j].content {
                    BlockContent::Code(v) => (#[trigger] self.blocks@[j]).content is Code
                        && block_code(self.blocks@[j]) == dce_code(v@, bits_of(livar.livout@[j]), livar.vars@),
                    c => self.blocks@[j].content == c,
                },
            decreases b0.len() - b,
        {
            let is_code = match &self.blocks[b].content {
                BlockContent::Code(_) => true,
                _ => false,
            };
            if is_code {
                let mut blk = Block::new_start(None);
                std::mem::swap(&mut blk, &mut self.blocks[b]);
                let ghost taken = blk;
                let Block { label, content } = blk;
                let new_content = match content {
                    BlockContent::Code(mut code) => {
                        dce_block(&mut code, &livar.livout[b], livar);
                        BlockContent::Code(code)
                    },
                    other => other,
                };
                self.blocks.set(b, Block { label, content: new_content });
                proof {
                    assert(taken == b0[b as int]);
                }
            }
            b = b + 1;
        }
    }
}

proof fn lemma_mark_keeps(a: QuadrupelArg, live: Seq<bool>, vars: Seq<QuadrupelVar>, idx: int)
    requires
        live.len() == vars.len(),
        0 <= idx < live.len(),
        live[idx],
    ensures
        mark_arg(a, live, vars).len() == live.len(),
        mark_arg(a, live, vars)[idx],
{
    if let QuadrupelArg::Var(v) = a {
        lemma_index_of_var_bound(vars, v);
    }
}

proof fn lemma_mark_sets(a: QuadrupelArg, live: Seq<bool>, vars: Seq<QuadrupelVar>)
    requires
        live.len() == vars.len(),
    ensures
        mark_arg(a, live, vars).len() == live.len(),
        forall|v: QuadrupelVar| a == QuadrupelArg::Var(v) && #[trigger] index_of_var(vars, v) is Some
            ==> mark_arg(a, live, vars)[index_of_var(vars, v)->0 as int],
{
    if let QuadrupelArg::Var(v) = a {
        lemma_index_of_var_bound(vars, v);
        assert forall|u: QuadrupelVar| a == QuadrupelArg::Var(u) && #[trigger] index_of_var(vars, u) is Some
            implies mark_arg(a, live, vars)[index_of_var(vars, u)->0 as int] by {
            assert(u == v);
        }
    }
}

/// Liveness only grows toward the start of the code: a variable live at a position is
/// live at every earlier one.
pub proof fn lemma_live_grows(code: Seq<Quadrupel>, j: int, i: int, lo: Seq<bool>, vars: Seq<QuadrupelVar>, idx: int)
    requires
        lo.len() == vars.len(),
        0 <= j <= i <= code.len(),
        0 <= idx < vars.len(),
        live_from(code, i, lo, vars)[idx],
    ensures
        live_from(code, j, lo, vars)[idx],
    decreases i - j,
{
    if j < i {
        lemma_live_grows(code, j + 1, i, lo, vars, idx);
        lemma_live_len(code, j + 1, lo, vars);
        let l = live_from(code, j + 1, lo, vars);
        let q = code[j];
        if !is_dead(q, l, vars) {
            lemma_mark_keeps(q.arg1, l, vars, idx);
            lemma_mark_keeps(q.arg2, mark_arg(q.arg1, l, vars), vars, idx);
        }
    }
}

/// Every analysed variable that a kept quadruple reads, as its first or its second
/// operand, is live before it.
pub proof fn law_kept_reads_are_live(code: Seq<Quadrupel>, i: int, lo: Seq<bool>, vars: Seq<QuadrupelVar>)
    requires
        lo.len() == vars.len(),
        0 <= i < code.len(),
        !is_dead(code[i], live_from(code, i + 1, lo, vars), vars),
    ensures
        forall|v: QuadrupelVar| code[i].arg1 == QuadrupelArg::Var(v) && #[trigger] index_of_var(vars, v) is Some
            ==> live_from(code, i, lo, vars)[index_of_var(vars, v)->0 as int],
        forall|v: QuadrupelVar| code[i].arg2 == QuadrupelArg::Var(v) && #[trigger] index_of_var(vars, v) is Some
            ==> live_from(code, i, lo, vars)[index_of_var(vars, v)->0 as int],
{
    lemma_live_len(code, i + 1, lo, vars);
    let l = live_from(code, i + 1, lo, vars);
    let q = code[i];
    lemma_mark_sets(q.arg1, l, vars);
    lemma_mark_sets(q.arg2, mark_arg(q.arg1, l, vars), vars);
    if let QuadrupelArg::Var(v) = q.arg1 {
        if index_of_var(vars, v) is Some {
            lemma_index_of_var_bound(vars, v);
            lemma_mark_keeps(q.arg2, mark_arg(q.arg1, l, vars), vars, index_of_var(vars, v)->0 as int);
        }
    }
}

/// Dead-code elimination keeps every quadruple whose variable a later kept quadruple
/// reads, as its first or its second operand.
pub proof fn law_dce_keeps_writes_read_later(code: Seq<Quadrupel>, j: int, i: int, lo: Seq<bool>, vars: Seq<QuadrupelVar>, w: QuadrupelVar)
    requires
        lo.len() == vars.len(),
        0 <= j < i < code.len(),
        code[j].result == QuadrupelResult::Var(w),
        index_of_var(vars, w) is Some,
        dce_marked(code, lo, vars)[i] == code[i],
        !same_quad(code[i], spec_empty_quad()),
        (code[i].arg1 matches QuadrupelArg::Var(v) && index_of_var(vars, v) == index_of_var(vars, w))
            || (code[i].arg2 matches QuadrupelArg::Var(v) && index_of_var(vars, v) == index_of_var(vars, w)),
    ensures
        dce_marked(code, lo, vars)[j] == code[j],
        !is_dead(code[j], live_from(code, j + 1, lo, vars), vars),
{
    let idx = index_of_var(vars, w)->0 as int;
    lemma_index_of_var_bound(vars, w);
    if is_dead(code[i], live_from(code, i + 1, lo, vars), vars) {
        assert(dce_marked(code, lo, vars)[i] == spec_empty_quad());
        assert(same_quad(spec_empty_quad(), spec_empty_quad()));
    }
    law_kept_reads_are_live(code, i, lo, vars);
    lemma_live_grows(code, j + 1, i, lo, vars, idx);
}

} // verus!
