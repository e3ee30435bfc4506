//! The tests behind the preconditions of the optimizations: whether the code of a graph
//! can be analysed, and whether common subexpression elimination can name its temporaries.
use vstd::prelude::*;
use crate::blocks::{Block, BlockContent, BlockGraph, block_code};
use crate::cp::{ConstantPropagation, all_undefined, code_ok, gen_of_block, graph_code_ok, prsv_of_gen, quad_vars_known};
use crate::cse::{tmps_entered, max_tmp_blocks, max_tmp_code, params_ok, tmp_name, tmps_fresh, total_len, cse_graph};
use crate::lexer::{dec_value, is_digit};
use crate::live::{collect_vars, has_var, unique_vars, var_index};
use crate::quadrupel::{Quadrupel, QuadrupelArg, QuadrupelOp, QuadrupelResult, QuadrupelVar, spec_identifier};
use crate::table::{SymbolTable, entries_map};
use crate::text::{digit_char, spec_decimal};
use crate::worklist::{defs_ok, graph_defs, param_resolvable, param_resolvable_exec};

verus! {

/// Whether the variables a quadruple reads or writes are among `vars`.
pub fn quad_vars_check(q: &Quadrupel, vars: &Vec<QuadrupelVar>) -> (r: bool)
    ensures
        r == quad_vars_known(*q, vars@),
{
    let ok1 = match &q.arg1 {
        QuadrupelArg::Var(v) => {
            let writes = match &q.result {
                QuadrupelResult::Var(_) => true,
                _ => false,
            };
            if q.op != QuadrupelOp::Call || writes {
                var_index(vars, v).is_some()
            } else {
                true
            }
        },
        _ => true,
    };
    let ok2 = match &q.arg2 {
        QuadrupelArg::Var(v) => var_index(vars, v).is_some(),
        _ => true,
    };
    let ok3 = match &q.result {
        QuadrupelResult::Var(v) => var_index(vars, v).is_some(),
        _ => true,
    };
    ok1 && ok2 && ok3
}

/// Whether a block's code can be analysed: its variables are among `vars`, and every
/// `param` can be matched with its formal parameter.
pub fn code_check(code: &Vec<Quadrupel>, vars: &Vec<QuadrupelVar>, local: &SymbolTable, global: &SymbolTable) -> (r: bool)
    ensures
        r == code_ok(code@, vars@, *local, *global),
{
    let mut i: usize = 0;
    while i < code.len()
        invariant
            0 <= i <= code@.len(),
            forall|j: int| 0 <= j < i ==> quad_vars_known(#[trigger] code@[j], vars@),
            forall|j: int| 0 <= j < i && (#[trigger] code@[j]).op == QuadrupelOp::Param ==> param_resolvable(code@, j, *local, *global),
        decreases code@.len() - i,
    {
        if !quad_vars_check(&code[i], vars) {
            return false;
        }
        if code[i].op == QuadrupelOp::Param && !param_resolvable_exec(code, i, local, global) {
            return false;
        }
        i = i + 1;
    }
    true
}

/// Whether every block of code of the graph can be analysed.
pub fn graph_code_check(blocks: &Vec<Block>, vars: &Vec<QuadrupelVar>, local: &SymbolTable, global: &SymbolTable) -> (r: bool)
    ensures
        r == graph_code_ok(blocks@, vars@, *local, *global),
{
    let mut b: usize = 0;
    while b < blocks.len()
        invariant
            0 <= b <= blocks@.len(),
            forall|j: int| 0 <= j < b ==> code_ok(block_code(#[trigger] blocks@[j]), vars@, *local, *global),
        decreases blocks@.len() - b,
    {
        match &blocks[b].content {
            BlockContent::Code(code) => {
                if !code_check(code, vars, local, global) {
                    return false;
                }
            },
            _ => {
                proof {
                    assert(block_code(blocks@[b as int]) == Seq::<Quadrupel>::empty());
                }
            },
        }
        b = b + 1;
    }
    true
}

impl ConstantPropagation {
    /// Runs the constant propagation where its preconditions hold: the definitions can be
    /// collected and every block of code can be analysed with the variables they define.
    pub fn run_checked(graph: &BlockGraph, local_table: &SymbolTable, global_table: &SymbolTable) -> (r: Option<ConstantPropagation>)
        requires
            graph.wf(),
        ensures
            r is Some <==> (defs_ok(graph.blocks@, *local_table, *global_table) && graph_code_ok(graph.blocks@,
                unique_vars(graph_defs(graph.blocks@, graph.blocks@.len() as int, *local_table, *global_table),
                    graph_defs(graph.blocks@, graph.blocks@.len() as int, *local_table, *global_table).len() as int),
                *global_table, *global_table)),
            r matches Some(cp) ==> {
                &&& cp.vars@ == unique_vars(graph_defs(graph.blocks@, graph.blocks@.len() as int, *local_table, *global_table),
                    graph_defs(graph.blocks@, graph.blocks@.len() as int, *local_table, *global_table).len() as int)
                &&& cp.ins@.len() == graph.blocks@.len()
                &&& cp.out@.len() == graph.blocks@.len()
                &&& forall|b: int| 0 <= b < graph.blocks@.len() ==> all_undefined((#[trigger] cp.ins@[b])@, cp.vars@.len())
                &&& forall|b: int| 0 <= b < graph.blocks@.len() ==> all_undefined((#[trigger] cp.out@[b])@, cp.vars@.len())
            },
    {
        if !graph.defs_resolvable(local_table, global_table) {
            return None;
        }
        let defs = graph.definitions(local_table, global_table);
        let vars = collect_vars(&defs);
        if !graph_code_check(&graph.blocks, &vars, global_table, global_table) {
            return None;
        }
        Some(ConstantPropagation::run(graph, local_table, global_table))
    }
}

/// Whether every `param` of `quads` can be matched with its formal parameter in the
/// global table.
pub fn params_check(quads: &Vec<Quadrupel>, global: &SymbolTable) -> (r: bool)
    ensures
        r == params_ok(quads@, *global),
{
    let mut i: usize = 0;
    while i < quads.len()
        invariant
            0 <= i <= quads@.len(),
            forall|j: int| 0 <= j < i && (#[trigger] quads@[j]).op == QuadrupelOp::Param ==> param_resolvable(quads@, j, *global, *global),
        decreases quads@.len() - i,
    {
        if quads[i].op == QuadrupelOp::Param && !param_resolvable_exec(quads, i, global, global) {
            return false;
        }
        i = i + 1;
    }
    true
}

/// A name in the table is the name of some entry.
proof fn lemma_entries_map_key(s: Seq<(String, crate::table::Entry)>, name: Seq<char>)
    requires
        entries_map(s).contains_key(name),
    ensures
        exists|j: int| 0 <= j < s.len() && (#[trigger] s[j]).0@ == name,
    decreases s.len(),
{
    if s.len() > 0 && s.last().0@ != name {
        lemma_entries_map_key(s.drop_last(), name);
        let j = choose|j: int| 0 <= j < s.drop_last().len() && (#[trigger] s.drop_last()[j]).0@ == name;
        assert(s[j] == s.drop_last()[j]);
    }
}

/// The decimal value of digits depends on those digits alone.
proof fn lemma_dec_value_local(s: Seq<char>, t: Seq<char>, j: int, k: int)
    requires
        0 <= j <= k <= s.len(),
        k <= t.len(),
        forall|m: int| j <= m < k ==> s[m] == t[m],
    ensures
        dec_value(s, j, k) == dec_value(t, j, k),
    decreases k - j,
{
    if k > j {
        lemma_dec_value_local(s, t, j, k - 1);
    }
}

/// The decimal text of `n`, after any prefix, consists of digits and reads back as `n`.
proof fn lemma_decimal_reads_back(p: Seq<char>, n: nat)
    ensures
        spec_decimal(n).len() >= 1,
        forall|m: int| 0 <= m < spec_decimal(n).len() ==> is_digit(#[trigger] spec_decimal(n)[m]),
        dec_value(p + spec_decimal(n), p.len() as int, (p + spec_decimal(n)).len() as int) == n,
    decreases n,
{
    let d = spec_decimal(n);
    let s = p + d;
    let x = n % 10;
    assert(digit_char(x) as int - '0' as int == x && is_digit(digit_char(x))) by {
        assert(x < 10);
    }
    if n < 10 {
        assert(s[p.len() as int] == digit_char(n));
        assert(dec_value(s, p.len() as int, p.len() as int) == 0);
        assert(dec_value(s, p.len() as int, p.len() + 1int) == dec_value(s, p.len() as int, p.len() as int) * 10
            + (s[p.len() as int] as int - '0' as int));
    } else {
        let h = spec_decimal(n / 10);
        lemma_decimal_reads_back(p, n / 10);
        assert(d == h.push(digit_char(x)));
        assert forall|m: int| 0 <= m < d.len() implies is_digit(#[trigger] d[m]) by {
            if m < h.len() {
                assert(d[m] == h[m]);
            }
        }
        assert forall|m: int| p.len() <= m < (p + h).len() implies s[m] == (p + h)[m] by {
            assert(s[m] == d[m - p.len()]);
            assert(d[m - p.len()] == h[m - p.len()]);
        }
        lemma_dec_value_local(s, p + h, p.len() as int, (p + h).len() as int);
        assert(s[s.len() - 1] == digit_char(x));
        assert(s.len() == (p + h).len() + 1);
        assert(dec_value(s, p.len() as int, s.len() as int) == dec_value(s, p.len() as int, s.len() - 1) * 10
            + (s[s.len() - 1] as int - '0' as int));
    }
}

/// `name` has the form of a temporary numbered above `last`, up to leading zeros: `T:`
/// followed by decimal digits whose value lies in `(last, usize::MAX]`.
pub open spec fn tmp_like_above(name: Seq<char>, last: nat) -> bool {
    &&& name.len() >= 3
    &&& name[0] == 'T'
    &&& name[1] == ':'
    &&& forall|m: int| 2 <= m < name.len() ==> is_digit(#[trigger] name[m])
    &&& last < dec_value(name, 2, name.len() as int) <= usize::MAX
}

/// Whether no name of the table has the form of a temporary numbered above `last` (up to
/// leading zeros). A `true` answer guarantees that no name is that of such a temporary.
pub fn tmps_fresh_check(t: &SymbolTable, last: usize) -> (r: bool)
    ensures
        r == forall|k: int| 0 <= k < t.entries@.len() ==> !tmp_like_above(#[trigger] t.entries@[k].0@, last as nat),
        r ==> tmps_fresh(*t, last as nat),
{
    let mut j: usize = 0;
    while j < t.entries.len()
        invariant
            0 <= j <= t.entries@.len(),
            forall|k: int, n: nat| 0 <= k < j && last < n <= usize::MAX ==> #[trigger] t.entries@[k].0@ != #[trigger] tmp_name(n),
            forall|k: int| 0 <= k < j ==> !tmp_like_above(#[trigger] t.entries@[k].0@, last as nat),
        decreases t.entries@.len() - j,
    {
        let key = t.entries[j].0.as_str();
        let len = key.unicode_len();
        let mut clash = false;
        if len >= 3 && key.get_char(0) == 'T' && key.get_char(1) == ':' {
            let mut k: usize = 2;
            let mut acc: u128 = 0;
            let mut big = false;
            let mut digits = true;
            while k < len
                invariant
                    2 <= k <= len,
                    len == key@.len(),
                    digits ==> forall|m: int| 2 <= m < k ==> is_digit(#[trigger] key@[m]),
                    !digits ==> exists|m: int| 2 <= m < k && !is_digit(#[trigger] key@[m]),
                    digits && !big ==> acc == dec_value(key@, 2, k as int),
                    !big ==> acc <= usize::MAX,
                    digits && big ==> dec_value(key@, 2, k as int) > usize::MAX,
                decreases len - k,
            {
                let c = key.get_char(k);
                if '0' <= c && c <= '9' {
                    proof {
                        if digits {
                            crate::lexer::lemma_dec_value_nonneg(key@, 2, k as int);
                        }
                    }
                    if !big {
                        acc = acc * 10 + (c as u32 - '0' as u32) as u128;
                        if acc > usize::MAX as u128 {
                            big = true;
                        }
                    }
                } else {
                    digits = false;
                }
                k = k + 1;
            }
            clash = digits && !big && acc > last as u128;
            proof {
                if !clash {
                    if !digits {
                        let m = choose|m: int| 2 <= m < k && !is_digit(#[trigger] key@[m]);
                    }
                }
            }
        }
        proof {
            assert(key@ == t.entries@[j as int].0@);
        }
        if clash {
            return false;
        }
        proof {
            assert forall|n: nat| last < n <= usize::MAX implies t.entries@[j as int].0@ != tmp_name(n) by {
                if t.entries@[j as int].0@ == tmp_name(n) {
                    let p = seq!['T', ':'];
                    lemma_decimal_reads_back(p, n);
                    assert(tmp_name(n) == p + spec_decimal(n as usize as nat));
                    assert(key@[0] == 'T');
                    assert(key@[1] == ':');
                    assert forall|m: int| 2 <= m < key@.len() implies is_digit(#[trigger] key@[m]) by {
                        assert(key@[m] == spec_decimal(n)[m - 2]);
                    }
                }
            }
        }
        j = j + 1;
    }
    proof {
        assert forall|n: nat| last < n <= usize::MAX implies !t@.contains_key(#[trigger] tmp_name(n)) by {
            if t@.contains_key(tmp_name(n)) {
                lemma_entries_map_key(t.entries@, tmp_name(n));
            }
        }
    }
    true
}


proof fn lemma_max_tmp_code_step(code: Seq<Quadrupel>, k: int)
    requires
        0 <= k < code.len(),
    ensures
        max_tmp_code(code, k + 1) == match code[k].result {
            QuadrupelResult::Var(QuadrupelVar::Tmp(n)) => if n > max_tmp_code(code, k) { n as nat } else { max_tmp_code(code, k) },
            _ => max_tmp_code(code, k),
        },
{
}

/// The preconditions of common subexpression elimination, as `cse_checked` tests them:
/// the highest temporary plus ten for every quadruple fits in a `usize`, every `param`
/// can be matched with its formal parameter, and no name of the table has the form of a
/// temporary above the highest one the code writes.
pub open spec fn cse_can_run(blocks: Seq<Block>, t: SymbolTable, global: SymbolTable) -> bool {
    let last = max_tmp_blocks(blocks, blocks.len() as int);
    &&& last + 10 * total_len(blocks, blocks.len() as int) <= usize::MAX
    &&& forall|b: int| 0 <= b < blocks.len() ==> params_ok(block_code(#[trigger] blocks[b]), global)
    &&& forall|k: int| 0 <= k < t.entries@.len() ==> !tmp_like_above(#[trigger] t.entries@[k].0@, last)
}

impl BlockGraph {
    /// The highest temporary the code writes, where the highest temporary plus ten for
    /// every quadruple stays within a `usize`; `None` otherwise.
    pub fn cse_bound(&self) -> (r: Option<usize>)
        ensures
            match r {
                Some(m) => m == max_tmp_blocks(self.blocks@, self.blocks@.len() as int)
                    && max_tmp_blocks(self.blocks@, self.blocks@.len() as int) + 10 * total_len(self.blocks@, self.blocks@.len() as int) <= usize::MAX,
                None => max_tmp_blocks(self.blocks@, self.blocks@.len() as int) + 10 * total_len(self.blocks@, self.blocks@.len() as int) > usize::MAX,
            },
    {
        let ghost bl = self.blocks@;
        let mut last: usize = 0;
        let mut total: u128 = 0;
        let mut b: usize = 0;
        while b < self.blocks.len()
            invariant
                bl == self.blocks@,
                0 <= b <= bl.len(),
                last == max_tmp_blocks(bl, b as int),
                total == total_len(bl, b as int),
                total <= usize::MAX,
            decreases bl.len() - b,
        {
            match &self.blocks[b].content {
                BlockContent::Code(quads) => {
                    let mut k: usize = 0;
                    let ghost before = last;
                    while k < quads.len()
                        invariant
                            0 <= k <= quads@.len(),
                            quads@ == block_code(bl[b as int]),
                            b < bl.len(),
                            last == (if max_tmp_code(quads@, k as int) > before { max_tmp_code(quads@, k as int) } else { before as nat }),
                            before == max_tmp_blocks(bl, b as int),
                        decreases quads@.len() - k,
                    {
                        proof {
                            lemma_max_tmp_code_step(quads@, k as int);
                        }
                        match &quads[k].result {
                            QuadrupelResult::Var(QuadrupelVar::Tmp(n)) => {
                                if *n > last {
                                    last = *n;
                                }
                            },
                            _ => {},
                        }
                        k = k + 1;
                    }
                    total = total + quads.len() as u128;
                },
                _ => {},
            }
            b = b + 1;
            if total > usize::MAX as u128 {
                proof {
                    lemma_total_len_le(bl, b as int, bl.len() as int);
                }
                return None;
            }
        }
        if (last as u128) + 10 * total > usize::MAX as u128 {
            None
        } else {
            Some(last)
        }
    }

    /// Eliminates common subexpressions where its preconditions hold: every `param` of the
    /// code can be matched with its formal parameter, the new temporaries fit in a `usize`,
    /// and no name of the table is that of a temporary above the highest one the code
    /// writes. Returns whether it ran; otherwise nothing changes.
    pub fn cse_checked(&mut self, symbol_table: &mut SymbolTable, global_table: &SymbolTable) -> (r: bool)
        ensures
            r == cse_can_run(old(self).blocks@, *old(symbol_table), *global_table),
            !r ==> *final(self) == *old(self) && *final(symbol_table) == *old(symbol_table),
            r ==> {
                &&& forall|b: int| 0 <= b < old(self).blocks@.len() ==> params_ok(block_code(#[trigger] old(self).blocks@[b]), *global_table)
                &&& tmps_fresh(*old(symbol_table), max_tmp_blocks(old(self).blocks@, old(self).blocks@.len() as int))
                &&& final(self).blocks@.len() == old(self).blocks@.len()
                &&& final(self).edges == old(self).edges
                &&& final(self).label_to_id == old(self).label_to_id
                &&& final(self).sccs == old(self).sccs
                &&& forall|b: int| 0 <= b < final(self).blocks@.len() ==> (#[trigger] final(self).blocks@[b]).label == old(self).blocks@[b].label
                &&& forall|b: int| 0 <= b < final(self).blocks@.len() ==> match old(self).blocks@[b].content {
                    BlockContent::Code(v) => (#[trigger] final(self).blocks@[b]).content is Code
                        && block_code(final(self).blocks@[b]) == cse_graph(old(self).blocks@, old(self).blocks@.len() as int,
                            max_tmp_blocks(old(self).blocks@, old(self).blocks@.len() as int), *global_table).0[b],
                    c => final(self).blocks@[b].content == c,
                }
                &&& forall|k: Seq<char>| #[trigger] old(symbol_table)@.contains_key(k) ==> final(symbol_table)@.contains_key(k)
                    && final(symbol_table)@[k] == old(symbol_table)@[k]
                &&& tmps_entered(*old(symbol_table), *final(symbol_table), max_tmp_blocks(old(self).blocks@, old(self).blocks@.len() as int),
                    cse_graph(old(self).blocks@, old(self).blocks@.len() as int,
                        max_tmp_blocks(old(self).blocks@, old(self).blocks@.len() as int), *global_table).1)
            },
    {
        let last = match self.cse_bound() {
            Some(m) => m,
            None => {
                return false;
            },
        };
        let mut b: usize = 0;
        while b < self.blocks.len()
            invariant
                0 <= b <= self.blocks@.len(),
                forall|j: int| 0 <= j < b ==> params_ok(block_code(#[trigger] self.blocks@[j]), *global_table),
            decreases self.blocks@.len() - b,
        {
            match &self.blocks[b].content {
                BlockContent::Code(quads) => {
                    if !params_check(quads, global_table) {
                        proof {
                            assert(!params_ok(block_code(self.blocks@[b as int]), *global_table));
                        }
                        return false;
                    }
                },
                _ => {
                    proof {
                        assert(block_code(self.blocks@[b as int]) == Seq::<Quadrupel>::empty());
                    }
                },
            }
            b = b + 1;
        }
        if !tmps_fresh_check(symbol_table, last) {
            return false;
        }
        self.common_subexpression_elimination(symbol_table, global_table);
        true
    }
}

proof fn lemma_total_len_le(blocks: Seq<Block>, i: int, j: int)
    requires
        0 <= i <= j <= blocks.len(),
    ensures
        total_len(blocks, i) <= total_len(blocks, j),
    decreases j - i,
{
    if i < j {
        lemma_total_len_le(blocks, i, j - 1);
    }
}

} // verus!
