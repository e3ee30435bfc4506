//! Basic blocks: splitting three-address code into blocks and linking them into a
//! control-flow graph.
use vstd::prelude::*;
use crate::quadrupel::{Quadrupel, QuadrupelArg, QuadrupelOp, QuadrupelResult, spec_identifier, spec_is_relop};
use crate::tarjan::Scc;
use crate::codegen_spec::{jumps_closed, labels_of, quad_jump, quad_label, targets_of};

verus! {

/// Whether a quadruple marks a jump target: operation `Default`, no operands, a label.
pub open spec fn is_label_marker(q: Quadrupel) -> bool {
    q.op == QuadrupelOp::Default && q.arg1 is Empty && q.arg2 is Empty && q.result is Label
}

/// Whether a quadruple ends a basic block by jumping.
pub open spec fn spec_is_any_jump(op: QuadrupelOp) -> bool {
    op == QuadrupelOp::Goto || spec_is_relop(op)
}

/// Where the block starting at `start` ends, scanning from `i`: after the first jump, or
/// before the first label marker past `start`, or at the end of the code.
pub open spec fn scan_end(code: Seq<Quadrupel>, start: int, i: int) -> int
    decreases code.len() - i,
{
    if i < 0 || i >= code.len() {
        code.len() as int
    } else if spec_is_any_jump(code[i].op) {
        i + 1
    } else if is_label_marker(code[i]) && i > start {
        i
    } else {
        scan_end(code, start, i + 1)
    }
}

/// The end (exclusive) of the basic block that starts at `start`.
pub open spec fn block_end(code: Seq<Quadrupel>, start: int) -> int {
    scan_end(code, start, start)
}

proof fn lemma_scan_end_bounds(code: Seq<Quadrupel>, start: int, i: int)
    requires
        0 <= start <= i,
        start < code.len(),
    ensures
        start < scan_end(code, start, i) <= code.len(),
    decreases code.len() - i,
{
    if i < code.len() && !spec_is_any_jump(code[i].op) && !(is_label_marker(code[i]) && i > start) {
        lemma_scan_end_bounds(code, start, i + 1);
    }
}

/// A block ends after its start and within the code.
pub proof fn lemma_block_end_bounds(code: Seq<Quadrupel>, start: int)
    requires
        0 <= start < code.len(),
    ensures
        start < block_end(code, start) <= code.len(),
{
    lemma_scan_end_bounds(code, start, start);
}

/// The ranges `(start, end)` of the basic blocks from `start` on, in order.
pub open spec fn block_ranges(code: Seq<Quadrupel>, start: int) -> Seq<(int, int)>
    decreases code.len() - start,
{
    if start < 0 || start >= code.len() {
        Seq::empty()
    } else {
        let e = block_end(code, start);
        proof {
            lemma_block_end_bounds(code, start);
        }
        seq![(start, e)] + block_ranges(code, e)
    }
}

/// The text of a result field: a label's name, a variable's name, or nothing.
pub open spec fn result_text(r: QuadrupelResult) -> Seq<char> {
    match r {
        QuadrupelResult::Var(v) => spec_identifier(v),
        QuadrupelResult::Label(l) => l@,
        QuadrupelResult::Empty => Seq::empty(),
    }
}

/// The text of a result field.
pub fn result_to_string(r: &QuadrupelResult) -> (s: String)
    ensures
        s@ == result_text(*r),
{
    match r {
        QuadrupelResult::Var(v) => v.to_identifier(),
        QuadrupelResult::Label(l) => l.clone(),
        QuadrupelResult::Empty => String::new(),
    }
}

/// The label of a code block that starts with quadruple `q`.
pub open spec fn start_label(q: Quadrupel) -> Option<Seq<char>> {
    if q.op == QuadrupelOp::Default {
        Some(result_text(q.result))
    } else {
        None
    }
}

/// The view of an optional string.
pub open spec fn opt_str(o: Option<String>) -> Option<Seq<char>> {
    match o {
        Some(s) => Some(s@),
        None => None,
    }
}

/// Iterates over the ranges of the basic blocks of a piece of code.
pub struct BlockStartIterator<'a> {
    code: &'a [Quadrupel],
    prev_index: usize,
}

impl<'a> BlockStartIterator<'a> {
    /// The code being split.
    pub closed spec fn code(&self) -> Seq<Quadrupel> {
        self.code@
    }

    /// Where the next block starts.
    pub closed spec fn position(&self) -> int {
        self.prev_index as int
    }

    /// The ranges that are still to come.
    pub open spec fn remaining(&self) -> Seq<(int, int)> {
        block_ranges(self.code(), self.position())
    }

    /// An iterator positioned at the start of `code`.
    pub fn new(code: &'a [Quadrupel]) -> (r: BlockStartIterator<'a>)
        ensures
            r.code() == code@,
            r.position() == 0,
    {
        BlockStartIterator { code, prev_index: 0 }
    }

    /// The range of the next basic block, if any is left: it runs from the current position
    /// to just after the first jump, or to just before the first label marker past the
    /// start, or to the end of the code.
    pub fn next(&mut self) -> (r: Option<(usize, usize)>)
        ensures
            final(self).code() == old(self).code(),
            match r {
                None => old(self).remaining().len() == 0 && final(self).position() == old(self).position(),
                Some((s, e)) => {
                    &&& old(self).remaining().len() > 0
                    &&& old(self).remaining()[0] == (s as int, e as int)
                    &&& final(self).position() == e
                    &&& final(self).remaining() == old(self).remaining().drop_first()
                },
            },
    {
        let ghost code = self.code@;
        if self.prev_index >= self.code.len() {
            return None;
        }
        let last = self.prev_index;
        let mut i = last;
        let mut end = self.code.len();
        let mut found = false;
        while i < self.code.len() && !found
            invariant
                code == self.code@,
                last == self.prev_index,
                last < code.len(),
                last <= i <= code.len(),
                found ==> end == scan_end(code, last as int, last as int),
                !found ==> end == code.len() && scan_end(code, last as int, last as int) == scan_end(code, last as int, i as int),
            decreases code.len() - i + (if found { 0int } else { 1int }),
        {
            let q = &self.code[i];
            if q.op.is_any_jump() {
                end = i + 1;
                found = true;
            } else if i > last && q.op == QuadrupelOp::Default && q.arg1.equals(&QuadrupelArg::Empty)
                && q.arg2.equals(&QuadrupelArg::Empty) && matches!(q.result, QuadrupelResult::Label(_)) {
                end = i;
                found = true;
            } else {
                i = i + 1;
            }
        }
        proof {
            lemma_block_end_bounds(code, last as int);
            assert(end == block_end(code, last as int));
            assert(block_ranges(code, last as int) == seq![(last as int, end as int)] + block_ranges(code, end as int));
            assert((seq![(last as int, end as int)] + block_ranges(code, end as int)).drop_first() =~= block_ranges(code, end as int));
        }
        self.prev_index = end;
        Some((last, end))
    }
}

/// The kind of a basic block: the entry, the exit, or a run of code.
#[derive(Debug)]
pub enum BlockContent {
    Start,
    Stop,
    Code(Vec<Quadrupel>),
}

/// A basic block with its label, if it has one.
#[derive(Debug)]
pub struct Block {
    pub label: Option<String>,
    pub content: BlockContent,
}

/// The code a block holds; the entry and the exit hold none.
pub open spec fn block_code(b: Block) -> Seq<Quadrupel> {
    match b.content {
        BlockContent::Code(v) => v@,
        _ => Seq::empty(),
    }
}

/// The label a block's last instruction jumps to unconditionally.
pub open spec fn goto_target(b: Block) -> Option<Seq<char>> {
    match b.content {
        BlockContent::Code(v) => if v@.len() > 0 && v@.last().op == QuadrupelOp::Goto {
            Some(result_text(v@.last().result))
        } else {
            None
        },
        _ => None,
    }
}

/// The label a block's last instruction jumps to conditionally.
pub open spec fn if_target(b: Block) -> Option<Seq<char>> {
    match b.content {
        BlockContent::Code(v) => if v@.len() > 0 && spec_is_relop(v@.last().op) {
            Some(result_text(v@.last().result))
        } else {
            None
        },
        _ => None,
    }
}

/// Two blocks agree in label, kind and code.
pub open spec fn same_block(a: Block, b: Block) -> bool {
    &&& opt_str(a.label) == opt_str(b.label)
    &&& same_content(a.content, b.content)
}

/// Two block contents agree in kind and code.
pub open spec fn same_content(a: BlockContent, b: BlockContent) -> bool {
    match (a, b) {
        (BlockContent::Start, BlockContent::Start) => true,
        (BlockContent::Stop, BlockContent::Stop) => true,
        (BlockContent::Code(x), BlockContent::Code(y)) => x@ == y@,
        _ => false,
    }
}

impl Clone for BlockContent {
    fn clone(&self) -> (r: Self)
        ensures
            same_content(r, *self),
    {
        match self {
            BlockContent::Start => BlockContent::Start,
            BlockContent::Stop => BlockContent::Stop,
            BlockContent::Code(v) => {
                let c = v.clone();
                proof {
                    assert(c@ =~= v@);
                }
                BlockContent::Code(c)
            },
        }
    }
}

impl Clone for Block {
    fn clone(&self) -> (r: Self)
        ensures
            same_block(r, *self),
    {
        Block { label: self.label.clone(), content: self.content.clone() }
    }
}

impl Block {
    /// A block with the given label and content.
    pub fn new(label: Option<String>, content: BlockContent) -> (r: Block)
        ensures
            r.label == label,
            r.content == content,
    {
        Block { label, content }
    }

    /// The entry block.
    pub fn new_start(label: Option<String>) -> (r: Block)
        ensures
            r.label == label,
            r.content == BlockContent::Start,
    {
        Block::new(label, BlockContent::Start)
    }

    /// The exit block.
    pub fn new_stop(label: Option<String>) -> (r: Block)
        ensures
            r.label == label,
            r.content == BlockContent::Stop,
    {
        Block::new(label, BlockContent::Stop)
    }

    /// A block of code.
    pub fn new_code(label: Option<String>, code: Vec<Quadrupel>) -> (r: Block)
        ensures
            r.label == label,
            r.content == BlockContent::Code(code),
    {
        Block::new(label, BlockContent::Code(code))
    }

    /// The target of the block's final `goto`, if it ends with one.
    pub fn contains_goto(&self) -> (r: Option<String>)
        ensures
            opt_str(r) == goto_target(*self),
    {
        match &self.content {
            BlockContent::Code(quads) => {
                if quads.len() > 0 && quads[quads.len() - 1].op == QuadrupelOp::Goto {
                    Some(result_to_string(&quads[quads.len() - 1].result))
                } else {
                    None
                }
            },
            _ => None,
        }
    }

    /// The target of the block's final conditional jump, if it ends with one.
    pub fn contains_if(&self) -> (r: Option<String>)
        ensures
            opt_str(r) == if_target(*self),
    {
        match &self.content {
            BlockContent::Code(quads) => {
                if quads.len() > 0 && quads[quads.len() - 1].op.is_relop() {
                    Some(result_to_string(&quads[quads.len() - 1].result))
                } else {
                    None
                }
            },
            _ => None,
        }
    }
}

/// The id of the last block carrying label `l`, if any.
pub open spec fn last_labelled(blocks: Seq<Block>, l: Seq<char>) -> Option<usize>
    decreases blocks.len(),
{
    if blocks.len() == 0 {
        None
    } else if opt_str(blocks.last().label) == Some(l) {
        Some((blocks.len() - 1) as usize)
    } else {
        last_labelled(blocks.drop_last(), l)
    }
}

/// Which block carries a label depends on the labels alone.
pub proof fn lemma_last_labelled_same(a: Seq<Block>, b: Seq<Block>, l: Seq<char>)
    requires
        a.len() == b.len(),
        forall|i: int| 0 <= i < a.len() ==> (#[trigger] a[i]).label == b[i].label,
    ensures
        last_labelled(a, l) == last_labelled(b, l),
    decreases a.len(),
{
    if a.len() > 0 {
        lemma_last_labelled_same(a.drop_last(), b.drop_last(), l);
    }
}

/// The id registered last under label `l` in a label table.
pub open spec fn lookup_label(t: Seq<(String, usize)>, l: Seq<char>) -> Option<usize>
    decreases t.len(),
{
    if t.len() == 0 {
        None
    } else if t.last().0@ == l {
        Some(t.last().1)
    } else {
        lookup_label(t.drop_last(), l)
    }
}

/// A list of block ids without repetitions, read as a set.
pub open spec fn id_set(v: Seq<usize>) -> Set<usize> {
    v.to_set()
}

/// The control-flow graph of one procedure's code.
#[derive(Debug)]
pub struct BlockGraph {
    pub blocks: Vec<Block>,
    /// The successors of each block, each list without repetitions.
    pub edges: Vec<Vec<usize>>,
    /// Each label with the id of the block it starts; a later entry for a label wins.
    pub label_to_id: Vec<(String, usize)>,
    pub sccs: Option<Vec<Scc>>,
}

impl BlockGraph {
    /// The graph is consistent: one successor list per block, each without repetitions and
    /// naming existing blocks, and the label table finds the last block with each label.
    pub open spec fn wf(&self) -> bool {
        &&& self.wf_shape()
        &&& forall|i: int, j: int| 0 <= i < self.edges@.len() && 0 <= j < self.edges@[i]@.len()
            ==> (#[trigger] self.edges@[i]@[j]) < self.blocks@.len()
    }

    /// The graph is well-formed but for where its edges lead: one successor list per
    /// block, none listing a block twice, and the labels registered as the blocks carry them.
    pub open spec fn wf_shape(&self) -> bool {
        &&& self.edges@.len() == self.blocks@.len()
        &&& forall|i: int| 0 <= i < self.edges@.len() ==> (#[trigger] self.edges@[i])@.no_duplicates()
        &&& forall|l: Seq<char>| lookup_label(self.label_to_id@, l) == #[trigger] last_labelled(self.blocks@, l)
    }

    /// The successors of block `i`.
    pub open spec fn succ(&self, i: int) -> Set<usize> {
        id_set(self.edges@[i]@)
    }

    /// An empty graph.
    pub fn new() -> (r: BlockGraph)
        ensures
            r.wf(),
            r.blocks@.len() == 0,
            r.label_to_id@.len() == 0,
            r.sccs is None,
    {
        BlockGraph { blocks: Vec::new(), edges: Vec::new(), label_to_id: Vec::new(), sccs: None }
    }

    /// Adds an edge from `start` to `end`.
    pub fn add_edge(&mut self, start: usize, end: usize)
        requires
            old(self).wf_shape(),
            start < old(self).blocks@.len(),
        ensures
            final(self).wf_shape(),
            old(self).wf() && end < old(self).blocks@.len() ==> final(self).wf(),
            final(self).blocks == old(self).blocks,
            final(self).label_to_id == old(self).label_to_id,
            final(self).sccs == old(self).sccs,
            final(self).succ(start as int) == old(self).succ(start as int).insert(end),
            forall|i: int| 0 <= i < final(self).edges@.len() && i != start ==> final(self).edges@[i] == old(self).edges@[i],
    {
        let ghost e0 = self.edges@[start as int]@;
        let mut present = false;
        let mut k: usize = 0;
        while k < self.edges[start].len()
            invariant
                start < self.edges@.len(),
                e0 == self.edges@[start as int]@,
                0 <= k <= e0.len(),
                present == (exists|j: int| 0 <= j < k && e0[j] == end),
            decreases e0.len() - k,
        {
            if self.edges[start][k] == end {
                present = true;
            }
            k = k + 1;
        }
        if !present {
            let mut v = Vec::new();
            std::mem::swap(&mut v, &mut self.edges[start]);
            v.push(end);
            self.edges.set(start, v);
            proof {
                assert(self.edges@[start as int]@ == e0.push(end));
                e0.lemma_push_to_set_commute(end);
                if old(self).wf() && end < old(self).blocks@.len() {
                    assert forall|i: int, j: int| 0 <= i < self.edges@.len() && 0 <= j < self.edges@[i]@.len()
                        implies (#[trigger] self.edges@[i]@[j]) < self.blocks@.len() by {
                        if i == start && j == e0.len() {
                        } else if i == start {
                            assert(self.edges@[i]@[j] == e0[j]);
                        }
                    }
                }
            }
        } else {
            proof {
                assert(id_set(e0) =~= id_set(e0).insert(end));
            }
        }
    }

    /// Removes the edge from `start` to `end`, if there is one.
    pub fn remove_edge(&mut self, start: usize, end: usize)
        requires
            old(self).wf_shape(),
            start < old(self).blocks@.len(),
        ensures
            final(self).wf_shape(),
            old(self).wf() ==> final(self).wf(),
            final(self).blocks == old(self).blocks,
            final(self).label_to_id == old(self).label_to_id,
            final(self).sccs == old(self).sccs,
            final(self).succ(start as int) == old(self).succ(start as int).remove(end),
            forall|i: int| 0 <= i < final(self).edges@.len() && i != start ==> final(self).edges@[i] == old(self).edges@[i],
    {
        let ghost e0 = self.edges@[start as int]@;
        let mut v: Vec<usize> = Vec::new();
        let mut k: usize = 0;
        while k < self.edges[start].len()
            invariant
                start < self.edges@.len(),
                e0 == self.edges@[start as int]@,
                e0.no_duplicates(),
                0 <= k <= e0.len(),
                v@.no_duplicates(),
                id_set(v@) == id_set(e0.take(k as int)).remove(end),
                forall|j: int| 0 <= j < v@.len() ==> id_set(e0).contains(#[trigger] v@[j]),
            decreases e0.len() - k,
        {
            let x = self.edges[start][k];
            proof {
                assert(e0.take(k + 1) =~= e0.take(k as int).push(x));
                e0.take(k as int).lemma_push_to_set_commute(x);
                assert(!e0.take(k as int).contains(x)) by {
                    if e0.take(k as int).contains(x) {
                        let j = choose|j: int| 0 <= j < k && e0.take(k as int)[j] == x;
                        assert(e0[j] == e0[k as int]);
                    }
                }
            }
            if x != end {
                proof {
                    assert(!id_set(e0.take(k as int)).contains(x));
                    assert(!id_set(v@).contains(x));
                    assert(!v@.contains(x));
                    v@.lemma_push_to_set_commute(x);
                }
                v.push(x);
            }
            proof {
                assert(id_set(e0.take(k + 1)).remove(end) =~= if x != end {
                    id_set(e0.take(k as int)).remove(end).insert(x)
                } else {
                    id_set(e0.take(k as int)).remove(end)
                });
            }
            k = k + 1;
        }
        proof {
            assert(e0.take(e0.len() as int) =~= e0);
        }
        self.edges.set(start, v);
        proof {
            if old(self).wf() {
                assert forall|i: int, j: int| 0 <= i < self.edges@.len() && 0 <= j < self.edges@[i]@.len()
                    implies (#[trigger] self.edges@[i]@[j]) < self.blocks@.len() by {
                    if i == start {
                        let x = self.edges@[i]@[j];
                        assert(id_set(e0).contains(x));
                        let jj = choose|jj: int| 0 <= jj < e0.len() && e0[jj] == x;
                        assert(old(self).edges@[start as int]@[jj] == x);
                    }
                }
            }
        }
    }

    /// All successor lists, one per block.
    pub fn edges(&self) -> (r: &Vec<Vec<usize>>)
        ensures
            r == &self.edges,
    {
        &self.edges
    }

    /// The id of the block carrying `label`.
    pub fn label_to_id(&self, label: &String) -> (r: usize)
        requires
            lookup_label(self.label_to_id@, label@) is Some,
        ensures
            Some(r) == lookup_label(self.label_to_id@, label@),
    {
        find_label(&self.label_to_id, label).unwrap()
    }
}

/// The id registered last under `label`, if any.
pub fn find_label(t: &Vec<(String, usize)>, label: &String) -> (r: Option<usize>)
    ensures
        r == lookup_label(t@, label@),
{
    let mut k = t.len();
    proof {
        assert(t@.take(t@.len() as int) =~= t@);
    }
    while k > 0
        invariant
            k <= t@.len(),
            lookup_label(t@, label@) == lookup_label(t@.take(k as int), label@),
        decreases k,
    {
        let ghost pre = t@.take(k as int);
        proof {
            assert(pre.drop_last() =~= t@.take(k - 1));
        }
        if t[k - 1].0 == *label {
            return Some(t[k - 1].1);
        }
        k = k - 1;
    }
    None
}


/// The successors of block `i` once its jumps are taken into account: a final `goto`
/// leads only to its target; a final conditional jump adds its target to `base`.
pub open spec fn jump_succ(blocks: Seq<Block>, t: Seq<(String, usize)>, i: int, base: Set<usize>) -> Set<usize> {
    match goto_target(blocks[i]) {
        Some(l) => Set::empty().insert(lookup_label(t, l).unwrap()),
        None => match if_target(blocks[i]) {
            Some(l) => base.insert(lookup_label(t, l).unwrap()),
            None => base,
        },
    }
}

/// The successors of block `i` in a straight chain of `n` blocks.
pub open spec fn chain_succ(n: int, i: int) -> Set<usize> {
    if i + 1 < n {
        Set::empty().insert((i + 1) as usize)
    } else {
        Set::empty()
    }
}

/// Every jump at the end of a block leads to a label that some block carries.
pub open spec fn targets_found(blocks: Seq<Block>, t: Seq<(String, usize)>) -> bool {
    &&& forall|i: int| 0 <= i < blocks.len() && (#[trigger] goto_target(blocks[i])) is Some
        ==> lookup_label(t, goto_target(blocks[i])->0) is Some
    &&& forall|i: int| 0 <= i < blocks.len() && (#[trigger] if_target(blocks[i])) is Some
        ==> lookup_label(t, if_target(blocks[i])->0) is Some
}

/// The last block with a label lies in the graph.
pub proof fn lemma_last_labelled_bound(blocks: Seq<Block>, l: Seq<char>)
    ensures
        last_labelled(blocks, l) is Some ==> last_labelled(blocks, l)->0 < blocks.len(),
        (exists|i: int| 0 <= i < blocks.len() && opt_str((#[trigger] blocks[i]).label) == Some(l))
            ==> last_labelled(blocks, l) is Some,
    decreases blocks.len(),
{
    if blocks.len() > 0 {
        lemma_last_labelled_bound(blocks.drop_last(), l);
        if exists|i: int| 0 <= i < blocks.len() && opt_str((#[trigger] blocks[i]).label) == Some(l) {
            let i = choose|i: int| 0 <= i < blocks.len() && opt_str((#[trigger] blocks[i]).label) == Some(l);
            if i < blocks.len() - 1 {
                assert(blocks.drop_last()[i] == blocks[i]);
            }
        }
    }
}

/// Copies `code[start..end]`.
fn copy_range(code: &[Quadrupel], start: usize, end: usize) -> (r: Vec<Quadrupel>)
    requires
        start <= end <= code@.len(),
    ensures
        r@ == code@.subrange(start as int, end as int),
{
    let mut v: Vec<Quadrupel> = Vec::new();
    let mut i = start;
    while i < end
        invariant
            start <= i <= end <= code@.len(),
            v@ == code@.subrange(start as int, i as int),
        decreases end - i,
    {
        v.push(code[i].clone());
        proof {
            assert(code@.subrange(start as int, i + 1) =~= code@.subrange(start as int, i as int).push(code@[i as int]));
        }
        i = i + 1;
    }
    v
}

impl BlockGraph {
    /// Appends a block, links it from `parent` if one is given, and returns its id. A
    /// labelled block is registered under its label.
    pub fn add_block(&mut self, block: Block, parent: Option<usize>) -> (r: usize)
        requires
            old(self).wf(),
            match parent {
                Some(p) => p <= old(self).blocks@.len(),
                None => true,
            },
        ensures
            final(self).wf(),
            r == old(self).blocks@.len(),
            final(self).blocks@ == old(self).blocks@.push(block),
            final(self).sccs == old(self).sccs,
            parent != Some(r) ==> final(self).edges@[r as int]@ == Seq::<usize>::empty(),
            forall|i: int| 0 <= i < old(self).edges@.len() && parent != Some(i as usize)
                ==> final(self).edges@[i] == old(self).edges@[i],
            match parent {
                Some(p) => p < r ==> final(self).succ(p as int) == old(self).succ(p as int).insert(r),
                None => true,
            },
            parent == Some(r) ==> final(self).succ(r as int) == Set::<usize>::empty().insert(r),
    {
        let id = self.blocks.len();
        let ghost b0 = self.blocks@;
        let ghost t0 = self.label_to_id@;
        let ghost gb = block;
        match &block.label {
            Some(l) => {
                self.label_to_id.push((l.clone(), id));
            },
            None => {},
        }
        self.blocks.push(block);
        self.edges.push(Vec::new());
        proof {
            assert(self.blocks@.drop_last() =~= b0);
            assert forall|l: Seq<char>| lookup_label(self.label_to_id@, l) == #[trigger] last_labelled(self.blocks@, l) by {
                assert(last_labelled(b0, l) == lookup_label(t0, l));
                assert(self.blocks@.last() == gb);
                if gb.label is Some {
                    assert(self.label_to_id@.drop_last() =~= t0);
                    assert(self.label_to_id@.last().0@ == gb.label->0@);
                } else {
                    assert(self.label_to_id@ == t0);
                }
            }
            assert forall|i: int, j: int| 0 <= i < self.edges@.len() && 0 <= j < self.edges@[i]@.len()
                implies (#[trigger] self.edges@[i]@[j]) < self.blocks@.len() by {
                assert(i < old(self).edges@.len());
                assert(self.edges@[i] == old(self).edges@[i]);
            }
            assert forall|i: int| 0 <= i < self.edges@.len() implies (#[trigger] self.edges@[i])@.no_duplicates() by {
                if i < old(self).edges@.len() {
                    assert(self.edges@[i] == old(self).edges@[i]);
                }
            }
        }
        match parent {
            Some(p) => {
                self.add_edge(p, id);
            },
            None => {},
        }
        id
    }
}

/// Positions an iterator over the blocks of `code` at its start.
pub fn phase_1(code: &[Quadrupel]) -> (r: BlockStartIterator<'_>)
    ensures
        r.code() == code@,
        r.position() == 0,
{
    BlockStartIterator::new(code)
}

/// Builds the straight-line graph of the blocks that `block_starts` yields: an entry block
/// labelled `start`, one block per range in order, an exit block labelled `stop`, each
/// linked to the next. A block of code is labelled with the result of its first
/// instruction when that instruction has operation `Default`.
pub fn phase_2(block_starts: BlockStartIterator, code: &[Quadrupel]) -> (r: BlockGraph)
    requires
        block_starts.code() == code@,
    ensures
        r.wf(),
        r.sccs is None,
        r.blocks@.len() == block_starts.remaining().len() + 2,
        opt_str(r.blocks@[0].label) == Some("start"@),
        r.blocks@[0].content is Start,
        opt_str(r.blocks@.last().label) == Some("stop"@),
        r.blocks@.last().content is Stop,
        forall|k: int| 0 <= k < block_starts.remaining().len() ==> {
            let (s, e) = #[trigger] block_starts.remaining()[k];
            &&& r.blocks@[k + 1].content is Code
            &&& block_code(r.blocks@[k + 1]) == code@.subrange(s, e)
            &&& opt_str(r.blocks@[k + 1].label) == start_label(code@[s])
        },
        forall|i: int| 0 <= i < r.blocks@.len() ==> #[trigger] r.succ(i) == chain_succ(r.blocks@.len() as int, i),
{
    let ghost rs = block_starts.remaining();
    let mut it = block_starts;
    let mut graph = BlockGraph::new();
    let mut last_id = graph.add_block(Block::new_start(Some(String::from_str("start"))), None);
    let mut done = false;
    proof {
        assert(rs.skip(0) =~= rs);
        assert(graph.succ(0) =~= Set::<usize>::empty());
    }
    while !done
        invariant
            graph.wf(),
            graph.sccs is None,
            it.code() == code@,
            rs == block_starts.remaining(),
            0 <= last_id < graph.blocks@.len(),
            graph.blocks@.len() == last_id + 1,
            last_id <= rs.len(),
            done ==> last_id == rs.len(),
            !done ==> it.remaining() == rs.skip(last_id as int),
            opt_str(graph.blocks@[0].label) == Some("start"@),
            graph.blocks@[0].content is Start,
            forall|k: int| 0 <= k < last_id ==> {
                let (s, e) = #[trigger] rs[k];
                &&& graph.blocks@[k + 1].content is Code
                &&& block_code(graph.blocks@[k + 1]) == code@.subrange(s, e)
                &&& opt_str(graph.blocks@[k + 1].label) == start_label(code@[s])
            },
            forall|i: int| 0 <= i < last_id ==> #[trigger] graph.succ(i) == Set::<usize>::empty().insert((i + 1) as usize),
            graph.succ(last_id as int) == Set::<usize>::empty(),
        decreases rs.len() - last_id + (if done { 0int } else { 1int }),
    {
        let ghost before = it.remaining();
        match it.next() {
            None => {
                done = true;
            },
            Some((start, end)) => {
                proof {
                    lemma_block_end_bounds(code@, start as int);
                    assert(before[0] == rs[last_id as int]);
                    assert(rs.skip(last_id + 1) =~= rs.skip(last_id as int).drop_first());
                }
                let label = if code[start].op == QuadrupelOp::Default {
                    Some(result_to_string(&code[start].result))
                } else {
                    None
                };
                let body = copy_range(code, start, end);
                let ghost g0 = graph;
                let blk = Block::new_code(label, body);
                let ghost gb = blk;
                let id = graph.add_block(blk, Some(last_id));
                proof {
                    assert forall|i: int| 0 <= i < id implies #[trigger] graph.succ(i) == Set::<usize>::empty().insert((i + 1) as usize) by {
                        if i < last_id {
                            assert(graph.edges@[i] == g0.edges@[i]);
                            assert(graph.succ(i) == g0.succ(i));
                        } else {
                            assert(g0.succ(i) =~= Set::<usize>::empty());
                            assert(graph.succ(i) =~= Set::<usize>::empty().insert((i + 1) as usize));
                        }
                    }
                    assert(graph.succ(id as int) =~= Set::<usize>::empty());
                    assert forall|k: int| 0 <= k < id implies {
                        let (s, e) = #[trigger] rs[k];
                        &&& graph.blocks@[k + 1].content is Code
                        &&& block_code(graph.blocks@[k + 1]) == code@.subrange(s, e)
                        &&& opt_str(graph.blocks@[k + 1].label) == start_label(code@[s])
                    } by {
                        assert(graph.blocks@[k + 1] == g0.blocks@.push(gb)[k + 1]);
                    }
                }
                last_id = id;
            },
        }
    }
    let ghost g1 = graph;
    let stop = graph.add_block(Block::new_stop(Some(String::from_str("stop"))), Some(last_id));
    proof {
        assert forall|i: int| 0 <= i < graph.blocks@.len() implies #[trigger] graph.succ(i) == chain_succ(graph.blocks@.len() as int, i) by {
            if i < last_id {
                assert(graph.edges@[i] == g1.edges@[i]);
                assert(graph.succ(i) == g1.succ(i));
                assert(graph.succ(i) =~= chain_succ(graph.blocks@.len() as int, i));
            } else if i == last_id {
                assert(g1.succ(i) =~= Set::<usize>::empty());
                assert(graph.succ(i) =~= chain_succ(graph.blocks@.len() as int, i));
            } else {
                assert(graph.succ(i) =~= Set::<usize>::empty());
                assert(graph.succ(i) =~= chain_succ(graph.blocks@.len() as int, i));
            }
        }
        assert forall|k: int| 0 <= k < rs.len() implies {
            let (s, e) = #[trigger] rs[k];
            &&& graph.blocks@[k + 1].content is Code
            &&& block_code(graph.blocks@[k + 1]) == code@.subrange(s, e)
            &&& opt_str(graph.blocks@[k + 1].label) == start_label(code@[s])
        } by {
            assert(graph.blocks@[k + 1] == g1.blocks@[k + 1]);
        }
    }
    graph
}

/// Takes the jumps into account: a block that ends with a `goto` keeps only the edge to
/// the target's block; one that ends with a conditional jump gains an edge to it.
pub fn phase_3(block_graph: BlockGraph) -> (r: BlockGraph)
    requires
        block_graph.wf(),
        targets_found(block_graph.blocks@, block_graph.label_to_id@),
    ensures
        r.wf(),
        r.blocks == block_graph.blocks,
        r.label_to_id == block_graph.label_to_id,
        r.sccs == block_graph.sccs,
        forall|i: int| 0 <= i < r.blocks@.len() ==> #[trigger] r.succ(i)
            == jump_succ(block_graph.blocks@, block_graph.label_to_id@, i, block_graph.succ(i)),
{
    let ghost g0 = block_graph;
    let mut g = block_graph;
    let mut i: usize = 0;
    while i < g.blocks.len()
        invariant
            g.wf(),
            g.blocks == g0.blocks,
            g.label_to_id == g0.label_to_id,
            g.sccs == g0.sccs,
            g0.wf(),
            targets_found(g0.blocks@, g0.label_to_id@),
            0 <= i <= g.blocks@.len(),
            forall|j: int| 0 <= j < i ==> #[trigger] g.succ(j) == jump_succ(g0.blocks@, g0.label_to_id@, j, g0.succ(j)),
            forall|j: int| i <= j < g.edges@.len() ==> #[trigger] g.edges@[j] == g0.edges@[j],
        decreases g.blocks@.len() - i,
    {
        let ghost gi = g;
        let goto = g.blocks[i].contains_goto();
        let cond = g.blocks[i].contains_if();
        match goto {
            Some(label) => {
                proof {
                    lemma_last_labelled_bound(g.blocks@, label@);
                }
                let target = find_label(&g.label_to_id, &label).unwrap();
                g.edges.set(i, Vec::new());
                proof {
                    assert forall|a: int, b: int| 0 <= a < g.edges@.len() && 0 <= b < g.edges@[a]@.len()
                        implies (#[trigger] g.edges@[a]@[b]) < g.blocks@.len() by {
                        assert(a != i);
                        assert(g.edges@[a] == gi.edges@[a]);
                    }
                    assert forall|a: int| 0 <= a < g.edges@.len() implies (#[trigger] g.edges@[a])@.no_duplicates() by {
                        if a != i {
                            assert(g.edges@[a] == gi.edges@[a]);
                        }
                    }
                }
                let ghost gm = g;
                g.add_edge(i, target);
                proof {
                    assert(gm.succ(i as int) =~= Set::<usize>::empty());
                    assert(goto_target(g0.blocks@[i as int]) == Some(label@));
                    assert(g.succ(i as int) =~= jump_succ(g0.blocks@, g0.label_to_id@, i as int, g0.succ(i as int)));
                    assert forall|j: int| 0 <= j < i + 1 implies #[trigger] g.succ(j) == jump_succ(g0.blocks@, g0.label_to_id@, j, g0.succ(j)) by {
                        if j < i {
                            assert(g.edges@[j] == gi.edges@[j]);
                            assert(g.succ(j) == gi.succ(j));
                        }
                    }
                }
            },
            None => {
                match cond {
                    Some(label) => {
                        proof {
                            lemma_last_labelled_bound(g.blocks@, label@);
                        }
                        let target = find_label(&g.label_to_id, &label).unwrap();
                        g.add_edge(i, target);
                        proof {
                            assert(goto_target(g0.blocks@[i as int]) is None);
                            assert(if_target(g0.blocks@[i as int]) == Some(label@));
                            assert(gi.edges@[i as int] == g0.edges@[i as int]);
                            assert(g.succ(i as int) =~= jump_succ(g0.blocks@, g0.label_to_id@, i as int, g0.succ(i as int)));
                            assert forall|j: int| 0 <= j < i + 1 implies #[trigger] g.succ(j) == jump_succ(g0.blocks@, g0.label_to_id@, j, g0.succ(j)) by {
                                if j < i {
                                    assert(g.edges@[j] == gi.edges@[j]);
                                    assert(g.succ(j) == gi.succ(j));
                                }
                            }
                        }
                    },
                    None => {
                        proof {
                            assert(g.succ(i as int) =~= jump_succ(g0.blocks@, g0.label_to_id@, i as int, g0.succ(i as int)));
                        }
                    },
                }
            },
        }
        proof {
            assert forall|j: int| i + 1 <= j < g.edges@.len() implies #[trigger] g.edges@[j] == g0.edges@[j] by {
                assert(g.edges@[j] == gi.edges@[j]);
            }
        }
        i = i + 1;
    }
    g
}


proof fn lemma_scan_end_before_marker(code: Seq<Quadrupel>, start: int, i: int, j: int)
    requires
        0 <= start <= i <= j < code.len(),
        start < j,
        is_label_marker(code[j]),
    ensures
        scan_end(code, start, i) <= j,
    decreases j - i,
{
    if i < j && !spec_is_any_jump(code[i].op) && !(is_label_marker(code[i]) && i > start) {
        lemma_scan_end_before_marker(code, start, i + 1, j);
    }
}

/// Every range of `block_ranges(code, p)` lies inside the code, after `p`.
pub proof fn lemma_ranges_valid(code: Seq<Quadrupel>, p: int)
    requires
        0 <= p,
    ensures
        forall|k: int| 0 <= k < block_ranges(code, p).len() ==> {
            let (s, e) = #[trigger] block_ranges(code, p)[k];
            p <= s < e <= code.len()
        },
    decreases code.len() - p,
{
    if p < code.len() {
        let e = block_end(code, p);
        lemma_block_end_bounds(code, p);
        lemma_ranges_valid(code, e);
        let r = block_ranges(code, p);
        assert(r == seq![(p, e)] + block_ranges(code, e));
        assert forall|k: int| 0 <= k < r.len() implies {
            let (s, e2) = #[trigger] r[k];
            p <= s < e2 <= code.len()
        } by {
            if k > 0 {
                assert(r[k] == block_ranges(code, e)[k - 1]);
            }
        }
    }
}

/// Every label marker at or after `p` starts one of the blocks from `p` on.
pub proof fn lemma_marker_starts_block(code: Seq<Quadrupel>, p: int, j: int)
    requires
        0 <= p <= j < code.len(),
        is_label_marker(code[j]),
    ensures
        exists|k: int| 0 <= k < block_ranges(code, p).len() && (#[trigger] block_ranges(code, p)[k]).0 == j,
    decreases code.len() - p,
{
    let e = block_end(code, p);
    lemma_block_end_bounds(code, p);
    let r = block_ranges(code, p);
    assert(r == seq![(p, e)] + block_ranges(code, e));
    if j == p {
        assert(r[0].0 == j);
    } else {
        lemma_scan_end_before_marker(code, p, p, j);
        lemma_marker_starts_block(code, e, j);
        let k = choose|k: int| 0 <= k < block_ranges(code, e).len() && (#[trigger] block_ranges(code, e)[k]).0 == j;
        assert(r[k + 1] == block_ranges(code, e)[k]);
    }
}

/// The graph that `phase_2` builds for `code`, with every block as `phase_2` promises.
pub open spec fn blocks_of(code: Seq<Quadrupel>, g: BlockGraph) -> bool {
    let rs = block_ranges(code, 0);
    &&& g.wf()
    &&& g.blocks@.len() == rs.len() + 2
    &&& g.blocks@[0].content is Start
    &&& g.blocks@.last().content is Stop
    &&& forall|k: int| 0 <= k < rs.len() ==> {
        let (s, e) = #[trigger] rs[k];
        &&& g.blocks@[k + 1].content is Code
        &&& block_code(g.blocks@[k + 1]) == code.subrange(s, e)
        &&& opt_str(g.blocks@[k + 1].label) == start_label(code[s])
    }
}

/// In the blocks of code whose jumps all lead to labels it marks, every jump at the end of
/// a block leads to a labelled block.
pub proof fn lemma_targets_found(code: Seq<Quadrupel>, g: BlockGraph)
    requires
        jumps_closed(code),
        blocks_of(code, g),
    ensures
        targets_found(g.blocks@, g.label_to_id@),
{
    let rs = block_ranges(code, 0);
    lemma_ranges_valid(code, 0);
    assert forall|i: int| 0 <= i < g.blocks@.len() && (goto_target(g.blocks@[i]) is Some || if_target(g.blocks@[i]) is Some)
        implies lookup_label(g.label_to_id@, (if goto_target(g.blocks@[i]) is Some { goto_target(g.blocks@[i]) } else { if_target(g.blocks@[i]) })->0) is Some by {
        let b = g.blocks@[i];
        let t = if goto_target(b) is Some { goto_target(b)->0 } else { if_target(b)->0 };
        let k = i - 1;
        assert(0 <= k < rs.len());
        let (s, e) = rs[k];
        assert(block_code(b) == code.subrange(s, e));
        let q = code[e - 1];
        assert(block_code(b).last() == q);
        assert(quad_jump(q) is Some);
        let l = quad_jump(q)->0;
        assert(t == l);
        assert(targets_of(code).contains(l));
        assert(labels_of(code).contains(l));
        let j = choose|j: int| 0 <= j < code.len() && quad_label(#[trigger] code[j]) == Some(l);
        lemma_marker_starts_block(code, 0, j);
        let k2 = choose|k2: int| 0 <= k2 < rs.len() && (#[trigger] rs[k2]).0 == j;
        assert(opt_str(g.blocks@[k2 + 1].label) == Some(l));
        lemma_last_labelled_bound(g.blocks@, l);
        assert(last_labelled(g.blocks@, l) is Some);
    }
}

impl BlockGraph {
    /// The control-flow graph of `code`: its basic blocks between an entry and an exit
    /// block, each linked to the next, where a block that ends with a `goto` leads only to
    /// the target's block and one that ends with a conditional jump also leads to it.
    /// Every jump must lead to a label the code marks.
    pub fn from_tac(code: &[Quadrupel]) -> (r: BlockGraph)
        requires
            jumps_closed(code@),
        ensures
            blocks_of(code@, r),
            r.sccs is None,
            opt_str(r.blocks@[0].label) == Some("start"@),
            opt_str(r.blocks@.last().label) == Some("stop"@),
            forall|i: int| 0 <= i < r.blocks@.len() ==> #[trigger] r.succ(i)
                == jump_succ(r.blocks@, r.label_to_id@, i, chain_succ(r.blocks@.len() as int, i)),
    {
        let g = phase_2(phase_1(code), code);
        proof {
            lemma_targets_found(code@, g);
        }
        phase_3(g)
    }
}

} // verus!
