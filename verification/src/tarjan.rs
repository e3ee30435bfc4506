//! Strongly connected components of a block graph, nested by the loops they form.
use vstd::prelude::*;
use crate::blocks::BlockGraph;
use crate::reaching::vec_contains;

verus! {

/// A strongly connected component of more than one block, with the component it lies in
/// and the components found inside it.
#[derive(Debug, Clone)]
pub struct Scc {
    pub nodes: Vec<usize>,
    pub parent_idx: Option<usize>,
    pub children_idx: Vec<usize>,
}

impl Scc {
    /// A component with no children yet.
    pub fn new(nodes: Vec<usize>, parent_idx: Option<usize>) -> (r: Scc)
        ensures
            r.nodes == nodes,
            r.parent_idx == parent_idx,
            r.children_idx@ == Seq::<usize>::empty(),
    {
        Scc { nodes, parent_idx, children_idx: Vec::new() }
    }
}

/// The ids rise strictly.
pub open spec fn strictly_sorted(s: Seq<usize>) -> bool {
    forall|i: int, j: int| 0 <= i < j < s.len() ==> s[i] < s[j]
}

/// `a` lies strictly between the first and the last id of `b`.
pub open spec fn inside(a: Seq<usize>, b: Seq<usize>) -> bool {
    &&& a.len() > 0
    &&& b.len() > 0
    &&& b[0] < a[0]
    &&& a.last() < b.last()
}

/// The indices `from, from + 1, .., from + len - 1`.
pub open spec fn index_run(from: int, len: nat) -> Seq<usize> {
    Seq::new(len, |j: int| (from + j) as usize)
}

/// Component `k` of `s` is a sorted run of at least two ids within `[lo, hi)`; its parent is
/// `parent` or an earlier component, from `base` on, that encloses it; and its children are
/// the components that follow it directly, each enclosed by it.
pub open spec fn scc_shape(s: Seq<Scc>, k: int, lo: int, hi: int, parent: Option<usize>, base: int) -> bool {
    let nodes = s[k].nodes@;
    let ch = s[k].children_idx@;
    &&& strictly_sorted(nodes)
    &&& nodes.len() >= 2
    &&& lo <= nodes[0]
    &&& nodes.last() < hi
    &&& (s[k].parent_idx == parent || (s[k].parent_idx matches Some(p) && base <= p < k
        && inside(nodes, s[p as int].nodes@)))
    &&& ch == index_run(k + 1, ch.len())
    &&& k + 1 + ch.len() <= s.len()
    &&& forall|j: int| 0 <= j < ch.len() ==> inside(s[#[trigger] ch[j] as int].nodes@, nodes)
}

/// `new` keeps the components of `old` and adds components shaped for `[lo, hi)` and `parent`.
pub open spec fn new_sccs_ok(old: Seq<Scc>, new: Seq<Scc>, lo: int, hi: int, parent: Option<usize>) -> bool {
    &&& old.len() <= new.len()
    &&& forall|k: int| 0 <= k < old.len() ==> #[trigger] new[k] == old[k]
    &&& forall|k: int| old.len() <= k < new.len() ==> #[trigger] scc_shape(new, k, lo, hi, parent, old.len() as int)
}

/// The components of a graph with `n` blocks form a hierarchy: each is a sorted run of at
/// least two block ids, a component's parent comes before it and encloses it, and its
/// children follow it and lie inside it.
pub open spec fn sccs_nested(s: Seq<Scc>, n: int) -> bool {
    forall|k: int| 0 <= k < s.len() ==> #[trigger] scc_shape(s, k, 0, n, None, 0)
}

/// `p` is a path of at least one block, every block in `[lo, hi)`, each block followed by
/// one of its successors.
pub open spec fn is_path(edges: Seq<Vec<usize>>, lo: int, hi: int, p: Seq<usize>) -> bool {
    &&& p.len() >= 1
    &&& forall|k: int| 0 <= k < p.len() ==> lo <= #[trigger] p[k] < hi && p[k] < edges.len()
    &&& forall|k: int| 0 <= k < p.len() - 1 ==> #[trigger] edges[p[k] as int]@.contains(p[k + 1])
}

/// Block `b` can be reached from block `a` through blocks of `[lo, hi)`.
pub open spec fn reaches(edges: Seq<Vec<usize>>, lo: int, hi: int, a: usize, b: usize) -> bool {
    exists|p: Seq<usize>| #[trigger] is_path(edges, lo, hi, p) && p[0] == a && p.last() == b
}

/// Every block of `nodes` can be reached from every other through blocks of `[lo, hi)`.
pub open spec fn strongly_connected(edges: Seq<Vec<usize>>, lo: int, hi: int, nodes: Seq<usize>) -> bool {
    forall|i: int, j: int| 0 <= i < nodes.len() && 0 <= j < nodes.len()
        ==> reaches(edges, lo, hi, #[trigger] nodes[i], #[trigger] nodes[j])
}

proof fn lemma_reach_refl(edges: Seq<Vec<usize>>, lo: int, hi: int, a: usize)
    requires
        lo <= a < hi,
        a < edges.len(),
    ensures
        reaches(edges, lo, hi, a, a),
{
    let p = seq![a];
    assert(is_path(edges, lo, hi, p));
}

proof fn lemma_reach_trans(edges: Seq<Vec<usize>>, lo: int, hi: int, a: usize, b: usize, c: usize)
    requires
        reaches(edges, lo, hi, a, b),
        reaches(edges, lo, hi, b, c),
    ensures
        reaches(edges, lo, hi, a, c),
{
    let p = choose|p: Seq<usize>| #[trigger] is_path(edges, lo, hi, p) && p[0] == a && p.last() == b;
    let q = choose|q: Seq<usize>| #[trigger] is_path(edges, lo, hi, q) && q[0] == b && q.last() == c;
    let r = p + q.skip(1);
    assert forall|k: int| 0 <= k < r.len() implies lo <= #[trigger] r[k] < hi && r[k] < edges.len() by {
        if k < p.len() {
            assert(r[k] == p[k]);
        } else {
            assert(r[k] == q[k - p.len() + 1]);
        }
    }
    assert forall|k: int| 0 <= k < r.len() - 1 implies #[trigger] edges[r[k] as int]@.contains(r[k + 1]) by {
        if k < p.len() - 1 {
            assert(r[k] == p[k] && r[k + 1] == p[k + 1]);
        } else if k == p.len() - 1 {
            assert(r[k] == p[k]);
            assert(p[k] == q[0]);
            assert(r[k + 1] == q[1]);
            assert(edges[q[0] as int]@.contains(q[1]));
        } else {
            let m = k - p.len() + 1;
            assert(r[k] == q[m] && r[k + 1] == q[m + 1]);
        }
    }
    assert(is_path(edges, lo, hi, r));
    if q.len() == 1 {
        assert(r =~= p);
    } else {
        assert(r.last() == q.last());
    }
}

proof fn lemma_reach_edge(edges: Seq<Vec<usize>>, lo: int, hi: int, a: usize, b: usize, c: usize)
    requires
        lo <= a < hi,
        a < edges.len(),
        edges[a as int]@.contains(b),
        reaches(edges, lo, hi, b, c),
    ensures
        reaches(edges, lo, hi, a, c),
{
    let q = choose|q: Seq<usize>| #[trigger] is_path(edges, lo, hi, q) && q[0] == b && q.last() == c;
    let p = seq![a, b];
    assert(is_path(edges, lo, hi, p));
    lemma_reach_trans(edges, lo, hi, a, b, c);
}

proof fn lemma_reach_widen(edges: Seq<Vec<usize>>, lo: int, hi: int, lo2: int, hi2: int, a: usize, b: usize)
    requires
        reaches(edges, lo, hi, a, b),
        lo2 <= lo,
        hi <= hi2,
    ensures
        reaches(edges, lo2, hi2, a, b),
{
    let p = choose|p: Seq<usize>| #[trigger] is_path(edges, lo, hi, p) && p[0] == a && p.last() == b;
    assert(is_path(edges, lo2, hi2, p));
}

/// Block `x` has been searched and taken off the stack.
pub open spec fn is_done(m: Seq<Option<usize>>, onst: Seq<bool>, x: int) -> bool {
    m[x] is Some && !onst[x]
}

/// Every successor of block `u` in `[lo, hi)` has been searched, and where it is still on
/// the stack its number is at least `low`.
pub open spec fn succ_seen(edges: Seq<Vec<usize>>, lo: int, hi: int, m: Seq<Option<usize>>, onst: Seq<bool>, low: int, u: int) -> bool {
    forall|v: usize| lo <= v < hi && #[trigger] edges[u]@.contains(v)
        ==> m[v as int] is Some && (onst[v as int] ==> low <= m[v as int]->0)
}

/// The finished blocks are closed under the successors in `[lo, hi)`.
pub open spec fn done_closed(edges: Seq<Vec<usize>>, lo: int, hi: int, m: Seq<Option<usize>>, onst: Seq<bool>) -> bool {
    forall|u: int, v: usize| 0 <= u < m.len() && is_done(m, onst, u) && lo <= v < hi && #[trigger] edges[u]@.contains(v)
        ==> is_done(m, onst, v as int)
}

/// Blocks `x` and `y` can each be reached from the other through blocks of `[lo, hi)`.
pub open spec fn mutual(edges: Seq<Vec<usize>>, lo: int, hi: int, x: usize, y: usize) -> bool {
    reaches(edges, lo, hi, x, y) && reaches(edges, lo, hi, y, x)
}

/// Some component among `sccs[from..]` with parent `parent` holds both `x` and `y`.
pub open spec fn pair_recorded(sccs: Seq<Scc>, from: int, parent: Option<usize>, x: usize, y: usize) -> bool {
    exists|k: int| from <= k < sccs.len() && (#[trigger] sccs[k]).parent_idx == parent
        && sccs[k].nodes@.contains(x) && sccs[k].nodes@.contains(y)
}

/// The blocks of the components among `sccs[from..]` with parent `parent` are finished.
pub open spec fn level_done(sccs: Seq<Scc>, from: int, parent: Option<usize>, m: Seq<Option<usize>>, onst: Seq<bool>) -> bool {
    forall|k: int, j: int| from <= k < sccs.len() && sccs[k].parent_idx == parent && 0 <= j < sccs[k].nodes@.len()
        ==> is_done(m, onst, #[trigger] sccs[k].nodes@[j] as int)
}

/// The blocks of the components among `sccs[from..]` with parent `parent` were not yet
/// searched in `m0`.
pub open spec fn level_fresh(sccs: Seq<Scc>, from: int, parent: Option<usize>, m0: Seq<Option<usize>>) -> bool {
    forall|k: int, j: int| from <= k < sccs.len() && sccs[k].parent_idx == parent && 0 <= j < sccs[k].nodes@.len()
        ==> m0[#[trigger] sccs[k].nodes@[j] as int] is None
}

/// No block lies in two of the components among `sccs[from..]` with parent `parent`.
pub open spec fn level_disjoint(sccs: Seq<Scc>, from: int, parent: Option<usize>) -> bool {
    forall|k1: int, k2: int, x: usize| from <= k1 < k2 < sccs.len() && sccs[k1].parent_idx == parent
        && sccs[k2].parent_idx == parent && #[trigger] sccs[k1].nodes@.contains(x)
        ==> !#[trigger] sccs[k2].nodes@.contains(x)
}

/// In a graph whose finished blocks are closed under successors, whatever a finished
/// block reaches is finished.
proof fn lemma_done_reach(edges: Seq<Vec<usize>>, lo: int, hi: int, m: Seq<Option<usize>>, onst: Seq<bool>, x: usize, y: usize)
    requires
        done_closed(edges, lo, hi, m, onst),
        m.len() == onst.len(),
        edges.len() <= m.len(),
        reaches(edges, lo, hi, x, y),
        (x as int) < m.len(),
        is_done(m, onst, x as int),
    ensures
        is_done(m, onst, y as int),
{
    let p = choose|p: Seq<usize>| #[trigger] is_path(edges, lo, hi, p) && p[0] == x && p.last() == y;
    lemma_done_along(edges, lo, hi, m, onst, p, 0);
}

proof fn lemma_done_along(edges: Seq<Vec<usize>>, lo: int, hi: int, m: Seq<Option<usize>>, onst: Seq<bool>, p: Seq<usize>, k: int)
    requires
        done_closed(edges, lo, hi, m, onst),
        edges.len() <= m.len(),
        is_path(edges, lo, hi, p),
        0 <= k < p.len(),
        is_done(m, onst, p[k] as int),
    ensures
        is_done(m, onst, p.last() as int),
    decreases p.len() - k,
{
    if k < p.len() - 1 {
        assert(edges[p[k] as int]@.contains(p[k + 1]));
        assert(lo <= p[k + 1] < hi);
        assert((p[k] as int) < edges.len());
        lemma_done_along(edges, lo, hi, m, onst, p, k + 1);
    }
}

proof fn lemma_succ_seen_later(edges: Seq<Vec<usize>>, lo: int, hi: int, m: Seq<Option<usize>>, onst: Seq<bool>,
    m2: Seq<Option<usize>>, onst2: Seq<bool>, low: int, low2: int, u: int)
    requires
        succ_seen(edges, lo, hi, m, onst, low, u),
        visits_kept(m, m2),
        m.len() == onst.len(),
        forall|x: int| 0 <= x < m.len() && is_done(m, onst, x) ==> !onst2[x],
        low2 <= low,
        hi <= m.len(),
    ensures
        succ_seen(edges, lo, hi, m2, onst2, low2, u),
{
    assert forall|v: usize| lo <= v < hi && #[trigger] edges[u]@.contains(v)
        implies m2[v as int] is Some && (onst2[v as int] ==> low2 <= m2[v as int]->0) by {
        assert(m[v as int] is Some);
        assert(m2[v as int] == m[v as int]);
        if onst2[v as int] {
            assert(!is_done(m, onst, v as int));
        }
    }
}

proof fn lemma_pop_closed(edges: Seq<Vec<usize>>, lo: int, hi: int, m: Seq<Option<usize>>, onp: Seq<bool>, onq: Seq<bool>, low: int)
    requires
        done_closed(edges, lo, hi, m, onp),
        m.len() == onp.len(),
        m.len() == onq.len(),
        hi <= m.len(),
        forall|x: int| 0 <= x < m.len() && onq[x] ==> onp[x],
        forall|x: int| 0 <= x < m.len() && onp[x] && !onq[x] ==> succ_seen(edges, lo, hi, m, onp, low, x),
        forall|x: int| 0 <= x < m.len() && onp[x] && m[x] is Some && low <= m[x]->0 ==> !onq[x],
    ensures
        done_closed(edges, lo, hi, m, onq),
{
    assert forall|u: int, v: usize| 0 <= u < m.len() && is_done(m, onq, u) && lo <= v < hi && #[trigger] edges[u]@.contains(v)
        implies is_done(m, onq, v as int) by {
        if onp[u] {
            assert(succ_seen(edges, lo, hi, m, onp, low, u));
            assert(m[v as int] is Some);
        } else {
            assert(is_done(m, onp, u));
            assert(is_done(m, onp, v as int));
        }
    }
}

/// How many entries are set.
pub open spec fn count_some(s: Seq<Option<usize>>) -> nat
    decreases s.len(),
{
    if s.len() == 0 {
        0
    } else {
        count_some(s.drop_last()) + if s.last() is Some { 1nat } else { 0nat }
    }
}

proof fn lemma_count_some_bound(s: Seq<Option<usize>>, i: int)
    requires
        0 <= i < s.len(),
        s[i] is None,
    ensures
        count_some(s) < s.len(),
    decreases s.len(),
{
    lemma_count_some_le(s.drop_last());
    if i < s.len() - 1 {
        lemma_count_some_bound(s.drop_last(), i);
    }
}

proof fn lemma_count_some_le(s: Seq<Option<usize>>)
    ensures
        count_some(s) <= s.len(),
    decreases s.len(),
{
    if s.len() > 0 {
        lemma_count_some_le(s.drop_last());
    }
}

proof fn lemma_count_some_update(s: Seq<Option<usize>>, i: int, v: usize)
    requires
        0 <= i < s.len(),
        s[i] is None,
    ensures
        count_some(s.update(i, Some(v))) == count_some(s) + 1,
    decreases s.len(),
{
    let t = s.update(i, Some(v));
    if i == s.len() - 1 {
        assert(t.drop_last() =~= s.drop_last());
    } else {
        assert(t.drop_last() =~= s.drop_last().update(i, Some(v)));
        lemma_count_some_update(s.drop_last(), i, v);
    }
}

/// The search state of one run over `[lo, hi)` in a graph of `n` blocks: `index` counts the
/// visited blocks, the stack holds distinct visited blocks of the range, and `on_stack`
/// marks exactly the blocks on it.
pub open spec fn dfs_ok(
    n: int,
    lo: int,
    hi: int,
    index: int,
    index_map: Seq<Option<usize>>,
    lowlink: Seq<usize>,
    on_stack: Seq<bool>,
    stack: Seq<usize>,
) -> bool {
    &&& index_map.len() == n
    &&& lowlink.len() == n
    &&& on_stack.len() == n
    &&& index == count_some(index_map)
    &&& stack.no_duplicates()
    &&& forall|j: int| 0 <= j < stack.len() ==> lo <= #[trigger] stack[j] < hi
    &&& forall|j: int| 0 <= j < stack.len() ==> hi <= n && (#[trigger] index_map[stack[j] as int]) is Some
    &&& forall|x: int| 0 <= x < n ==> (#[trigger] on_stack[x] <==> stack.contains(x as usize))
    &&& forall|x: int| 0 <= x < n && (#[trigger] index_map[x]) is Some ==> index_map[x]->0 < index
    &&& forall|i: int, j: int| 0 <= i < j < stack.len()
        ==> index_map[#[trigger] stack[i] as int]->0 < index_map[#[trigger] stack[j] as int]->0
}

/// Visited blocks stay visited with the same number.
pub open spec fn visits_kept(a: Seq<Option<usize>>, b: Seq<Option<usize>>) -> bool {
    &&& a.len() == b.len()
    &&& forall|x: int| 0 <= x < a.len() && (#[trigger] a[x]) is Some ==> b[x] == a[x]
}

proof fn lemma_new_sccs_trans(a: Seq<Scc>, b: Seq<Scc>, c: Seq<Scc>, lo: int, hi: int, parent: Option<usize>)
    requires
        new_sccs_ok(a, b, lo, hi, parent),
        new_sccs_ok(b, c, lo, hi, parent),
    ensures
        new_sccs_ok(a, c, lo, hi, parent),
{
    assert forall|k: int| a.len() <= k < c.len() implies #[trigger] scc_shape(c, k, lo, hi, parent, a.len() as int) by {
        if k < b.len() {
            assert(scc_shape(b, k, lo, hi, parent, a.len() as int));
            assert(c[k] == b[k]);
            let ch = b[k].children_idx@;
            assert forall|j: int| 0 <= j < ch.len() implies inside(c[#[trigger] ch[j] as int].nodes@, c[k].nodes@) by {
                assert(ch[j] < b.len());
                assert(c[ch[j] as int] == b[ch[j] as int]);
            }
            match b[k].parent_idx {
                Some(p) => {
                    if b[k].parent_idx != parent {
                        assert(c[p as int] == b[p as int]);
                    }
                },
                None => {},
            }
        } else {
            assert(scc_shape(c, k, lo, hi, parent, b.len() as int));
        }
    }
}

/// The members of `comp`, in rising order.
fn sort_members(comp: &Vec<usize>, lo: usize, hi: usize) -> (r: Vec<usize>)
    requires
        lo <= hi,
        forall|j: int| 0 <= j < comp@.len() ==> lo <= #[trigger] comp@[j] < hi,
    ensures
        strictly_sorted(r@),
        forall|x: usize| r@.contains(x) <==> comp@.contains(x),
        forall|j: int| 0 <= j < r@.len() ==> lo <= #[trigger] r@[j] < hi,
{
    let mut r: Vec<usize> = Vec::new();
    let mut x = lo;
    while x < hi
        invariant
            lo <= x <= hi,
            strictly_sorted(r@),
            forall|j: int| 0 <= j < r@.len() ==> lo <= #[trigger] r@[j] < x,
            forall|y: usize| y < x ==> (r@.contains(y) <==> comp@.contains(y)),
            forall|j: int| 0 <= j < comp@.len() ==> lo <= #[trigger] comp@[j] < hi,
        decreases hi - x,
    {
        let ghost r0 = r@;
        if vec_contains(comp, x) {
            r.push(x);
        }
        proof {
            assert forall|y: usize| y < x + 1 implies (r@.contains(y) <==> comp@.contains(y)) by {
                if y < x {
                    if r@.contains(y) {
                        let j = choose|j: int| 0 <= j < r@.len() && r@[j] == y;
                        assert(j < r0.len());
                        assert(r0[j] == y);
                    }
                    if r0.contains(y) {
                        let j = choose|j: int| 0 <= j < r0.len() && r0[j] == y;
                        assert(r@[j] == y);
                    }
                } else {
                    if comp@.contains(x) {
                        assert(r@[r@.len() - 1] == x);
                    } else {
                        if r@.contains(y) {
                            let j = choose|j: int| 0 <= j < r@.len() && r@[j] == y;
                            assert(r0[j] == y);
                        }
                    }
                }
            }
        }
        x = x + 1;
    }
    proof {
        assert forall|y: usize| r@.contains(y) <==> comp@.contains(y) by {
            if y >= hi {
                if r@.contains(y) {
                    let j = choose|j: int| 0 <= j < r@.len() && r@[j] == y;
                }
                if comp@.contains(y) {
                    let j = choose|j: int| 0 <= j < comp@.len() && comp@[j] == y;
                }
            }
        }
    }
    r
}


impl BlockGraph {
    /// Finds the strongly connected components of more than one block, and inside each
    /// the components of the blocks strictly between its first and its last block, and
    /// stores them in the graph. Every block of a recorded component can be reached from
    /// every other; the outermost components (those without a parent) are exactly the sets
    /// of two or more blocks that reach each other and nothing else, each recorded once.
    pub fn tarjan(&mut self) -> (r: &Vec<Scc>)
        requires
            old(self).wf(),
        ensures
            final(self).blocks == old(self).blocks,
            final(self).edges == old(self).edges,
            final(self).label_to_id == old(self).label_to_id,
            final(self).sccs == Some(*r),
            final(self).wf(),
            sccs_nested(r@, final(self).blocks@.len() as int),
            forall|k: int| 0 <= k < r@.len()
                ==> strongly_connected(final(self).edges@, 0, final(self).blocks@.len() as int, #[trigger] r@[k].nodes@),
            forall|x: usize, y: usize| x < final(self).blocks@.len() && y < final(self).blocks@.len() && x != y
                && #[trigger] mutual(final(self).edges@, 0, final(self).blocks@.len() as int, x, y)
                ==> pair_recorded(r@, 0, None, x, y),
            level_disjoint(r@, 0, None),
            forall|k: int, x: usize, y: usize| 0 <= k < r@.len() && r@[k].parent_idx is None
                && #[trigger] r@[k].nodes@.contains(x) && x != y && y < final(self).blocks@.len()
                ==> (r@[k].nodes@.contains(y) <==> #[trigger] mutual(final(self).edges@, 0, final(self).blocks@.len() as int, x, y)),
    {
        let mut sccs: Vec<Scc> = Vec::new();
        let n = self.blocks.len();
        self.tarjan_internal(&mut sccs, 0, n, None);
        proof {
            let ed = self.edges@;
            let sc = sccs@;
            assert forall|k: int, x: usize, y: usize| 0 <= k < sc.len() && sc[k].parent_idx is None
                && #[trigger] sc[k].nodes@.contains(x) && x != y && y < n
                implies (sc[k].nodes@.contains(y) <==> #[trigger] mutual(ed, 0, n as int, x, y)) by {
                let i = choose|i: int| 0 <= i < sc[k].nodes@.len() && sc[k].nodes@[i] == x;
                if sc[k].nodes@.contains(y) {
                    let j = choose|j: int| 0 <= j < sc[k].nodes@.len() && sc[k].nodes@[j] == y;
                    assert(strongly_connected(ed, 0, n as int, sc[k].nodes@));
                    assert(reaches(ed, 0, n as int, sc[k].nodes@[i], sc[k].nodes@[j]));
                    assert(reaches(ed, 0, n as int, sc[k].nodes@[j], sc[k].nodes@[i]));
                }
                if mutual(ed, 0, n as int, x, y) {
                    assert(scc_shape(sc, k, 0, n as int, None, 0));
                    assert(x < n);
                    assert(pair_recorded(sc, 0, None, x, y));
                    let k2 = choose|k2: int| 0 <= k2 < sc.len() && (#[trigger] sc[k2]).parent_idx == None::<usize>
                        && sc[k2].nodes@.contains(x) && sc[k2].nodes@.contains(y);
                    if k2 != k {
                        if k < k2 {
                            assert(!sc[k2].nodes@.contains(x));
                        } else {
                            assert(!sc[k].nodes@.contains(x));
                        }
                    }
                }
            }
        }
        proof {
            assert forall|k: int| 0 <= k < sccs@.len() implies #[trigger] scc_shape(sccs@, k, 0, n as int, None, 0) by {
                assert(scc_shape(sccs@, k, 0, n as int, None, 0));
            }
        }
        self.sccs = Some(sccs);
        self.sccs.as_ref().unwrap()
    }

    /// Runs the search over the blocks `[lo, hi)`, adding the components found under `parent`.
    fn tarjan_internal(&self, sccs: &mut Vec<Scc>, lo: usize, hi: usize, parent: Option<usize>)
        requires
            self.wf(),
            lo <= hi <= self.blocks@.len(),
            parent matches Some(p) ==> p < old(sccs)@.len(),
        ensures
            new_sccs_ok(old(sccs)@, final(sccs)@, lo as int, hi as int, parent),
            forall|k: int| old(sccs)@.len() <= k < final(sccs)@.len()
                ==> strongly_connected(self.edges@, lo as int, hi as int, #[trigger] final(sccs)@[k].nodes@),
            forall|x: usize, y: usize| lo <= x < hi && lo <= y < hi && x != y && #[trigger] mutual(self.edges@, lo as int, hi as int, x, y)
                ==> pair_recorded(final(sccs)@, old(sccs)@.len() as int, parent, x, y),
            level_disjoint(final(sccs)@, old(sccs)@.len() as int, parent),
        decreases hi - lo, self.blocks@.len() + 1,
    {
        let n = self.blocks.len();
        let mut index: usize = 0;
        let mut index_map: Vec<Option<usize>> = Vec::new();
        let mut lowlink: Vec<usize> = Vec::new();
        let mut on_stack: Vec<bool> = Vec::new();
        let mut stack: Vec<usize> = Vec::new();
        let mut k: usize = 0;
        while k < n
            invariant
                k <= n,
                index_map@.len() == k,
                lowlink@.len() == k,
                on_stack@.len() == k,
                count_some(index_map@) == 0,
                forall|x: int| 0 <= x < k ==> (#[trigger] index_map@[x]) is None,
                forall|x: int| 0 <= x < k ==> !(#[trigger] on_stack@[x]),
            decreases n - k,
        {
            proof {
                assert(index_map@.push(None).drop_last() =~= index_map@);
            }
            index_map.push(None);
            lowlink.push(0);
            on_stack.push(false);
            k = k + 1;
        }
        let ghost s0 = sccs@;
        proof {
            assert(new_sccs_ok(s0, sccs@, lo as int, hi as int, parent));
        }
        let mut id = lo;
        while id < hi
            invariant
                self.wf(),
                n == self.blocks@.len(),
                lo <= id <= hi <= n,
                parent matches Some(p) ==> p < s0.len(),
                dfs_ok(n as int, lo as int, hi as int, index as int, index_map@, lowlink@, on_stack@, stack@),
                stack@.len() == 0,
                done_closed(self.edges@, lo as int, hi as int, index_map@, on_stack@),
                forall|x: int| lo <= x < id ==> (#[trigger] index_map@[x]) is Some,
                level_done(sccs@, s0.len() as int, parent, index_map@, on_stack@),
                level_disjoint(sccs@, s0.len() as int, parent),
                forall|x: usize, y: usize| lo <= x < hi && lo <= y < hi && x != y
                    && is_done(index_map@, on_stack@, x as int) && #[trigger] mutual(self.edges@, lo as int, hi as int, x, y)
                    ==> pair_recorded(sccs@, s0.len() as int, parent, x, y),
                new_sccs_ok(s0, sccs@, lo as int, hi as int, parent),
                forall|k: int| s0.len() <= k < sccs@.len()
                    ==> strongly_connected(self.edges@, lo as int, hi as int, #[trigger] sccs@[k].nodes@),
            decreases hi - id,
        {
            if index_map[id].is_none() {
                let ghost s1 = sccs@;
                let ghost m1 = index_map@;
                let ghost on1 = on_stack@;
                proof {
                    lemma_count_some_le(index_map@);
                }
                self.strong_connect(id, &mut index, &mut index_map, &mut lowlink, &mut on_stack, &mut stack, sccs, lo, hi, parent);
                proof {
                    assert forall|kk: int, j: int| s0.len() <= kk < sccs@.len() && sccs@[kk].parent_idx == parent && 0 <= j < sccs@[kk].nodes@.len()
                        implies is_done(index_map@, on_stack@, #[trigger] sccs@[kk].nodes@[j] as int) by {
                        if kk < s1.len() {
                            assert(sccs@[kk] == s1[kk]);
                            assert(is_done(m1, on1, s1[kk].nodes@[j] as int));
                        }
                    }
                    assert forall|k1: int, k2: int, x: usize| s0.len() <= k1 < k2 < sccs@.len() && sccs@[k1].parent_idx == parent
                        && sccs@[k2].parent_idx == parent && #[trigger] sccs@[k1].nodes@.contains(x)
                        implies !#[trigger] sccs@[k2].nodes@.contains(x) by {
                        if k2 < s1.len() {
                            assert(sccs@[k1] == s1[k1]);
                            assert(sccs@[k2] == s1[k2]);
                        } else if k1 < s1.len() {
                            assert(sccs@[k1] == s1[k1]);
                            let j = choose|j: int| 0 <= j < s1[k1].nodes@.len() && s1[k1].nodes@[j] == x;
                            assert(is_done(m1, on1, s1[k1].nodes@[j] as int));
                            if sccs@[k2].nodes@.contains(x) {
                                let j2 = choose|j2: int| 0 <= j2 < sccs@[k2].nodes@.len() && sccs@[k2].nodes@[j2] == x;
                                assert(m1[sccs@[k2].nodes@[j2] as int] is None);
                            }
                        }
                    }
                    assert forall|x: int| lo <= x < id + 1 implies (#[trigger] index_map@[x]) is Some by {
                        if x < id {
                            assert(m1[x] is Some);
                        }
                    }
                    assert forall|x: usize, y: usize| lo <= x < hi && lo <= y < hi && x != y
                        && is_done(index_map@, on_stack@, x as int) && #[trigger] mutual(self.edges@, lo as int, hi as int, x, y)
                        implies pair_recorded(sccs@, s0.len() as int, parent, x, y) by {
                        if m1[x as int] is None {
                            let k = choose|k: int| s1.len() <= k < sccs@.len() && (#[trigger] sccs@[k]).parent_idx == parent
                                && sccs@[k].nodes@.contains(x) && sccs@[k].nodes@.contains(y);
                            assert(sccs@[k].parent_idx == parent);
                        } else {
                            assert(!on1[x as int]);
                            assert(is_done(m1, on1, x as int));
                            let k = choose|k: int| s0.len() <= k < s1.len() && (#[trigger] s1[k]).parent_idx == parent
                                && s1[k].nodes@.contains(x) && s1[k].nodes@.contains(y);
                            assert(sccs@[k] == s1[k]);
                        }
                    }
                    lemma_new_sccs_trans(s0, s1, sccs@, lo as int, hi as int, parent);
                    assert forall|k: int| s0.len() <= k < sccs@.len()
                        implies strongly_connected(self.edges@, lo as int, hi as int, #[trigger] sccs@[k].nodes@) by {
                        if k < s1.len() {
                            assert(sccs@[k] == s1[k]);
                        }
                    }
                }
            }
            id = id + 1;
        }
    }

    /// Visits block `id`: numbers it, searches its unvisited successors in `[lo, hi)`, and,
    /// where it is the root of a component, takes the component off the stack; a component
    /// of more than one block is recorded, and the blocks strictly inside it searched again.
    #[verifier::rlimit(60)]
    #[verifier::spinoff_prover]
    fn strong_connect(
        &self,
        id: usize,
        index: &mut usize,
        index_map: &mut Vec<Option<usize>>,
        lowlink: &mut Vec<usize>,
        on_stack: &mut Vec<bool>,
        stack: &mut Vec<usize>,
        sccs: &mut Vec<Scc>,
        lo: usize,
        hi: usize,
        parent: Option<usize>,
    )
        requires
            self.wf(),
            lo <= id < hi <= self.blocks@.len(),
            old(index_map)@[id as int] is None,
            dfs_ok(self.blocks@.len() as int, lo as int, hi as int, *old(index) as int, old(index_map)@,
                old(lowlink)@, old(on_stack)@, old(stack)@),
            parent matches Some(p) ==> p < old(sccs)@.len(),
            forall|j: int| 0 <= j < old(stack)@.len() ==> reaches(self.edges@, lo as int, hi as int, #[trigger] old(stack)@[j], id),
            done_closed(self.edges@, lo as int, hi as int, old(index_map)@, old(on_stack)@),
        ensures
            done_closed(self.edges@, lo as int, hi as int, final(index_map)@, final(on_stack)@),
            forall|x: usize, y: usize| lo <= x < hi && lo <= y < hi && x != y && old(index_map)@[x as int] is None
                && is_done(final(index_map)@, final(on_stack)@, x as int) && #[trigger] mutual(self.edges@, lo as int, hi as int, x, y)
                ==> pair_recorded(final(sccs)@, old(sccs)@.len() as int, parent, x, y),
            level_done(final(sccs)@, old(sccs)@.len() as int, parent, final(index_map)@, final(on_stack)@),
            level_fresh(final(sccs)@, old(sccs)@.len() as int, parent, old(index_map)@),
            level_disjoint(final(sccs)@, old(sccs)@.len() as int, parent),
            dfs_ok(self.blocks@.len() as int, lo as int, hi as int, *final(index) as int, final(index_map)@,
                final(lowlink)@, final(on_stack)@, final(stack)@),
            visits_kept(old(index_map)@, final(index_map)@),
            final(index_map)@[id as int] is Some,
            *final(index) > *old(index),
            old(stack)@.len() <= final(stack)@.len(),
            final(stack)@.subrange(0, old(stack)@.len() as int) == old(stack)@,
            new_sccs_ok(old(sccs)@, final(sccs)@, lo as int, hi as int, parent),
            final(index_map)@[id as int] == Some(*old(index)),
            forall|x: int| 0 <= x < old(index_map)@.len() && (#[trigger] old(index_map)@[x]) is Some
                ==> final(lowlink)@[x] == old(lowlink)@[x],
            final(lowlink)@[id as int] <= *old(index),
            (final(lowlink)@[id as int] == *old(index)) <==> (final(stack)@.len() == old(stack)@.len()),
            final(lowlink)@[id as int] < *old(index) ==> exists|j: int| 0 <= j < old(stack)@.len()
                && final(index_map)@[#[trigger] old(stack)@[j] as int] == Some(final(lowlink)@[id as int])
                && reaches(self.edges@, lo as int, hi as int, id, old(stack)@[j]),
            forall|j: int| old(stack)@.len() <= j < final(stack)@.len()
                ==> reaches(self.edges@, lo as int, hi as int, id, #[trigger] final(stack)@[j])
                && reaches(self.edges@, lo as int, hi as int, final(stack)@[j], id),
            forall|k: int| old(sccs)@.len() <= k < final(sccs)@.len()
                ==> strongly_connected(self.edges@, lo as int, hi as int, #[trigger] final(sccs)@[k].nodes@),
            forall|x: int| 0 <= x < old(index_map)@.len() && is_done(old(index_map)@, old(on_stack)@, x) ==> !final(on_stack)@[x],
            forall|j: int| old(stack)@.len() <= j < final(stack)@.len() ==> old(index_map)@[#[trigger] final(stack)@[j] as int] is None,
            forall|u: int| 0 <= u < old(index_map)@.len() && old(index_map)@[u] is None && (#[trigger] final(index_map)@[u]) is Some
                ==> succ_seen(self.edges@, lo as int, hi as int, final(index_map)@, final(on_stack)@, final(lowlink)@[id as int] as int, u),
        decreases hi - lo, self.blocks@.len() - *old(index),
    {
        let nn = self.blocks.len();
        let ghost n = nn as int;
        let ghost idx0 = *index;
        let ghost stack0 = stack@;
        let ghost map0 = index_map@;
        let ghost lw0 = lowlink@;
        let ghost onst0 = on_stack@;
        let ghost s0 = sccs@;
        proof {
            lemma_count_some_bound(index_map@, id as int);
            lemma_count_some_update(index_map@, id as int, *index);
        }
        index_map.set(id, Some(*index));
        lowlink.set(id, *index);
        *index = *index + 1;
        let base = stack.len();
        proof {
            assert(!stack@.contains(id)) by {
                if stack@.contains(id) {
                    let j = choose|j: int| 0 <= j < stack@.len() && stack@[j] == id;
                    assert(map0[stack@[j] as int] is Some);
                }
            }
        }
        stack.push(id);
        on_stack.set(id, true);
        proof {
            assert(stack@.subrange(0, base as int) =~= stack0);
            assert forall|x: int| 0 <= x < n implies (#[trigger] on_stack@[x] <==> stack@.contains(x as usize)) by {
                if x != id {
                    if stack@.contains(x as usize) {
                        let j = choose|j: int| 0 <= j < stack@.len() && stack@[j] == x as usize;
                        assert(j < base);
                        assert(stack0[j] == x);
                    }
                    if stack0.contains(x as usize) {
                        let j = choose|j: int| 0 <= j < stack0.len() && stack0[j] == x as usize;
                        assert(stack@[j] == x);
                    }
                } else {
                    assert(stack@[base as int] == id);
                }
            }
            assert(new_sccs_ok(s0, sccs@, lo as int, hi as int, parent));
            lemma_reach_refl(self.edges@, lo as int, hi as int, id);
            assert forall|j: int| 0 <= j < stack@.len() implies reaches(self.edges@, lo as int, hi as int, #[trigger] stack@[j], id) by {
                if j < base {
                    assert(stack@[j] == stack0[j]);
                }
            }
        }
        let mut e: usize = 0;
        while e < self.edges[id].len()
            invariant
                self.wf(),
                n == self.blocks@.len(),
                lo <= id < hi <= n,
                dfs_ok(n, lo as int, hi as int, *index as int, index_map@, lowlink@, on_stack@, stack@),
                visits_kept(map0, index_map@),
                index_map@[id as int] == Some(idx0),
                lw0 == old(lowlink)@,
                map0 == old(index_map)@,
                map0[id as int] is None,
                forall|x: int| 0 <= x < map0.len() && (#[trigger] map0[x]) is Some ==> lowlink@[x] == lw0[x],
                lowlink@[id as int] <= idx0,
                lowlink@[id as int] < idx0 ==> exists|j: int| 0 <= j < base
                    && index_map@[#[trigger] stack0[j] as int] == Some(lowlink@[id as int])
                    && reaches(self.edges@, lo as int, hi as int, id, stack0[j]),
                forall|j: int| 0 <= j < stack@.len() ==> reaches(self.edges@, lo as int, hi as int, #[trigger] stack@[j], id),
                forall|j: int| base <= j < stack@.len() ==> reaches(self.edges@, lo as int, hi as int, id, #[trigger] stack@[j]),
                forall|k: int| s0.len() <= k < sccs@.len()
                    ==> strongly_connected(self.edges@, lo as int, hi as int, #[trigger] sccs@[k].nodes@),
                *index > idx0,
                idx0 == *old(index),
                base == stack0.len(),
                base < stack@.len(),
                stack@[base as int] == id,
                stack@.subrange(0, base as int) == stack0,
                e <= self.edges@[id as int]@.len(),
                parent matches Some(p) ==> p < s0.len(),
                new_sccs_ok(s0, sccs@, lo as int, hi as int, parent),
                onst0 == old(on_stack)@,
                done_closed(self.edges@, lo as int, hi as int, index_map@, on_stack@),
                forall|x: usize, y: usize| lo <= x < hi && lo <= y < hi && x != y && map0[x as int] is None
                    && is_done(index_map@, on_stack@, x as int) && #[trigger] mutual(self.edges@, lo as int, hi as int, x, y)
                    ==> pair_recorded(sccs@, s0.len() as int, parent, x, y),
                level_done(sccs@, s0.len() as int, parent, index_map@, on_stack@),
                level_fresh(sccs@, s0.len() as int, parent, map0),
                level_disjoint(sccs@, s0.len() as int, parent),
                map0.len() == n,
                onst0.len() == n,
                forall|x: int| 0 <= x < n && is_done(map0, onst0, x) ==> !on_stack@[x],
                forall|j: int| base <= j < stack@.len() ==> map0[#[trigger] stack@[j] as int] is None,
                forall|u: int| 0 <= u < n && u != id && map0[u] is None && (#[trigger] index_map@[u]) is Some
                    ==> succ_seen(self.edges@, lo as int, hi as int, index_map@, on_stack@, lowlink@[id as int] as int, u),
                forall|f: int| 0 <= f < e && lo <= #[trigger] self.edges@[id as int]@[f] < hi
                    ==> index_map@[self.edges@[id as int]@[f] as int] is Some
                    && (on_stack@[self.edges@[id as int]@[f] as int]
                        ==> lowlink@[id as int] <= index_map@[self.edges@[id as int]@[f] as int]->0),
            decreases self.edges@[id as int]@.len() - e,
        {
            let next = self.edges[id][e];
            if lo <= next && next < hi {
                if index_map[next].is_none() {
                    let ghost s1 = sccs@;
                    let ghost st1 = stack@;
                    let ghost m1 = index_map@;
                    let ghost lwb = lowlink@;
                    let ghost onb = on_stack@;
                    let ghost ix1 = *index;
                    proof {
                        lemma_count_some_le(index_map@);
                        assert(self.edges@[id as int]@[e as int] == next);
                        lemma_reach_refl(self.edges@, lo as int, hi as int, next);
                        lemma_reach_edge(self.edges@, lo as int, hi as int, id, next, next);
                        assert forall|j: int| 0 <= j < stack@.len() implies reaches(self.edges@, lo as int, hi as int, #[trigger] stack@[j], next) by {
                            lemma_reach_trans(self.edges@, lo as int, hi as int, stack@[j], id, next);
                        }
                    }
                    self.strong_connect(next, index, index_map, lowlink, on_stack, stack, sccs, lo, hi, parent);
                    let ghost lwc = lowlink@;
                    proof {
                        lemma_new_sccs_trans(s0, s1, sccs@, lo as int, hi as int, parent);
                        assert forall|k: int| s0.len() <= k < sccs@.len()
                            implies strongly_connected(self.edges@, lo as int, hi as int, #[trigger] sccs@[k].nodes@) by {
                            if k < s1.len() {
                                assert(sccs@[k] == s1[k]);
                            }
                        }
                        assert(stack@[base as int] == st1[base as int]);
                        assert(stack@.subrange(0, base as int) =~= st1.subrange(0, base as int));
                        lemma_count_some_le(m1);
                        let ed = self.edges@;
                        assert forall|j: int| 0 <= j < st1.len() implies stack@[j] == st1[j] by {
                            assert(stack@.subrange(0, st1.len() as int)[j] == st1[j]);
                        }
                        assert forall|x: usize, y: usize| lo <= x < hi && lo <= y < hi && x != y && map0[x as int] is None
                            && is_done(index_map@, on_stack@, x as int) && #[trigger] mutual(self.edges@, lo as int, hi as int, x, y)
                            implies pair_recorded(sccs@, s0.len() as int, parent, x, y) by {
                            if m1[x as int] is None {
                                assert(pair_recorded(sccs@, s1.len() as int, parent, x, y));
                                let k = choose|k: int| s1.len() <= k < sccs@.len() && (#[trigger] sccs@[k]).parent_idx == parent
                                    && sccs@[k].nodes@.contains(x) && sccs@[k].nodes@.contains(y);
                                assert(sccs@[k].parent_idx == parent);
                            } else {
                                if onb[x as int] {
                                    assert(st1.contains(x));
                                    let q = choose|q: int| 0 <= q < st1.len() && st1[q] == x;
                                    assert(stack@[q] == st1[q]);
                                    assert(stack@.contains(x));
                                }
                                assert(is_done(m1, onb, x as int));
                                assert(pair_recorded(s1, s0.len() as int, parent, x, y));
                                let k = choose|k: int| s0.len() <= k < s1.len() && (#[trigger] s1[k]).parent_idx == parent
                                    && s1[k].nodes@.contains(x) && s1[k].nodes@.contains(y);
                                assert(sccs@[k] == s1[k]);
                            }
                        }
                        assert forall|j: int| base <= j < stack@.len() implies map0[#[trigger] stack@[j] as int] is None by {
                            if j < st1.len() {
                                assert(stack@[j] == st1[j]);
                            } else {
                                assert(m1[stack@[j] as int] is None);
                                if map0[stack@[j] as int] is Some {
                                    assert(m1[stack@[j] as int] == map0[stack@[j] as int]);
                                }
                            }
                        }
                        if stack@.len() > st1.len() {
                            assert(lwc[next as int] < ix1);
                            let k = choose|k: int| 0 <= k < st1.len()
                                && index_map@[#[trigger] st1[k] as int] == Some(lwc[next as int])
                                && reaches(ed, lo as int, hi as int, next, st1[k]);
                            lemma_reach_trans(ed, lo as int, hi as int, next, st1[k], id);
                        }
                        assert forall|j: int| 0 <= j < stack@.len() implies reaches(ed, lo as int, hi as int, #[trigger] stack@[j], id) by {
                            if j < st1.len() {
                                assert(stack@[j] == st1[j]);
                            } else {
                                lemma_reach_trans(ed, lo as int, hi as int, stack@[j], next, id);
                            }
                        }
                        assert forall|j: int| base <= j < stack@.len() implies reaches(ed, lo as int, hi as int, id, #[trigger] stack@[j]) by {
                            if j < st1.len() {
                                assert(stack@[j] == st1[j]);
                            } else {
                                lemma_reach_edge(ed, lo as int, hi as int, id, next, stack@[j]);
                            }
                        }
                    }
                    let low = if lowlink[id] < lowlink[next] { lowlink[id] } else { lowlink[next] };
                    lowlink.set(id, low);
                    proof {
                        let ed = self.edges@;
                        assert(m1[id as int] == Some(idx0));
                        assert(lwc[id as int] == lwb[id as int]);
                        if lowlink@[id as int] < idx0 {
                            if lwc[next as int] < lwb[id as int] {
                                assert(lwc[next as int] != ix1);
                                assert(stack@.len() != st1.len());
                                let k = choose|k: int| 0 <= k < st1.len()
                                    && index_map@[#[trigger] st1[k] as int] == Some(lwc[next as int])
                                    && reaches(ed, lo as int, hi as int, next, st1[k]);
                                assert(k < base) by {
                                    if k >= base {
                                        assert(st1[base as int] == id);
                                        if k > base {
                                            assert(m1[st1[base as int] as int]->0 < m1[st1[k] as int]->0);
                                            assert(m1[st1[k] as int] is Some);
                                        }
                                    }
                                }
                                assert(st1[k] == stack0[k]) by {
                                    assert(st1.subrange(0, base as int)[k] == st1[k]);
                                }
                                lemma_reach_edge(ed, lo as int, hi as int, id, next, st1[k]);
                                assert(index_map@[stack0[k] as int] == Some(lowlink@[id as int]));
                            } else {
                                let k = choose|k: int| 0 <= k < base
                                    && m1[#[trigger] stack0[k] as int] == Some(lwb[id as int])
                                    && reaches(ed, lo as int, hi as int, id, stack0[k]);
                                assert(index_map@[stack0[k] as int] == m1[stack0[k] as int]);
                                assert(index_map@[stack0[k] as int] == Some(lowlink@[id as int]));
                            }
                        }
                    }
                    proof {
                        assert forall|x: int| 0 <= x < map0.len() && (#[trigger] map0[x]) is Some implies lowlink@[x] == lw0[x] by {
                            assert(x != id as int);
                            assert(m1[x] == map0[x]);
                            assert(m1[x] is Some);
                            assert(lwc[x] == lwb[x]);
                            assert(lowlink@[x] == lwc[x]);
                        }
                    }
                } else if on_stack[next] {
                    let ghost lwd = lowlink@;
                    let num = index_map[next].unwrap();
                    let low = if lowlink[id] < num { lowlink[id] } else { num };
                    lowlink.set(id, low);
                    proof {
                        let ed = self.edges@;
                        if num < lwd[id as int] {
                            assert(stack@.contains(next));
                            let k = choose|k: int| 0 <= k < stack@.len() && stack@[k] == next;
                            assert(k < base) by {
                                if k >= base {
                                    assert(stack@[base as int] == id);
                                    if k > base {
                                        assert(index_map@[stack@[base as int] as int]->0 < index_map@[stack@[k] as int]->0);
                                    }
                                }
                            }
                            assert(stack@[k] == stack0[k]) by {
                                assert(stack@.subrange(0, base as int)[k] == stack@[k]);
                            }
                            assert(self.edges@[id as int]@[e as int] == next);
                            lemma_reach_refl(ed, lo as int, hi as int, next);
                            lemma_reach_edge(ed, lo as int, hi as int, id, next, next);
                            assert(index_map@[stack0[k] as int] == Some(lowlink@[id as int]));
                        }
                    }
                    proof {
                        assert forall|x: int| 0 <= x < map0.len() && (#[trigger] map0[x]) is Some implies lowlink@[x] == lw0[x] by {
                            assert(x != id as int);
                            assert(lowlink@[x] == lwd[x]);
                        }
                    }
                }
            }
            e = e + 1;
        }
        if lowlink[id] == index_map[id].unwrap() {
            let mut component: Vec<usize> = Vec::new();
            let mut done = false;
            let ghost onp = on_stack@;
            let ghost st_pre = stack@;
            proof {
                assert(done_closed(self.edges@, lo as int, hi as int, index_map@, onp));
                assert forall|x: int| 0 <= x < n && onp[x] && x != id as int && map0[x] is None && index_map@[x] is Some
                    implies succ_seen(self.edges@, lo as int, hi as int, index_map@, onp, idx0 as int, x) by {
                }
                assert(succ_seen(self.edges@, lo as int, hi as int, index_map@, onp, idx0 as int, id as int)) by {
                    assert forall|v: usize| lo <= v < hi && #[trigger] self.edges@[id as int]@.contains(v)
                        implies index_map@[v as int] is Some && (onp[v as int] ==> idx0 <= index_map@[v as int]->0) by {
                        let f = choose|f: int| 0 <= f < self.edges@[id as int]@.len() && self.edges@[id as int]@[f] == v;
                        assert(lo <= self.edges@[id as int]@[f] < hi);
                    }
                }
            }
            while !done
                invariant
                    onp.len() == n,
                    forall|x: int| 0 <= x < n && onp[x] && !on_stack@[x] ==> component@.contains(x as usize),
                    forall|x: int| 0 <= x < n && on_stack@[x] ==> onp[x],
                    forall|j: int| 0 <= j < component@.len() ==> onp[#[trigger] component@[j] as int],
                    n == self.blocks@.len(),
                    n == nn,
                    lo <= id < hi <= n,
                    index_map@.len() == n,
                    on_stack@.len() == n,
                    stack@.no_duplicates(),
                    forall|j: int| 0 <= j < stack@.len() ==> lo <= #[trigger] stack@[j] < hi,
                    forall|j: int| 0 <= j < stack@.len() ==> (#[trigger] index_map@[stack@[j] as int]) is Some,
                    forall|x: int| 0 <= x < n ==> (#[trigger] on_stack@[x] <==> stack@.contains(x as usize)),
                    base == stack0.len(),
                    !done ==> base < stack@.len() && stack@[base as int] == id,
                    done ==> stack@.len() == base,
                    base <= stack@.len(),
                    stack@.subrange(0, base as int) == stack0,
                    component@.no_duplicates(),
                    forall|j: int| 0 <= j < component@.len() ==> lo <= #[trigger] component@[j] < hi,
                    forall|j: int| 0 <= j < component@.len() ==> !stack@.contains(#[trigger] component@[j]),
                    done ==> component@.contains(id),
                    forall|j: int| base <= j < stack@.len() ==> reaches(self.edges@, lo as int, hi as int, id, #[trigger] stack@[j])
                        && reaches(self.edges@, lo as int, hi as int, stack@[j], id),
                    forall|j: int| 0 <= j < component@.len() ==> reaches(self.edges@, lo as int, hi as int, id, #[trigger] component@[j])
                        && reaches(self.edges@, lo as int, hi as int, component@[j], id),
                decreases stack@.len(),
            {
                let ghost st = stack@;
                let w = stack.pop().unwrap();
                proof {
                    assert(stack@ =~= st.drop_last());
                    assert(w == st[st.len() - 1]);
                    assert forall|j: int| base <= j < stack@.len() implies reaches(self.edges@, lo as int, hi as int, id, #[trigger] stack@[j])
                        && reaches(self.edges@, lo as int, hi as int, stack@[j], id) by {
                        assert(stack@[j] == st[j]);
                    }
                    assert(!stack@.contains(w)) by {
                        if stack@.contains(w) {
                            let j = choose|j: int| 0 <= j < stack@.len() && stack@[j] == w;
                            assert(st[j] == st[st.len() - 1]);
                        }
                    }
                }
                on_stack.set(w, false);
                proof {
                    assert(!component@.contains(w)) by {
                        if component@.contains(w) {
                            let j = choose|j: int| 0 <= j < component@.len() && component@[j] == w;
                            assert(st[st.len() - 1] == w);
                            assert(st.contains(w));
                        }
                    }
                }
                let ghost cb = component@;
                component.push(w);
                proof {
                    assert forall|x: int| 0 <= x < n && onp[x] && !on_stack@[x] implies component@.contains(x as usize) by {
                        if x == w as int {
                            assert(component@[component@.len() - 1] == w);
                        } else {
                            assert(cb.contains(x as usize));
                            let j = choose|j: int| 0 <= j < cb.len() && cb[j] == x as usize;
                            assert(component@[j] == x as usize);
                        }
                    }
                    assert forall|x: int| 0 <= x < n implies (#[trigger] on_stack@[x] <==> stack@.contains(x as usize)) by {
                        if stack@.contains(x as usize) {
                            let j = choose|j: int| 0 <= j < stack@.len() && stack@[j] == x as usize;
                            assert(st[j] == x);
                        }
                        if x != w && st.contains(x as usize) {
                            let j = choose|j: int| 0 <= j < st.len() && st[j] == x as usize;
                            assert(j < st.len() - 1);
                            assert(stack@[j] == x);
                        }
                    }
                    assert forall|j: int| 0 <= j < component@.len() implies !stack@.contains(#[trigger] component@[j]) by {
                        if j < component@.len() - 1 {
                            if stack@.contains(component@[j]) {
                                let i = choose|i: int| 0 <= i < stack@.len() && stack@[i] == component@[j];
                                assert(st[i] == component@[j]);
                            }
                        }
                    }
                    if st.len() - 1 > base {
                        assert(st[st.len() - 1] != st[base as int]);
                    }
                    assert(stack@.subrange(0, base as int) =~= st.subrange(0, base as int));
                }
                if w == id {
                    done = true;
                }
                proof {
                    if done {
                        assert(component@[component@.len() - 1] == id);
                    }
                }
            }
            proof {
                let ed = self.edges@;
                assert(stack@ =~= stack0);
                assert forall|x: int| 0 <= x < n && onp[x] && !on_stack@[x]
                    implies succ_seen(ed, lo as int, hi as int, index_map@, onp, idx0 as int, x) by {
                    assert(st_pre.contains(x as usize));
                    let q = choose|q: int| 0 <= q < st_pre.len() && st_pre[q] == x as usize;
                    if q < base {
                        assert(stack0[q] == st_pre[q]);
                        assert(stack@.contains(x as usize));
                    }
                    if x != id as int {
                        assert(map0[st_pre[q] as int] is None);
                    }
                }
                assert forall|x: int| 0 <= x < n && onp[x] && index_map@[x] is Some && idx0 <= index_map@[x]->0
                    implies !on_stack@[x] by {
                    assert(st_pre.contains(x as usize));
                    let q = choose|q: int| 0 <= q < st_pre.len() && st_pre[q] == x as usize;
                    if q < base {
                        assert(index_map@[st_pre[q] as int]->0 < index_map@[st_pre[base as int] as int]->0);
                    }
                    if stack@.contains(x as usize) {
                        let r = choose|r: int| 0 <= r < stack@.len() && stack@[r] == x as usize;
                        assert(st_pre[r] == stack0[r]);
                        assert(st_pre[r] == st_pre[q]);
                    }
                }
                lemma_pop_closed(ed, lo as int, hi as int, index_map@, onp, on_stack@, idx0 as int);
                assert(done_closed(ed, lo as int, hi as int, index_map@, on_stack@));
                assert forall|x: usize, y: usize| lo <= x < hi && lo <= y < hi && x != y && onp[x as int] && !on_stack@[x as int]
                    && #[trigger] mutual(ed, lo as int, hi as int, x, y)
                    implies component@.contains(x) && component@.contains(y) by {
                    lemma_done_reach(ed, lo as int, hi as int, index_map@, on_stack@, x, y);
                    if !onp[y as int] {
                        lemma_done_reach(ed, lo as int, hi as int, index_map@, onp, y, x);
                    }
                }
                assert(stack@ =~= stack0);
                assert forall|i: int, j: int| 0 <= i < j < stack@.len()
                    implies index_map@[#[trigger] stack@[i] as int]->0 < index_map@[#[trigger] stack@[j] as int]->0 by {
                    assert(map0[stack0[i] as int] is Some);
                    assert(map0[stack0[j] as int] is Some);
                }
            }
            let ghost s_pop = sccs@;
            if component.len() > 1 {
                let sorted = sort_members(&component, lo, hi);
                proof {
                    let ed = self.edges@;
                    assert forall|i: int, j: int| 0 <= i < sorted@.len() && 0 <= j < sorted@.len()
                        implies reaches(ed, lo as int, hi as int, #[trigger] sorted@[i], #[trigger] sorted@[j]) by {
                        assert(sorted@.contains(sorted@[i]));
                        assert(sorted@.contains(sorted@[j]));
                        let a = choose|a: int| 0 <= a < component@.len() && component@[a] == sorted@[i];
                        let b = choose|b: int| 0 <= b < component@.len() && component@[b] == sorted@[j];
                        lemma_reach_trans(ed, lo as int, hi as int, component@[a], id, component@[b]);
                    }
                }
                proof {
                    let c0 = component@[0];
                    let c1 = component@[1];
                    assert(component@.contains(c0));
                    assert(component@.contains(c1));
                    assert(sorted@.contains(c0));
                    assert(sorted@.contains(c1));
                    assert(sorted@.len() >= 2) by {
                        if sorted@.len() < 2 {
                            let j0 = choose|j: int| 0 <= j < sorted@.len() && sorted@[j] == c0;
                            let j1 = choose|j: int| 0 <= j < sorted@.len() && sorted@[j] == c1;
                        }
                    }
                }
                let min = sorted[0];
                let max = sorted[sorted.len() - 1];
                let ghost s1 = sccs@;
                let component_idx = sccs.len();
                sccs.push(Scc::new(Vec::new(), parent));
                proof {
                    assert(s1.len() < sccs@.len());
                }
                self.tarjan_internal(sccs, min + 1, max, Some(component_idx));
                let ghost s2 = sccs@;
                let mut children: Vec<usize> = Vec::new();
                let total = sccs.len();
                let mut c = component_idx + 1;
                while c < sccs.len()
                    invariant
                        component_idx + 1 <= c <= sccs@.len(),
                        children@ == index_run(component_idx + 1, (c - component_idx - 1) as nat),
                    decreases sccs@.len() - c,
                {
                    children.push(c);
                    proof {
                        assert(children@ =~= index_run(component_idx + 1, (c + 1 - component_idx - 1) as nat));
                    }
                    c = c + 1;
                }
                let scc = Scc { nodes: sorted, parent_idx: parent, children_idx: children };
                sccs.set(component_idx, scc);
                proof {
                    let s3 = sccs@;
                    let l = component_idx as int;
                    assert(strictly_sorted(s3[l].nodes@));
                    assert forall|k: int| 0 <= k < s1.len() implies #[trigger] s3[k] == s1[k] by {
                        assert(s2[k] == s1[k]);
                    }
                    assert forall|k: int| l < k < s3.len() implies #[trigger] scc_shape(s3, k, lo as int, hi as int, parent, s1.len() as int) by {
                        assert(s3[k] == s2[k]);
                        assert(scc_shape(s2, k, (min + 1) as int, max as int, Some(component_idx), l + 1));
                        let ch = s2[k].children_idx@;
                        assert forall|j: int| 0 <= j < ch.len() implies inside(s3[#[trigger] ch[j] as int].nodes@, s3[k].nodes@) by {
                            assert(s3[ch[j] as int] == s2[ch[j] as int]);
                        }
                        match s2[k].parent_idx {
                            Some(p) => {
                                if p != component_idx {
                                    assert(s3[p as int] == s2[p as int]);
                                } else {
                                    assert(s3[p as int].nodes@ == sorted@);
                                }
                            },
                            None => {},
                        }
                    }
                    assert(scc_shape(s3, l, lo as int, hi as int, parent, s1.len() as int)) by {
                        let ch = s3[l].children_idx@;
                        assert(ch =~= index_run(l + 1, ch.len()));
                        assert forall|j: int| 0 <= j < ch.len() implies inside(s3[#[trigger] ch[j] as int].nodes@, s3[l].nodes@) by {
                            let k = ch[j] as int;
                            assert(k == l + 1 + j);
                            assert(s3[k] == s2[k]);
                            assert(scc_shape(s2, k, (min + 1) as int, max as int, Some(component_idx), l + 1));
                        }
                    }
                    assert(new_sccs_ok(s1, s3, lo as int, hi as int, parent));
                    lemma_new_sccs_trans(s0, s1, s3, lo as int, hi as int, parent);
                    let ed = self.edges@;
                    assert forall|k: int| s0.len() <= k < s3.len()
                        implies strongly_connected(ed, lo as int, hi as int, #[trigger] s3[k].nodes@) by {
                        if k < s1.len() {
                            assert(s3[k] == s1[k]);
                        } else if k == l {
                            assert(s3[k].nodes@ == sorted@);
                        } else {
                            assert(s3[k] == s2[k]);
                            let nd = s3[k].nodes@;
                            assert(strongly_connected(ed, (min + 1) as int, max as int, nd));
                            assert forall|i: int, j: int| 0 <= i < nd.len() && 0 <= j < nd.len()
                                implies reaches(ed, lo as int, hi as int, #[trigger] nd[i], #[trigger] nd[j]) by {
                                lemma_reach_widen(ed, (min + 1) as int, max as int, lo as int, hi as int, nd[i], nd[j]);
                            }
                        }
                    }
                    assert(level_done(s3, s0.len() as int, parent, index_map@, on_stack@)) by {
                        assert forall|kk: int, j: int| s0.len() <= kk < s3.len() && s3[kk].parent_idx == parent && 0 <= j < s3[kk].nodes@.len()
                            implies is_done(index_map@, on_stack@, #[trigger] s3[kk].nodes@[j] as int) by {
                            if kk < s1.len() {
                                assert(s3[kk] == s_pop[kk]);
                                assert(is_done(index_map@, onp, s_pop[kk].nodes@[j] as int));
                            } else if kk == l {
                                let x = sorted@[j];
                                assert(sorted@.contains(x));
                                assert(component@.contains(x));
                                let a = choose|a: int| 0 <= a < component@.len() && component@[a] == x;
                                assert(onp[component@[a] as int]);
                                assert(!stack@.contains(component@[a]));
                                assert(st_pre.contains(x));
                                let q = choose|q: int| 0 <= q < st_pre.len() && st_pre[q] == x;
                                assert(index_map@[st_pre[q] as int] is Some);
                            } else {
                                assert(s3[kk] == s2[kk]);
                                assert(scc_shape(s2, kk, (min + 1) as int, max as int, Some(component_idx), l + 1));
                                assert(s3[kk].parent_idx is Some && s3[kk].parent_idx->0 >= l);
                            }
                        }
                    }
                    assert(level_fresh(s3, s0.len() as int, parent, map0)) by {
                        assert forall|kk: int, j: int| s0.len() <= kk < s3.len() && s3[kk].parent_idx == parent && 0 <= j < s3[kk].nodes@.len()
                            implies map0[#[trigger] s3[kk].nodes@[j] as int] is None by {
                            if kk < s1.len() {
                                assert(s3[kk] == s_pop[kk]);
                            } else if kk == l {
                                let x = sorted@[j];
                                assert(sorted@.contains(x));
                                assert(component@.contains(x));
                                let a = choose|a: int| 0 <= a < component@.len() && component@[a] == x;
                                assert(onp[component@[a] as int]);
                                assert(!stack@.contains(component@[a]));
                                assert(st_pre.contains(x));
                                let q = choose|q: int| 0 <= q < st_pre.len() && st_pre[q] == x;
                                if q < base {
                                    assert(stack0[q] == st_pre[q]);
                                    assert(stack@[q] == x);
                                }
                                assert(map0[st_pre[q] as int] is None);
                            } else {
                                assert(s3[kk] == s2[kk]);
                                assert(scc_shape(s2, kk, (min + 1) as int, max as int, Some(component_idx), l + 1));
                                assert(s3[kk].parent_idx is Some && s3[kk].parent_idx->0 >= l);
                            }
                        }
                    }
                    assert forall|k1: int, k2: int, x: usize| s0.len() <= k1 < k2 < s3.len() && s3[k1].parent_idx == parent
                        && s3[k2].parent_idx == parent && #[trigger] s3[k1].nodes@.contains(x)
                        implies !#[trigger] s3[k2].nodes@.contains(x) by {
                        if k2 > l {
                            assert(s3[k2] == s2[k2]);
                            assert(scc_shape(s2, k2, (min + 1) as int, max as int, Some(component_idx), l + 1));
                        } else if k2 == l {
                            assert(s3[k1] == s_pop[k1]);
                            let j = choose|j: int| 0 <= j < s_pop[k1].nodes@.len() && s_pop[k1].nodes@[j] == x;
                            assert(is_done(index_map@, onp, s_pop[k1].nodes@[j] as int));
                            if s3[k2].nodes@.contains(x) {
                                assert(s3[l].nodes@ == sorted@);
                                assert(component@.contains(x));
                                let a = choose|a: int| 0 <= a < component@.len() && component@[a] == x;
                                assert(onp[component@[a] as int]);
                            }
                        } else {
                            assert(s3[k1] == s_pop[k1]);
                            assert(s3[k2] == s_pop[k2]);
                        }
                    }
                    assert forall|x: usize, y: usize| lo <= x < hi && lo <= y < hi && x != y && map0[x as int] is None
                        && is_done(index_map@, on_stack@, x as int) && #[trigger] mutual(ed, lo as int, hi as int, x, y)
                        implies pair_recorded(s3, s0.len() as int, parent, x, y) by {
                        if onp[x as int] {
                            assert(component@.contains(x) && component@.contains(y));
                            assert(sorted@.contains(x) && sorted@.contains(y));
                            assert(s3[l].nodes@ == sorted@);
                            assert(s3[l].parent_idx == parent);
                        } else {
                            assert(is_done(index_map@, onp, x as int));
                            assert(pair_recorded(s_pop, s0.len() as int, parent, x, y));
                            let k = choose|k: int| s0.len() <= k < s_pop.len() && (#[trigger] s_pop[k]).parent_idx == parent
                                && s_pop[k].nodes@.contains(x) && s_pop[k].nodes@.contains(y);
                            assert(s3[k] == s1[k]);
                        }
                    }
                }
            } else {
                proof {
                    let ed = self.edges@;
                    assert forall|kk: int, j: int| s0.len() <= kk < sccs@.len() && sccs@[kk].parent_idx == parent && 0 <= j < sccs@[kk].nodes@.len()
                        implies is_done(index_map@, on_stack@, #[trigger] sccs@[kk].nodes@[j] as int) by {
                        assert(is_done(index_map@, onp, sccs@[kk].nodes@[j] as int));
                    }
                    assert forall|x: usize, y: usize| lo <= x < hi && lo <= y < hi && x != y && map0[x as int] is None
                        && is_done(index_map@, on_stack@, x as int) && #[trigger] mutual(ed, lo as int, hi as int, x, y)
                        implies pair_recorded(sccs@, s0.len() as int, parent, x, y) by {
                        if onp[x as int] {
                            assert(component@.contains(x) && component@.contains(y));
                            let a = choose|a: int| 0 <= a < component@.len() && component@[a] == x;
                            let b = choose|b: int| 0 <= b < component@.len() && component@[b] == y;
                            assert(a != b);
                        } else {
                            assert(is_done(index_map@, onp, x as int));
                        }
                    }
                }
            }
        }
    }
}

} // verus!
