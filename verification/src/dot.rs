//! The block graph written in the DOT language: one node per block, one edge per
//! successor, and each loop drawn as a cluster holding its blocks and the loops inside it.
use vstd::prelude::*;
use crate::blocks::BlockGraph;
use crate::tarjan::Scc;
use crate::text::{nat_to_decimal, spec_decimal};
use crate::lexer::push_char;

verus! {

/// The decimal text of a number that is not negative.
pub open spec fn dec(n: int) -> Seq<char> {
    spec_decimal(n as nat)
}

/// The line of block `i`: its number, `B<i>` as outside label, and `label` (a space where
/// it is empty) as HTML label.
pub open spec fn node_line(i: int, label: Seq<char>) -> Seq<char> {
    dec(i) + " [xlabel=\"B"@ + dec(i) + "\",label=<"@ + (if label.len() == 0 { " "@ } else { label }) + ">];\n"@
}

/// The lines of the first `k` blocks.
pub open spec fn node_lines(labels: Seq<String>, k: int) -> Seq<char>
    decreases k,
{
    if k <= 0 {
        Seq::empty()
    } else {
        node_lines(labels, k - 1) + node_line(k - 1, labels[k - 1]@)
    }
}

/// The edge lines from block `i` to its first `k` successors.
pub open spec fn succ_lines(i: int, succ: Seq<usize>, k: int) -> Seq<char>
    decreases k,
{
    if k <= 0 {
        Seq::empty()
    } else {
        succ_lines(i, succ, k - 1) + dec(i) + ":s -> "@ + dec(succ[k - 1] as int) + ":n;\n"@
    }
}

/// The edge lines of the first `k` blocks, block by block.
pub open spec fn edge_lines(edges: Seq<Vec<usize>>, k: int) -> Seq<char>
    decreases k,
{
    if k <= 0 {
        Seq::empty()
    } else {
        edge_lines(edges, k - 1) + succ_lines(k - 1, edges[k - 1]@, edges[k - 1]@.len() as int)
    }
}

/// The colour of the cluster of loop `i`, taken in turn from six colours.
pub open spec fn loop_color(i: int) -> Seq<char> {
    let m = i % 6;
    if m == 0 {
        "magenta"@
    } else if m == 1 {
        "cyan"@
    } else if m == 2 {
        "lime"@
    } else if m == 3 {
        "hotpink"@
    } else if m == 4 {
        "honeydew"@
    } else {
        "plum"@
    }
}

/// The member lines of the first `k` blocks of a loop.
pub open spec fn member_lines(nodes: Seq<usize>, k: int) -> Seq<char>
    decreases k,
{
    if k <= 0 {
        Seq::empty()
    } else {
        member_lines(nodes, k - 1) + dec(nodes[k - 1] as int) + ";\n"@
    }
}

/// The opening lines of the cluster of loop `idx`: its name, margin, label and colour.
pub open spec fn cluster_head(idx: int) -> Seq<char> {
    "subgraph cluster"@ + dec(idx) + " {\n"@ + "margin=40;\n"@ + "label=\"Loop "@ + dec(idx) + "\";\n"@
        + "pencolor="@ + loop_color(idx) + ";\n"@
}

/// The cluster of loop `idx`: its header lines, its blocks, the clusters of its
/// children, and the closing brace. `depth` bounds the nesting that is written.
pub open spec fn cluster(sccs: Seq<Scc>, idx: int, depth: nat) -> Seq<char>
    decreases depth, 0int, 0int,
{
    if depth == 0 || !(0 <= idx < sccs.len()) {
        Seq::empty()
    } else {
        cluster_head(idx) + member_lines(sccs[idx].nodes@, sccs[idx].nodes@.len() as int)
            + clusters(sccs, sccs[idx].children_idx@, sccs[idx].children_idx@.len() as int, (depth - 1) as nat) + "}\n"@
    }
}

/// The clusters of the first `k` loops of `ids`, in order.
pub open spec fn clusters(sccs: Seq<Scc>, ids: Seq<usize>, k: int, depth: nat) -> Seq<char>
    decreases depth, 1int, k,
{
    if k <= 0 {
        Seq::empty()
    } else {
        clusters(sccs, ids, k - 1, depth) + cluster(sccs, ids[k - 1] as int, depth)
    }
}

/// The clusters of the outermost loops among the first `k`, in order.
pub open spec fn top_clusters(sccs: Seq<Scc>, k: int) -> Seq<char>
    decreases k,
{
    if k <= 0 {
        Seq::empty()
    } else {
        top_clusters(sccs, k - 1) + if sccs[k - 1].parent_idx is None {
            cluster(sccs, k - 1, sccs.len())
        } else {
            Seq::empty()
        }
    }
}

/// The attributes that style the graph, its nodes and its edges.
pub open spec fn dot_attributes() -> Seq<char> {
    "\n    graph[bgcolor=grey16,fontname=monospace,fontcolor=grey64,pencolor=grey32,ranksep=1,nodesep=0.5,labeljust=l];\n    node [shape=box,color=grey64,fontname=monospace,fontcolor=grey64];\n    edge [color=grey64,fontcolor=grey64];\n"@
}

/// The whole DOT text: the opening line with the attributes, the blocks, the edges, the
/// loops where they have been found, and the closing brace.
pub open spec fn spec_dot(edges: Seq<Vec<usize>>, sccs: Option<Vec<Scc>>, labels: Seq<String>) -> Seq<char> {
    "digraph {"@ + dot_attributes() + "\n"@ + node_lines(labels, labels.len() as int)
        + edge_lines(edges, edges.len() as int) + match sccs {
            Some(s) => top_clusters(s@, s@.len() as int),
            None => Seq::empty(),
        } + "}\n"@
}

/// Appends the decimal text of `n`.
fn push_decimal(out: &mut String, n: usize)
    ensures
        final(out)@ == old(out)@ + dec(n as int),
{
    let d = nat_to_decimal(n as u64);
    out.append(d.as_str());
}

/// Appends the opening lines of the cluster of loop `idx`.
fn write_cluster_head(out: &mut String, idx: usize)
    ensures
        final(out)@ == old(out)@ + cluster_head(idx as int),
{
    let ghost o0 = out@;
    out.append("subgraph cluster");
    push_decimal(out, idx);
    out.append(" {\n");
    out.append("margin=40;\n");
    out.append("label=\"Loop ");
    push_decimal(out, idx);
    out.append("\";\n");
    out.append("pencolor=");
    let ghost o1 = out@;
    let m = idx % 6;
    if m == 0 {
        out.append("magenta");
    } else if m == 1 {
        out.append("cyan");
    } else if m == 2 {
        out.append("lime");
    } else if m == 3 {
        out.append("hotpink");
    } else if m == 4 {
        out.append("honeydew");
    } else {
        out.append("plum");
    }
    assert(out@ == o1 + loop_color(idx as int));
    out.append(";\n");
    assert(out@ =~= o0 + cluster_head(idx as int));
}

/// Appends the cluster of loop `idx`.
fn write_cluster(out: &mut String, sccs: &Vec<Scc>, idx: usize, depth: usize)
    ensures
        final(out)@ == old(out)@ + cluster(sccs@, idx as int, depth as nat),
    decreases depth,
{
    if depth == 0 || idx >= sccs.len() {
        assert(old(out)@ + Seq::<char>::empty() =~= old(out)@);
        return;
    }
    let ghost o0 = out@;
    let scc = &sccs[idx];
    write_cluster_head(out, idx);
    let ghost o1 = out@;
    let mut j: usize = 0;
    while j < scc.nodes.len()
        invariant
            0 <= j <= scc.nodes@.len(),
            out@ == o1 + member_lines(scc.nodes@, j as int),
        decreases scc.nodes@.len() - j,
    {
        push_decimal(out, scc.nodes[j]);
        out.append(";\n");
        j = j + 1;
    }
    let ghost o2 = out@;
    let mut c: usize = 0;
    while c < scc.children_idx.len()
        invariant
            0 <= c <= scc.children_idx@.len(),
            idx < sccs@.len(),
            *scc == sccs@[idx as int],
            depth > 0,
            out@ == o2 + clusters(sccs@, scc.children_idx@, c as int, (depth - 1) as nat),
        decreases scc.children_idx@.len() - c,
    {
        write_cluster(out, sccs, scc.children_idx[c], depth - 1);
        c = c + 1;
    }
    out.append("}\n");
    proof {
        assert(out@ =~= o0 + cluster(sccs@, idx as int, depth as nat));
    }
}

impl BlockGraph {
    /// The graph in the DOT language, with `block_labels[i]` as the HTML label of block `i`.
    pub fn dot_text(&self, block_labels: &Vec<String>) -> (r: String)
        ensures
            r@ == spec_dot(self.edges@, self.sccs, block_labels@),
    {
        let mut out = String::new();
        out.append("digraph {");
        out.append("\n    graph[bgcolor=grey16,fontname=monospace,fontcolor=grey64,pencolor=grey32,ranksep=1,nodesep=0.5,labeljust=l];\n    node [shape=box,color=grey64,fontname=monospace,fontcolor=grey64];\n    edge [color=grey64,fontcolor=grey64];\n");
        out.append("\n");
        let ghost o1 = out@;
        let mut i: usize = 0;
        while i < block_labels.len()
            invariant
                0 <= i <= block_labels@.len(),
                out@ == o1 + node_lines(block_labels@, i as int),
            decreases block_labels@.len() - i,
        {
            push_decimal(&mut out, i);
            out.append(" [xlabel=\"B");
            push_decimal(&mut out, i);
            out.append("\",label=<");
            if block_labels[i].as_str().unicode_len() == 0 {
                out.append(" ");
            } else {
                out.append(block_labels[i].as_str());
            }
            out.append(">];\n");
            proof {
                assert(out@ =~= o1 + node_lines(block_labels@, i + 1));
            }
            i = i + 1;
        }
        let ghost o2 = out@;
        let mut b: usize = 0;
        while b < self.edges.len()
            invariant
                0 <= b <= self.edges@.len(),
                out@ == o2 + edge_lines(self.edges@, b as int),
            decreases self.edges@.len() - b,
        {
            let ghost o3 = out@;
            let mut k: usize = 0;
            while k < self.edges[b].len()
                invariant
                    b < self.edges@.len(),
                    0 <= k <= self.edges@[b as int]@.len(),
                    out@ == o3 + succ_lines(b as int, self.edges@[b as int]@, k as int),
                decreases self.edges@[b as int]@.len() - k,
            {
                push_decimal(&mut out, b);
                out.append(":s -> ");
                push_decimal(&mut out, self.edges[b][k]);
                out.append(":n;\n");
                proof {
                    assert(out@ =~= o3 + succ_lines(b as int, self.edges@[b as int]@, k + 1));
                }
                k = k + 1;
            }
            proof {
                assert(out@ =~= o2 + edge_lines(self.edges@, b + 1));
            }
            b = b + 1;
        }
        let ghost o4 = out@;
        match &self.sccs {
            Some(sccs) => {
                let mut t: usize = 0;
                while t < sccs.len()
                    invariant
                        0 <= t <= sccs@.len(),
                        out@ == o4 + top_clusters(sccs@, t as int),
                    decreases sccs@.len() - t,
                {
                    let ghost o5 = out@;
                    if sccs[t].parent_idx.is_none() {
                        write_cluster(&mut out, sccs, t, sccs.len());
                    }
                    proof {
                        assert(out@ =~= o4 + top_clusters(sccs@, t + 1));
                    }
                    t = t + 1;
                }
            },
            None => {},
        }
        out.append("}\n");
        proof {
            assert(out@ =~= spec_dot(self.edges@, self.sccs, block_labels@));
        }
        out
    }
}

/// Text made fit for an HTML label of the graph: two spaces become `&nbsp; `, a tab
/// becomes `&nbsp; &nbsp; ` and a line end becomes a left-aligned line break, read from the
/// front; every other character stays.
pub open spec fn html_spacing(s: Seq<char>) -> Seq<char>
    decreases s.len(),
{
    if s.len() == 0 {
        Seq::empty()
    } else if s.len() >= 2 && s[0] == ' ' && s[1] == ' ' {
        "&nbsp; "@ + html_spacing(s.skip(2))
    } else if s[0] == '\t' {
        "&nbsp; &nbsp; "@ + html_spacing(s.skip(1))
    } else if s[0] == '\n' {
        "<br align=\"left\" />"@ + html_spacing(s.skip(1))
    } else {
        seq![s[0]] + html_spacing(s.skip(1))
    }
}

/// The text with its spaces, tabs and line ends written for an HTML label.
pub fn dot_html_spacing(text: &String) -> (r: String)
    ensures
        r@ == html_spacing(text@),
{
    let s = text.as_str();
    let n = s.unicode_len();
    let mut out = String::new();
    let mut i: usize = 0;
    proof {
        assert(s@.skip(0) =~= s@);
        assert(out@ + html_spacing(s@) =~= html_spacing(s@));
    }
    while i < n
        invariant
            n == s@.len(),
            s@ == text@,
            0 <= i <= n,
            out@ + html_spacing(s@.skip(i as int)) == html_spacing(s@),
        decreases n - i,
    {
        let ghost rest = s@.skip(i as int);
        let c = s.get_char(i);
        if c == ' ' && i + 1 < n && s.get_char(i + 1) == ' ' {
            out.append("&nbsp; ");
            proof {
                assert(rest.skip(2) =~= s@.skip(i + 2));
            }
            i = i + 2;
        } else {
            if c == '\t' {
                out.append("&nbsp; &nbsp; ");
            } else if c == '\n' {
                out.append("<br align=\"left\" />");
            } else {
                push_char(&mut out, c);
            }
            proof {
                assert(rest.skip(1) =~= s@.skip(i + 1));
            }
            i = i + 1;
        }
    }
    proof {
        assert(s@.skip(n as int) =~= Seq::<char>::empty());
        assert(out@ + Seq::<char>::empty() =~= out@);
    }
    out
}

} // verus!
