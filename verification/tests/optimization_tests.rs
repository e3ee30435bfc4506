use spl_compiler::absyn::Program;
use spl_compiler::bits::bits_from_vec;
use spl_compiler::blocks::{Block, BlockContent, BlockGraph};
use spl_compiler::check::check_def_global;
use spl_compiler::codegen::Tac;
use spl_compiler::cp::ConstantPropagation;
use spl_compiler::gen_check::program_gen_check;
use spl_compiler::live::LiveVariables;
use spl_compiler::parser::parse;
use spl_compiler::quadrupel::{Quadrupel, QuadrupelArg, QuadrupelOp, QuadrupelResult, QuadrupelVar};
use spl_compiler::reaching::ReachingDefinitions;
use spl_compiler::semant::build_symbol_table;
use spl_compiler::table::{Entry, SymbolTable, VariableEntry};
use spl_compiler::pass_check::tmps_fresh_check;
use spl_compiler::types::Type;
use spl_compiler::worklist::Definition;

fn chars(s: &str) -> Vec<char> {
    s.chars().collect()
}

fn main_graph(src: &str) -> (BlockGraph, SymbolTable, SymbolTable) {
    let mut p: Program = parse(&chars(src)).expect("parses");
    let t = build_symbol_table(&p).expect("builds its table");
    for d in p.definitions.iter_mut() {
        check_def_global(d, &t).expect("passes the checks");
    }
    assert!(program_gen_check(&p));
    let mut tac = Tac::new(t.clone());
    tac.code_generation(&p);
    let mut gs = tac.proc_graphs();
    let idx = gs.iter().position(|(n, _)| n == "main").unwrap();
    let g = gs.remove(idx).1;
    let local = match t.lookup(&"main".to_string(), None) {
        Some(Entry::ProcedureEntry(pe)) => pe.local_table.clone(),
        _ => panic!("main is a procedure"),
    };
    (g, local, t)
}

fn all_code(g: &BlockGraph) -> Vec<Quadrupel> {
    let mut out = Vec::new();
    for b in &g.blocks {
        if let BlockContent::Code(c) = &b.content {
            out.extend(c.iter().cloned());
        }
    }
    out
}


const LOOP: &str = "proc main() {\n\
    var i: int;\n\
    var k: int;\n\
    var x: int;\n\
    k := 5;\n\
    i := 0;\n\
    x := 0;\n\
    while (i < 3) {\n\
        x := k * 2;\n\
        i := i + 1;\n\
    }\n\
    printi(x);\n\
}";

#[test]
fn bit_vectors_round_trip() {
    let v = vec![true, false, true, true];
    assert_eq!(bits_from_vec(4, &v).to_vec(), v);
    assert_eq!(bits_from_vec(0, &vec![]).to_vec(), Vec::<bool>::new());
}

#[test]
fn preserved_definitions_exclude_those_of_generated_variables() {
    let x = QuadrupelVar::Spl("x".to_string());
    let y = QuadrupelVar::Spl("y".to_string());
    let defs = vec![
        Definition { block_id: 1, quad_id: 0, var: x.clone() },
        Definition { block_id: 2, quad_id: 0, var: x.clone() },
        Definition { block_id: 1, quad_id: 1, var: y.clone() },
    ];
    let gen = bits_from_vec(3, &vec![true, false, false]);
    let prsv = Block::get_rch_prsrv(&gen, &defs);
    assert_eq!(prsv.to_vec(), vec![false, false, true]);
    let gen1 = Block::defs_in_block(1, &defs);
    assert_eq!(gen1.to_vec(), vec![true, false, true]);
}

#[test]
fn reaching_definitions_of_a_loop() {
    let (g, local, global) = main_graph(LOOP);
    assert!(g.defs_resolvable(&local, &global));
    let rd = ReachingDefinitions::run(&g, &local, &global);
    assert_eq!(rd.rchin.len(), g.blocks.len());
    assert_eq!(rd.defs.len(), 3 + all_code(&g).iter().filter(|q| matches!(q.result, QuadrupelResult::Var(_))).count());
    for b in 0..g.blocks.len() {
        let rin = rd.rchin[b].to_vec();
        let prsv = rd.prsv[b].to_vec();
        let gen = rd.gen_bits[b].to_vec();
        let out = rd.rchout[b].to_vec();
        for d in 0..rd.defs.len() {
            assert_eq!(out[d], (rin[d] && prsv[d]) || gen[d]);
        }
        for &s in &g.edges[b] {
            let next_in = rd.rchin[s].to_vec();
            for d in 0..rd.defs.len() {
                assert!(!out[d] || next_in[d]);
            }
        }
    }
}

#[test]
fn live_variables_and_dead_code() {
    let src = "proc main() { var x: int; var y: int; x := 1; y := 7; x := 2; printi(x); }";
    let (mut g, local, global) = main_graph(src);
    let lv = LiveVariables::run(&g, &local, &global);
    assert_eq!(lv.livin.len(), g.blocks.len());
    let before = all_code(&g).len();
    g.dead_code_elimination(&lv);
    let after = all_code(&g);
    assert!(after.len() < before);
    assert!(!after.iter().any(|q| matches!(&q.result, QuadrupelResult::Var(QuadrupelVar::Spl(n)) if n == "y")));
    assert!(after.iter().any(|q| q.op == QuadrupelOp::Assign && matches!(q.arg1, QuadrupelArg::Const(2))));
}

#[test]
fn constant_propagation_and_folding() {
    let src = "proc main() { var x: int; x := 2 + 3; printi(x); }";
    let (mut g, local, global) = main_graph(src);
    let mut cp = ConstantPropagation::run_checked(&g, &local, &global).expect("analysable");
    assert_eq!(cp.ins.len(), g.blocks.len());
    let _ = g.constant_folding(&mut cp, &global);
    assert_eq!(g.blocks.len(), g.edges.len());
}

#[test]
fn common_subexpressions_share_a_temporary() {
    let src = "proc main() { var a: int; var b: int; var x: int; var y: int;\n\
               a := 1; b := 2; x := a + b; y := a + b; printi(x + y); }";
    let (mut g, mut local, global) = main_graph(src);
    let adds_before = all_code(&g).iter().filter(|q| q.op == QuadrupelOp::Add).count();
    assert!(g.cse_checked(&mut local, &global));
    let adds_after = all_code(&g).iter().filter(|q| q.op == QuadrupelOp::Add).count();
    assert_eq!(adds_after + 1, adds_before);
    assert!(local.entries.iter().any(|(n, _)| n.starts_with("T:")));
}

#[test]
fn strongly_connected_components_of_a_loop() {
    let (mut g, _, _) = main_graph(LOOP);
    let sccs = g.tarjan().clone();
    assert_eq!(sccs.len(), 1);
    let nodes = &sccs[0].nodes;
    assert!(nodes.len() >= 2);
    assert!(nodes.windows(2).all(|w| w[0] < w[1]));
    assert!(sccs[0].parent_idx.is_none());
    assert!(g.sccs.is_some());
}

#[test]
fn nested_loops_nest_their_components() {
    let src = "proc main() { var i: int; var j: int;\n\
               i := 0;\n\
               while (i < 3) { j := 0; while (j < 3) { j := j + 1; } i := i + 1; } }";
    let (mut g, _, _) = main_graph(src);
    let sccs = g.tarjan().clone();
    assert_eq!(sccs.len(), 2);
    assert_eq!(sccs[0].children_idx, vec![1]);
    assert_eq!(sccs[1].parent_idx, Some(0));
    assert!(sccs[0].nodes[0] < sccs[1].nodes[0]);
    assert!(sccs[1].nodes.last() < sccs[0].nodes.last());
}

#[test]
fn loop_invariant_code_moves_in_front_of_the_loop() {
    let (mut g, local, global) = main_graph(LOOP);
    let n = g.blocks.len();
    assert!(g.loop_optimization(&local, &global));
    assert_eq!(g.blocks.len(), n + 1);
    let pre = &g.blocks[n];
    assert_eq!(pre.label.as_deref(), Some("n0"));
    match &pre.content {
        BlockContent::Code(c) => {
            assert!(!c.is_empty());
            assert!(c.iter().all(|q| matches!(q.result, QuadrupelResult::Var(_))));
            assert!(c.iter().any(|q| q.op == QuadrupelOp::Mul));
        },
        _ => panic!("the new block holds code"),
    }
    assert_eq!(g.edges[n].len(), 1);
}

#[test]
fn loop_without_invariant_code_is_left_alone() {
    let src = "proc main() { var i: int; i := 0; while (i < 3) { i := i + 1; } }";
    let (mut g, local, global) = main_graph(src);
    let n = g.blocks.len();
    assert!(!g.loop_optimization(&local, &global));
    assert_eq!(g.blocks.len(), n);
}

#[test]
fn temporaries_named_in_the_table_are_found() {
    let mut t = SymbolTable::new();
    t.enter("T:2".to_string(), Entry::VariableEntry(VariableEntry { typ: Type::int_type(), is_reference: false })).unwrap();
    assert!(tmps_fresh_check(&t, 3));
    t.enter("T:05".to_string(), Entry::VariableEntry(VariableEntry { typ: Type::int_type(), is_reference: false })).unwrap();
    assert!(!tmps_fresh_check(&t, 3));
    assert!(tmps_fresh_check(&t, 5));
}

fn reachable(edges: &[Vec<usize>], from: usize, to: usize) -> bool {
    let mut seen = vec![false; edges.len()];
    let mut todo = vec![from];
    while let Some(x) = todo.pop() {
        if x == to {
            return true;
        }
        if !seen[x] {
            seen[x] = true;
            todo.extend(edges[x].iter().copied());
        }
    }
    false
}

#[test]
fn components_are_strongly_connected() {
    let src = "proc main() { var i: int; var j: int;\n\
               i := 0;\n\
               while (i < 3) { j := 0; while (j < 3) { j := j + 1; } i := i + 1; }\n\
               while (i > 0) { i := i - 1; } }";
    let (mut g, _, _) = main_graph(src);
    let sccs = g.tarjan().clone();
    assert!(sccs.len() >= 3);
    for c in &sccs {
        for &a in &c.nodes {
            for &b in &c.nodes {
                assert!(reachable(&g.edges, a, b));
            }
        }
    }
}

#[test]
fn settled_loops_keep_the_graph() {
    let src = "proc main() { var i: int; i := 0; while (i < 3) { i := i + 1; } }";
    let (mut g, local, global) = main_graph(src);
    let before_blocks: Vec<Vec<Quadrupel>> = g.blocks.iter().map(|b| match &b.content {
        BlockContent::Code(c) => c.clone(),
        _ => Vec::new(),
    }).collect();
    let before_edges = g.edges.clone();
    assert!(!g.loop_optimization(&local, &global));
    let after_blocks: Vec<Vec<Quadrupel>> = g.blocks.iter().map(|b| match &b.content {
        BlockContent::Code(c) => c.clone(),
        _ => Vec::new(),
    }).collect();
    assert_eq!(before_blocks, after_blocks);
    assert_eq!(before_edges, g.edges);
    assert!(g.sccs.as_ref().map_or(false, |s| s.len() == 1));
}

const DOT_HEAD: &str = "digraph {\n    graph[bgcolor=grey16,fontname=monospace,fontcolor=grey64,pencolor=grey32,ranksep=1,nodesep=0.5,labeljust=l];\n    node [shape=box,color=grey64,fontname=monospace,fontcolor=grey64];\n    edge [color=grey64,fontcolor=grey64];\n\n";

#[test]
fn dot_text_lists_blocks_edges_and_loops() {
    let mut g = BlockGraph::new();
    g.blocks = vec![Block::new_start(None), Block::new_stop(None), Block::new_stop(None)];
    g.edges = vec![vec![1], vec![2], vec![1]];
    let labels = vec!["a".to_string(), String::new(), "c".to_string()];
    let plain = g.dot_text(&labels);
    let expected = format!(
        "{DOT_HEAD}0 [xlabel=\"B0\",label=<a>];\n1 [xlabel=\"B1\",label=< >];\n2 [xlabel=\"B2\",label=<c>];\n\
         0:s -> 1:n;\n1:s -> 2:n;\n2:s -> 1:n;\n}}\n"
    );
    assert_eq!(plain, expected);
    g.tarjan();
    let with_loop = g.dot_text(&labels);
    assert!(with_loop.ends_with(
        "subgraph cluster0 {\nmargin=40;\nlabel=\"Loop 0\";\npencolor=magenta;\n1;\n2;\n}\n}\n"
    ));
}

#[test]
fn html_labels_keep_their_spacing() {
    let s = spl_compiler::dot::dot_html_spacing(&"a   b\tc\n".to_string());
    assert_eq!(s, "a&nbsp;  b&nbsp; &nbsp; c<br align=\"left\" />");
}

#[test]
fn tarjan_finds_the_single_loop() {
    let mut g = BlockGraph::new();
    g.blocks = vec![Block::new_start(None), Block::new_stop(None), Block::new_stop(None), Block::new_stop(None), Block::new_stop(None)];
    g.edges = vec![vec![1], vec![2], vec![3], vec![1, 4], vec![]];
    let sccs = g.tarjan().clone();
    assert_eq!(sccs.len(), 1);
    assert_eq!(sccs[0].nodes, vec![1, 2, 3]);
    assert!(sccs[0].parent_idx.is_none());
    assert!(sccs[0].children_idx.is_empty());
}

#[test]
fn an_edge_added_then_removed_leaves_the_successors() {
    let mut g = BlockGraph::new();
    g.blocks = vec![Block::new_start(None), Block::new_stop(None)];
    g.edges = vec![vec![1], vec![]];
    g.add_edge(0, 7);
    assert_eq!(g.edges[0], vec![1, 7]);
    g.remove_edge(0, 7);
    assert_eq!(g.edges[0], vec![1]);
    assert!(g.edges[1].is_empty());
    g.add_edge(1, 0);
    g.add_edge(1, 0);
    assert_eq!(g.edges[1], vec![0]);
}
