use spl_compiler::absyn::{CallStatement, Expression, Program};
use spl_compiler::blocks::{BlockContent, BlockGraph};
use spl_compiler::check::check_def_global;
use spl_compiler::clock::init_start_time;
use spl_compiler::codegen::Tac;
use spl_compiler::gen_check::program_gen_check;
use spl_compiler::parser::parse;
use spl_compiler::quadrupel::{Quadrupel, QuadrupelArg, QuadrupelOp, QuadrupelResult, QuadrupelVar};
use spl_compiler::semant::build_symbol_table;
use spl_compiler::table::{Entry, Parameter, SemanticErrorKind, SymbolTable, VariableEntry};
use spl_compiler::types::Type;
use spl_compiler::env::Environment;
use spl_compiler::tac_interp::{bind_arguments, eval_function, eval_quad, eval_tac, parse_arg_ref, TacContext};
use spl_compiler::ast_interp::{eval_call_statement, eval_program, start_main, AstContext};
use spl_compiler::value::{Output, RuntimeError, Store, Value};

fn chars(s: &str) -> Vec<char> {
    s.chars().collect()
}

fn checked(src: &str) -> (Program, SymbolTable) {
    let mut p = parse(&chars(src)).expect("parses");
    let t = build_symbol_table(&p).expect("builds its table");
    for d in p.definitions.iter_mut() {
        check_def_global(d, &t).expect("passes the checks");
    }
    (p, t)
}

fn graphs(p: &Program, t: &SymbolTable) -> Vec<(String, BlockGraph)> {
    assert!(program_gen_check(p));
    let mut tac = Tac::new(t.clone());
    tac.code_generation(p);
    tac.proc_graphs()
}

const SUM: &str = "proc main() {\n\
    var i: int;\n\
    var s: int;\n\
    var a: array [4] of int;\n\
    i := 0;\n\
    s := 0;\n\
    while (i < 4) {\n\
        a[i] := i * 2;\n\
        s := s + a[i];\n\
        i := i + 1;\n\
    }\n\
    printi(s);\n\
    printc('\\n');\n\
}";

#[test]
fn semantic_errors_are_found() {
    let mut p = parse(&chars("proc main() { x := 1; }")).unwrap();
    let t = build_symbol_table(&p).unwrap();
    let e = check_def_global(&mut p.definitions[0], &t).unwrap_err();
    assert_eq!(e.kind, SemanticErrorKind::UndefinedIdentifier);

    let mut p = parse(&chars("proc main() { var b: int; if (b) b := 1; }")).unwrap();
    let t = build_symbol_table(&p).unwrap();
    let e = check_def_global(&mut p.definitions[0], &t).unwrap_err();
    assert_eq!(e.kind, SemanticErrorKind::IfConditionMustBeBoolean);

    let p = parse(&chars("proc main() { } proc main() { }")).unwrap();
    assert_eq!(build_symbol_table(&p).unwrap_err().kind, SemanticErrorKind::AlreadyDefined);

    let p = parse(&chars("type t = nosuch;")).unwrap();
    assert_eq!(build_symbol_table(&p).unwrap_err().kind, SemanticErrorKind::TypeNotFound);
}

#[test]
fn procedures_are_entered_with_their_locals() {
    let (_, t) = checked(SUM);
    match t.lookup(&"main".to_string(), None) {
        Some(Entry::ProcedureEntry(pe)) => {
            assert_eq!(pe.parameters.len(), 0);
            assert!(pe.local_table.lookup_local(&"a".to_string()).is_some());
        },
        _ => panic!("main is a procedure"),
    }
}

#[test]
fn code_generation_starts_each_procedure_with_its_name() {
    let (p, t) = checked(SUM);
    assert!(program_gen_check(&p));
    let mut tac = Tac::new(t.clone());
    tac.code_generation(&p);
    let procs = tac.procedures();
    assert_eq!(procs.len(), 1);
    assert_eq!(procs[0].0, "main");
    let first = &procs[0].1[0];
    assert_eq!(first.op, QuadrupelOp::Default);
    match &first.result {
        QuadrupelResult::Label(l) => assert_eq!(l, "main"),
        _ => panic!("the code starts with a label"),
    }
}

#[test]
fn code_generation_follows_the_translation_scheme() {
    let (p, t) = checked("proc main() { var x: int; x := 1 + 2 * 3; if (x < 7) x := 0; }");
    assert!(program_gen_check(&p));
    let mut tac = Tac::new(t.clone());
    tac.code_generation(&p);
    let code = &tac.procedures()[0].1;
    let spl = |n: &str| QuadrupelVar::Spl(n.to_string());
    let label = |n: &str| QuadrupelResult::Label(n.to_string());
    assert_eq!(code.len(), 7);
    assert_eq!((code[0].op, &code[0].result), (QuadrupelOp::Default, &label("main")));
    assert_eq!(code[1].op, QuadrupelOp::Mul);
    assert_eq!((&code[1].arg1, &code[1].arg2), (&QuadrupelArg::Const(2), &QuadrupelArg::Const(3)));
    assert_eq!(code[1].result, QuadrupelResult::Var(QuadrupelVar::Tmp(0)));
    assert_eq!(code[2].op, QuadrupelOp::Add);
    assert_eq!((&code[2].arg1, &code[2].arg2), (&QuadrupelArg::Const(1), &QuadrupelArg::Var(QuadrupelVar::Tmp(0))));
    assert_eq!(code[2].result, QuadrupelResult::Var(spl("x")));
    assert_eq!(code[3].op, QuadrupelOp::Gre);
    assert_eq!((&code[3].arg1, &code[3].arg2), (&QuadrupelArg::Var(spl("x")), &QuadrupelArg::Const(7)));
    assert_eq!(code[3].result, label("L0"));
    assert_eq!((code[4].op, &code[4].arg1), (QuadrupelOp::Assign, &QuadrupelArg::Const(0)));
    assert_eq!(code[4].result, QuadrupelResult::Var(spl("x")));
    assert_eq!((code[5].op, &code[5].result), (QuadrupelOp::Default, &label("L0")));
    assert_eq!((code[6].op, &code[6].result), (QuadrupelOp::Default, &label("L1")));
}

#[test]
fn block_graph_of_generated_code() {
    let (p, t) = checked(SUM);
    let g = graphs(&p, &t);
    let bg = &g[0].1;
    assert_eq!(bg.blocks[0].label.as_deref(), Some("start"));
    assert_eq!(bg.blocks.last().unwrap().label.as_deref(), Some("stop"));
    assert!(matches!(bg.blocks[0].content, BlockContent::Start));
    assert_eq!(bg.edges.len(), bg.blocks.len());
    assert!(bg.edges[0].contains(&1));
}

#[test]
fn both_interpreters_print_the_same() {
    let (p, t) = checked(SUM);
    let start = init_start_time();
    let (out_ast, r_ast) = start_main(&p, &t, &start, 1000);
    assert!(r_ast.is_ok(), "{:?}", r_ast);
    assert_eq!(out_ast, vec![Output::Int(12), Output::Char(10)]);
    let g = graphs(&p, &t);
    let (out_tac, r_tac) = eval_tac(&g, &t, &start, 1000);
    assert!(r_tac.is_ok(), "{:?} after {:?}", r_tac, out_tac);
    assert_eq!(out_tac, out_ast);
}

#[test]
fn reference_parameters_write_through() {
    let src = "proc inc(ref x: int) { x := x + 1; }\n\
               proc main() { var a: int; a := 41; inc(a); printi(a); }";
    let (p, t) = checked(src);
    let start = init_start_time();
    let (out, r) = start_main(&p, &t, &start, 1000);
    assert!(r.is_ok());
    assert_eq!(out, vec![Output::Int(42)]);
    let (out_tac, r_tac) = eval_tac(&graphs(&p, &t), &t, &start, 1000);
    assert!(r_tac.is_ok(), "{:?} after {:?}", r_tac, out_tac);
    assert_eq!(out_tac, vec![Output::Int(42)]);
}

#[test]
fn index_out_of_bounds_stops_the_run() {
    let src = "proc main() { var a: array [2] of int; var i: int; i := 5; a[i] := 1; }";
    let (p, t) = checked(src);
    let start = init_start_time();
    let (_, r) = start_main(&p, &t, &start, 1000);
    assert!(matches!(r, Err(RuntimeError::IndexOutOfBounds(2, 5))));
}

#[test]
fn division_by_zero_stops_the_run() {
    let src = "proc main() { var z: int; z := 0; printi(1 / z); }";
    let (p, t) = checked(src);
    let start = init_start_time();
    let (out, r) = start_main(&p, &t, &start, 1000);
    assert!(out.is_empty());
    assert!(matches!(r, Err(RuntimeError::DivisionByZero)));
    let (_, r_tac) = eval_tac(&graphs(&p, &t), &t, &start, 1000);
    assert!(matches!(r_tac, Err(RuntimeError::DivisionByZero)));
}

#[test]
fn unimplemented_builtins_are_reported() {
    let src = "proc main() { exit(); }";
    let (p, t) = checked(src);
    let start = init_start_time();
    let (_, r) = start_main(&p, &t, &start, 1000);
    assert!(matches!(r, Err(RuntimeError::NotImplemented(_))));
}

#[test]
fn printc_of_a_non_byte_is_refused() {
    let src = "proc main() { printc(300); }";
    let (p, t) = checked(src);
    let start = init_start_time();
    let (_, r) = start_main(&p, &t, &start, 1000);
    assert!(matches!(r, Err(RuntimeError::InvalidChar(300))));
}

#[test]
fn running_out_of_fuel_is_reported() {
    let src = "proc main() { var i: int; i := 0; while (i < 1) { i := 0; } }";
    let (p, t) = checked(src);
    let start = init_start_time();
    let (_, r) = start_main(&p, &t, &start, 50);
    assert!(matches!(r, Err(RuntimeError::OutOfFuel)));
}

#[test]
fn arithmetic_overflow_stops_the_run() {
    let src = "proc main() { var x: int; x := 2147483647; x := x + 1; }";
    let (p, t) = checked(src);
    let start = init_start_time();
    let (_, r) = start_main(&p, &t, &start, 1000);
    assert!(matches!(r, Err(RuntimeError::Overflow)));
}

#[test]
fn a_program_without_main_cannot_run() {
    let (p, t) = checked("proc helper() { }");
    let start = init_start_time();
    let (_, r) = start_main(&p, &t, &start, 1000);
    assert!(matches!(r, Err(RuntimeError::NotImplemented(ref n)) if n == "main"));
    let (_, r_tac) = eval_tac(&graphs(&p, &t), &t, &start, 1000);
    assert!(matches!(r_tac, Err(RuntimeError::NotImplemented(ref n)) if n == "main"));
    let mut g = graphs(&p, &t);
    g[0].0 = "nowhere".to_string();
    let (_, r_missing) = eval_tac(&g, &t, &start, 1000);
    assert!(matches!(r_missing, Err(RuntimeError::NotFound(ref n)) if n == "nowhere"));
}

#[test]
fn time_reads_the_clock() {
    let src = "proc main() { var t: int; t := 7; time(t); printi(t); }";
    let (p, t) = checked(src);
    let start = init_start_time();
    let (out, r) = start_main(&p, &t, &start, 1000);
    assert!(r.is_ok(), "{:?}", r);
    assert_eq!(out.len(), 1);
    match out[0] {
        Output::Int(s) => assert!((0..5).contains(&s)),
        _ => panic!("expected a number"),
    }
}

#[test]
fn procedures_missing_from_the_table_stop_the_run() {
    let p = parse(&chars("proc main() { }")).unwrap();
    let t = SymbolTable::new();
    let mut store = Store { cells: Vec::new(), functions: Vec::new(), output: Vec::new() };
    match eval_program(&p, &t, &mut store) {
        Err(RuntimeError::NotFound(n)) => assert_eq!(n, "main"),
        _ => panic!("main is not in the table"),
    }
    let (p, t) = checked("proc main() { }");
    let mut store = Store { cells: Vec::new(), functions: Vec::new(), output: Vec::new() };
    let env = eval_program(&p, &t, &mut store).ok().expect("runs");
    assert_eq!(env.frames[0].vars.len(), 4);
    assert_eq!(env.frames[0].vars[3].0, "main");
}

#[test]
fn operands_resolve_to_cells() {
    let mut store = Store { cells: Vec::new(), functions: Vec::new(), output: Vec::new() };
    let mut table = SymbolTable::new();
    table
        .enter("v".to_string(), Entry::VariableEntry(VariableEntry { typ: Type::int_type(), is_reference: false }))
        .expect("enters v");
    let mut env = Environment::new_global(&mut store, Vec::new(), table);
    let before = store.cells.len();
    let unknown = parse_arg_ref(&QuadrupelArg::Var(QuadrupelVar::Spl("q".to_string())), &mut env, &mut store);
    assert!(matches!(unknown, Err(RuntimeError::NotFound(ref n)) if n == "q"));
    assert_eq!(store.cells.len(), before);
    let declared = parse_arg_ref(&QuadrupelArg::Var(QuadrupelVar::Spl("v".to_string())), &mut env, &mut store).expect("declared");
    assert!(matches!(store.cells[declared], Value::Int(0)));
    let again = parse_arg_ref(&QuadrupelArg::Var(QuadrupelVar::Spl("v".to_string())), &mut env, &mut store).expect("bound");
    assert_eq!(again, declared);
    let constant = parse_arg_ref(&QuadrupelArg::Const(7), &mut env, &mut store).expect("constant");
    assert!(matches!(store.cells[constant], Value::Int(7)));
    assert!(matches!(parse_arg_ref(&QuadrupelArg::Empty, &mut env, &mut store), Err(RuntimeError::TypeMismatch)));
}

#[test]
fn deeply_nested_local_arrays_run() {
    let mut ty = String::from("int");
    for _ in 0..70 {
        ty = format!("array [1] of {ty}");
    }
    let src = format!("proc main() {{ var a: {ty}; printi(3); }}");
    let (p, t) = checked(&src);
    let start = init_start_time();
    let (out, r) = eval_tac(&graphs(&p, &t), &t, &start, 1000);
    assert!(r.is_ok());
    assert_eq!(out, vec![Output::Int(3)]);
}

#[test]
fn builtins_print_their_argument() {
    let start = init_start_time();
    let mut store = Store { cells: Vec::new(), functions: Vec::new(), output: Vec::new() };
    let mut env = Environment::new_global(&mut store, Vec::new(), SymbolTable::new());
    let graphs: Vec<(String, BlockGraph)> = Vec::new();
    let tctx = TacContext { graphs: &graphs, start: &start };
    let five = Value::new_refcell(&mut store, Value::Int(5));
    let mut args = vec![five];
    assert!(eval_function(&"printi".to_string(), &mut args, &mut env, &mut store, &tctx, 10).is_ok());
    assert_eq!(store.output, vec![Output::Int(5)]);
    let big = Value::new_refcell(&mut store, Value::Int(300));
    let mut args = vec![big];
    assert!(matches!(eval_function(&"printc".to_string(), &mut args, &mut env, &mut store, &tctx, 10), Err(RuntimeError::InvalidChar(300))));
    let program = Program { definitions: Vec::new() };
    let actx = AstContext { program: &program, start: &start };
    let call = CallStatement { name: "printc".to_string(), arguments: vec![Expression::IntLiteral(65)] };
    assert!(eval_call_statement(&call, &SymbolTable::new(), &mut env, &mut store, &actx, 10).is_ok());
    assert_eq!(store.output, vec![Output::Int(5), Output::Char(65)]);
}

#[test]
fn params_and_calls_of_quadruples() {
    let start = init_start_time();
    let mut store = Store { cells: Vec::new(), functions: Vec::new(), output: Vec::new() };
    let mut env = Environment::new_global(&mut store, Vec::new(), SymbolTable::new());
    let graphs: Vec<(String, BlockGraph)> = Vec::new();
    let ctx = TacContext { graphs: &graphs, start: &start };
    let mut args: Vec<usize> = Vec::new();
    let unknown = Quadrupel { op: QuadrupelOp::Param, arg1: QuadrupelArg::Var(QuadrupelVar::Spl("zz".to_string())),
        arg2: QuadrupelArg::Empty, result: QuadrupelResult::Empty };
    assert!(matches!(eval_quad(&mut args, &unknown, &mut env, &mut store, &ctx, 5), Err(RuntimeError::NotFound(ref n)) if n == "zz"));
    assert!(args.is_empty());
    let seven = Quadrupel { op: QuadrupelOp::Param, arg1: QuadrupelArg::Const(7), arg2: QuadrupelArg::Empty,
        result: QuadrupelResult::Empty };
    assert_eq!(eval_quad(&mut args, &seven, &mut env, &mut store, &ctx, 5).unwrap(), None);
    assert_eq!(args.len(), 1);
    assert!(matches!(store.cells[args[0]], Value::Int(7)));
    let call = Quadrupel { op: QuadrupelOp::Call, arg1: QuadrupelArg::Var(QuadrupelVar::Spl("printi".to_string())),
        arg2: QuadrupelArg::Empty, result: QuadrupelResult::Empty };
    assert!(matches!(eval_quad(&mut args, &call, &mut env, &mut store, &ctx, 0), Err(RuntimeError::OutOfFuel)));
    assert_eq!(eval_quad(&mut args, &call, &mut env, &mut store, &ctx, 5).unwrap(), None);
    assert!(args.is_empty());
    assert_eq!(store.output, vec![Output::Int(7)]);
    let missing = Quadrupel { op: QuadrupelOp::Call, arg1: QuadrupelArg::Var(QuadrupelVar::Spl("clearAll".to_string())),
        arg2: QuadrupelArg::Empty, result: QuadrupelResult::Empty };
    assert!(matches!(eval_quad(&mut args, &missing, &mut env, &mut store, &ctx, 5), Err(RuntimeError::NotImplemented(ref n)) if n == "clearAll"));
}

#[test]
fn value_parameters_get_copies_and_reference_parameters_the_cell() {
    let mut store = Store { cells: vec![Value::Int(5), Value::Int(7)], functions: vec![], output: vec![] };
    let params = vec![
        Parameter::new("a".to_string(), Type::int_type(), false),
        Parameter::new("b".to_string(), Type::int_type(), true),
    ];
    let vars = bind_arguments(&params, &vec![0, 1], &mut store).unwrap();
    assert_eq!(vars, vec![("a".to_string(), 2), ("b".to_string(), 1)]);
    assert_eq!(store.cells.len(), 3);
    assert!(matches!(store.cells[2], Value::Int(5)));
    let e = bind_arguments(&params, &vec![9, 1], &mut store);
    assert!(matches!(e, Err(RuntimeError::TypeMismatch)));
}
