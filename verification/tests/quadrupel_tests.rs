use spl_compiler::absyn::Operator;
use spl_compiler::quadrupel::{Quadrupel, QuadrupelArg, QuadrupelOp, QuadrupelResult, QuadrupelVar};
use spl_compiler::listing::{quad_columns, var_column};
use spl_compiler::text::nat_to_decimal;
use spl_compiler::types::{ArrayType, PrimitiveType, Type};
use spl_compiler::value::{checked_array_index, eval_array_index, RuntimeError};

fn quad(op: QuadrupelOp, a: QuadrupelArg, b: QuadrupelArg) -> Quadrupel {
    Quadrupel { op, arg1: a, arg2: b, result: QuadrupelResult::Var(QuadrupelVar::Tmp(1)) }
}

fn var(n: &str) -> QuadrupelArg {
    QuadrupelArg::Var(QuadrupelVar::Spl(n.to_string()))
}

#[test]
fn constants_are_folded() {
    let q = quad(QuadrupelOp::Add, QuadrupelArg::Const(2), QuadrupelArg::Const(3));
    assert_eq!(q.calc_const(), Some(5));
    let q = quad(QuadrupelOp::Div, QuadrupelArg::Const(7), QuadrupelArg::Const(2));
    assert_eq!(q.calc_const(), Some(3));
    let q = quad(QuadrupelOp::Div, QuadrupelArg::Const(7), QuadrupelArg::Const(0));
    assert_eq!(q.calc_const(), None);
    let q = quad(QuadrupelOp::Add, QuadrupelArg::Const(i32::MAX), QuadrupelArg::Const(1));
    assert_eq!(q.calc_const(), None);
    let q = quad(QuadrupelOp::Neg, QuadrupelArg::Const(4), QuadrupelArg::Empty);
    assert_eq!(q.calc_const(), Some(-4));
}

#[test]
fn comparisons_of_constants() {
    let q = quad(QuadrupelOp::Lst, QuadrupelArg::Const(1), QuadrupelArg::Const(2));
    assert_eq!(q.cmp_const(), Some(true));
    let q = quad(QuadrupelOp::Equ, QuadrupelArg::Const(1), QuadrupelArg::Const(2));
    assert_eq!(q.cmp_const(), Some(false));
    let q = quad(QuadrupelOp::Lst, var("a"), QuadrupelArg::Const(2));
    assert_eq!(q.cmp_const(), None);
}

#[test]
fn algebraic_identities() {
    let s = quad(QuadrupelOp::Add, QuadrupelArg::Const(0), var("a")).simplify().unwrap();
    assert_eq!(s.op, QuadrupelOp::Assign);
    assert!(s.arg1.equals(&var("a")));
    let s = quad(QuadrupelOp::Mul, var("a"), QuadrupelArg::Const(2)).simplify().unwrap();
    assert_eq!(s.op, QuadrupelOp::Add);
    assert!(s.arg1.equals(&var("a")) && s.arg2.equals(&var("a")));
    let s = quad(QuadrupelOp::Sub, var("a"), var("a")).simplify().unwrap();
    assert_eq!(s.op, QuadrupelOp::Assign);
    assert!(s.arg1.equals(&QuadrupelArg::Const(0)));
    let s = quad(QuadrupelOp::Sub, QuadrupelArg::Const(0), var("a")).simplify().unwrap();
    assert_eq!(s.op, QuadrupelOp::Neg);
    let q = Quadrupel {
        op: QuadrupelOp::Lst,
        arg1: QuadrupelArg::Const(3),
        arg2: QuadrupelArg::Const(2),
        result: QuadrupelResult::Label("L1".to_string()),
    };
    assert!(q.simplify().is_none());
    let q = Quadrupel {
        op: QuadrupelOp::Lst,
        arg1: QuadrupelArg::Const(1),
        arg2: QuadrupelArg::Const(2),
        result: QuadrupelResult::Label("L1".to_string()),
    };
    assert_eq!(q.simplify().unwrap().op, QuadrupelOp::Goto);
    let s = quad(QuadrupelOp::Add, var("a"), var("b")).simplify().unwrap();
    assert_eq!(s.op, QuadrupelOp::Add);
}

#[test]
fn empty_quadruples_are_filtered() {
    let mut v = vec![Quadrupel::empty(), quad(QuadrupelOp::Add, var("a"), var("b")), Quadrupel::empty()];
    Quadrupel::filter_empty(&mut v);
    assert_eq!(v.len(), 1);
    assert!(Quadrupel::empty().is_empty());
}

#[test]
fn relations_invert() {
    assert_eq!(QuadrupelOp::Lst.inv(), QuadrupelOp::Gre);
    assert_eq!(QuadrupelOp::Equ.inv(), QuadrupelOp::Neq);
    assert_eq!(QuadrupelOp::Grt.inv(), QuadrupelOp::Lse);
    assert!(QuadrupelOp::Lse.is_relop());
    assert!(!QuadrupelOp::Add.is_relop());
    assert!(QuadrupelOp::Goto.is_any_jump());
    assert!(QuadrupelOp::Neq.is_any_jump());
    assert!(!QuadrupelOp::Assign.is_any_jump());
    assert_eq!(QuadrupelOp::from_operator(Operator::Gre), QuadrupelOp::Gre);
}

#[test]
fn temporaries_have_names() {
    assert_eq!(QuadrupelVar::Tmp(12).to_identifier(), "T:12");
    assert_eq!(QuadrupelVar::Spl("x".to_string()).to_identifier(), "x");
    assert_eq!(nat_to_decimal(0), "0");
    assert_eq!(nat_to_decimal(907), "907");
}

#[test]
fn byte_sizes() {
    let int = Type::PrimitiveType(PrimitiveType::Int);
    assert_eq!(int.get_byte_size(), 4);
    let arr = Type::ArrayType(ArrayType { base_type: Box::new(int.clone()), size: 5 });
    assert_eq!(arr.get_byte_size(), 20);
    let nested = Type::ArrayType(ArrayType { base_type: Box::new(arr.clone()), size: 3 });
    assert_eq!(nested.byte_size_checked(), Some(60));
    let boolean = Type::PrimitiveType(PrimitiveType::Bool);
    assert_eq!(boolean.byte_size_checked(), None);
    let huge = Type::ArrayType(ArrayType { base_type: Box::new(int.clone()), size: 1 << 30 });
    assert_eq!(huge.byte_size_checked(), None);
    assert!(arr.is_array() && int.is_int() && boolean.is_bool());
}

#[test]
fn array_indices_are_checked() {
    assert_eq!(eval_array_index(2, 3), 2);
    assert_eq!(checked_array_index(2, 3).unwrap(), 2);
    assert!(matches!(checked_array_index(3, 3), Err(RuntimeError::IndexOutOfBounds(3, 3))));
    assert!(matches!(checked_array_index(-1, 3), Err(RuntimeError::IndexOutOfBounds(3, -1))));
}

#[test]
fn listing_columns_are_padded() {
    let q = Quadrupel {
        op: QuadrupelOp::Add,
        arg1: QuadrupelArg::Var(QuadrupelVar::Tmp(3)),
        arg2: QuadrupelArg::Const(-42),
        result: QuadrupelResult::Var(QuadrupelVar::Spl("x".to_string())),
    };
    let (op, a1, a2, res) = quad_columns(&q);
    assert_eq!(op, format!("{:<15}", "ADD"));
    assert_eq!(a1, format!("T:{:<13}", 3));
    assert_eq!(a2, format!("{:<15}", -42));
    assert_eq!(res, format!("{:<15}", "x"));
    assert_eq!(var_column(&QuadrupelVar::Spl("a_rather_long_name".to_string())), "a_rather_long_name");
    let l = Quadrupel { op: QuadrupelOp::Default, arg1: QuadrupelArg::Empty, arg2: QuadrupelArg::Empty,
        result: QuadrupelResult::Label("L1".to_string()) };
    let (op, a1, _, res) = quad_columns(&l);
    assert_eq!(op, " ".repeat(15));
    assert_eq!(a1, " ".repeat(15));
    assert_eq!(res, "L1");
}

#[test]
fn plain_listing_of_a_procedure() {
    let src: Vec<char> = "proc main() { var x: int; x := 1; }".chars().collect();
    let mut p = spl_compiler::parser::parse(&src).unwrap();
    let t = spl_compiler::semant::build_symbol_table(&p).unwrap();
    for d in p.definitions.iter_mut() {
        spl_compiler::check::check_def_global(d, &t).unwrap();
    }
    assert!(spl_compiler::gen_check::program_gen_check(&p));
    let mut tac = spl_compiler::codegen::Tac::new(t.clone());
    tac.code_generation(&p);
    let text = tac.listing();
    let rule = "-".repeat(58);
    assert!(text.ends_with(&format!("{rule}\n\n")));
    assert!(text.contains("\tASSIGN"));
    assert!(text.contains("|x"));
}
