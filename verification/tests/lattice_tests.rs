use spl_compiler::bits::{bits_from_vec, Bits};
use spl_compiler::cp::{ConstantPropagation, Constness};
use spl_compiler::reaching::ReachingDefinitions;
use spl_compiler::lattice::{Lattice, LatticeJoinAssign};
use spl_compiler::live::LiveVariables;
use spl_compiler::quadrupel::QuadrupelVar;
use spl_compiler::worklist::{EdgeDirection, GetVarIdx, Worklist};

#[test]
fn constness_meet_keeps_agreeing_constants() {
    assert_eq!(Constness::Constant(3).meet(&Constness::Constant(3)), Constness::Constant(3));
    assert_eq!(Constness::Constant(3).meet(&Constness::Constant(4)), Constness::Variable);
    assert_eq!(Constness::Undefined.meet(&Constness::Constant(2)), Constness::Constant(2));
    assert_eq!(Constness::Variable.meet(&Constness::Undefined), Constness::Variable);
    assert_eq!(<Constness as Lattice>::init(7), Constness::Undefined);
}

#[test]
fn constness_join_is_dual_to_meet() {
    assert_eq!(Constness::Constant(3).join(&Constness::Constant(4)), Constness::Undefined);
    assert_eq!(Constness::Variable.join(&Constness::Constant(5)), Constness::Constant(5));
    assert_eq!(Constness::Constant(6).join(&Constness::Constant(6)), Constness::Constant(6));
    let mut c = Constness::Constant(1);
    c.join_assign(&Constness::Constant(2));
    assert_eq!(c, Constness::Undefined);
    let mut d = Constness::Variable;
    d.join_assign(&Constness::Constant(9));
    assert_eq!(d, Constness::Constant(9));
}

#[test]
fn bit_vectors_meet_and_join_bitwise() {
    let a = bits_from_vec(3, &vec![true, false, true]);
    let b = bits_from_vec(3, &vec![true, true, false]);
    assert_eq!(a.meet(&b).to_vec(), vec![true, false, false]);
    assert_eq!(a.join(&b).to_vec(), vec![true, true, true]);
    assert_eq!(<Bits as Lattice>::init(4).to_vec(), vec![false; 4]);
    let mut c = bits_from_vec(3, &vec![false, false, true]);
    c.join_assign(&b);
    assert_eq!(c.to_vec(), vec![true, true, true]);
}

#[test]
fn lists_of_facts_combine_position_by_position() {
    let x = vec![Constness::Constant(1), Constness::Variable];
    let y = vec![Constness::Constant(2), Constness::Constant(3)];
    assert_eq!(Lattice::join(&x, &y), vec![Constness::Undefined, Constness::Constant(3)]);
    assert_eq!(Lattice::meet(&x, &y), vec![Constness::Variable, Constness::Variable]);
    let z: Vec<Constness> = Lattice::init(3);
    assert_eq!(z, vec![Constness::Undefined; 3]);
    let mut w = x.clone();
    LatticeJoinAssign::join_assign(&mut w, &y);
    assert_eq!(w, vec![Constness::Undefined, Constness::Constant(3)]);
}

#[test]
fn tracked_variables_are_found_by_position() {
    let lv = LiveVariables {
        vars: vec![QuadrupelVar::Spl("x".to_string()), QuadrupelVar::Tmp(1), QuadrupelVar::Spl("y".to_string())],
        def: Vec::new(),
        use_bits: Vec::new(),
        livin: Vec::new(),
        livout: Vec::new(),
    };
    assert_eq!(lv.get_var_idx(&QuadrupelVar::Tmp(1)), Some(1));
    assert_eq!(lv.get_var_idx(&QuadrupelVar::Spl("y".to_string())), Some(2));
    assert_eq!(lv.get_var_idx(&QuadrupelVar::Spl("z".to_string())), None);
    assert_eq!(lv.vars().len(), 3);
    let list = [QuadrupelVar::Tmp(4), QuadrupelVar::Tmp(4)];
    assert_eq!(<LiveVariables as GetVarIdx<QuadrupelVar>>::get_var_idx_in(&list, &QuadrupelVar::Tmp(4)), Some(0));
}

#[test]
fn analyses_flow_in_their_directions() {
    assert_eq!(<ReachingDefinitions as Worklist>::EDGE_DIRECTION, EdgeDirection::Forward);
    assert_eq!(<LiveVariables as Worklist>::EDGE_DIRECTION, EdgeDirection::Backward);
    assert_eq!(<ConstantPropagation as Worklist>::EDGE_DIRECTION, EdgeDirection::Forward);
}
