//! The types and procedures that every SPL program knows without defining them.
use vstd::prelude::*;
use crate::table::Parameter;
use crate::types::{Type, PrimitiveType};

verus! {

/// A predefined procedure: its name, its parameters (all of type `int`; the flags say
/// which are passed by reference) and whether the library carries an implementation.
pub struct BuiltinProcedure {
    pub name: String,
    pub parameters: Vec<Parameter>,
    pub implemented: bool,
}

/// The predefined procedures: name, passing mode of each parameter, and whether they are
/// implemented (`printi`, `printc` and `time` are; the others stop the program).
pub open spec fn spec_builtin_procedures() -> Seq<(Seq<char>, Seq<bool>, bool)> {
    seq![
        (seq!['p', 'r', 'i', 'n', 't', 'i'], seq![false], true),
        (seq!['p', 'r', 'i', 'n', 't', 'c'], seq![false], true),
        (seq!['r', 'e', 'a', 'd', 'i'], seq![true], false),
        (seq!['r', 'e', 'a', 'd', 'c'], seq![true], false),
        (seq!['e', 'x', 'i', 't'], seq![], false),
        (seq!['t', 'i', 'm', 'e'], seq![true], true),
        (seq!['c', 'l', 'e', 'a', 'r', 'A', 'l', 'l'], seq![false], false),
        (seq!['s', 'e', 't', 'P', 'i', 'x', 'e', 'l'], seq![false, false, false], false),
        (seq!['d', 'r', 'a', 'w', 'L', 'i', 'n', 'e'], seq![false, false, false, false, false], false),
        (seq!['d', 'r', 'a', 'w', 'C', 'i', 'r', 'c', 'l', 'e'], seq![false, false, false, false], false),
    ]
}

/// The names of the predefined types.
pub open spec fn spec_named_types() -> Seq<Seq<char>> {
    seq![seq!['i', 'n', 't']]
}

/// A parameter of a predefined procedure: unnamed, of type `int`.
pub open spec fn is_builtin_param(p: Parameter, is_reference: bool) -> bool {
    p.name@ == Seq::<char>::empty() && p.typ == Type::PrimitiveType(PrimitiveType::Int)
        && p.is_reference == is_reference
}

/// The parameter list a sequence of passing modes stands for.
pub open spec fn builtin_params_match(ps: Seq<Parameter>, refs: Seq<bool>) -> bool {
    ps.len() == refs.len() && forall|i: int| 0 <= i < ps.len() ==> is_builtin_param(#[trigger] ps[i], refs[i])
}

/// The names of the predefined types.
pub fn named_types() -> (r: Vec<String>)
    ensures
        r@.len() == spec_named_types().len(),
        forall|i: int| 0 <= i < r@.len() ==> #[trigger] r@[i]@ == spec_named_types()[i],
{
    let mut v: Vec<String> = Vec::new();
    let s = String::from_str("int");
    proof {
        reveal_strlit("int");
    }
    v.push(s);
    v
}

fn params_of(refs: &[bool]) -> (r: Vec<Parameter>)
    ensures
        builtin_params_match(r@, refs@),
{
    let mut v: Vec<Parameter> = Vec::new();
    let mut i: usize = 0;
    while i < refs.len()
        invariant
            i <= refs@.len(),
            v@.len() == i,
            forall|k: int| 0 <= k < i ==> is_builtin_param(#[trigger] v@[k], refs@[k]),
        decreases refs@.len() - i,
    {
        v.push(Parameter::new(String::new(), Type::int_type(), refs[i]));
        i = i + 1;
    }
    v
}

fn builtin(name: &str, refs: &[bool], implemented: bool) -> (r: BuiltinProcedure)
    ensures
        r.name@ == name@,
        builtin_params_match(r.parameters@, refs@),
        r.implemented == implemented,
{
    BuiltinProcedure { name: String::from_str(name), parameters: params_of(refs), implemented }
}

/// The predefined procedures, in the order of `spec_builtin_procedures`.
pub fn procedures() -> (r: Vec<BuiltinProcedure>)
    ensures
        r@.len() == spec_builtin_procedures().len(),
        forall|i: int| 0 <= i < r@.len() ==> {
            &&& (#[trigger] r@[i]).name@ == spec_builtin_procedures()[i].0
            &&& builtin_params_match(r@[i].parameters@, spec_builtin_procedures()[i].1)
            &&& r@[i].implemented == spec_builtin_procedures()[i].2
        },
{
    proof {
        reveal_strlit("printi");
        reveal_strlit("printc");
        reveal_strlit("readi");
        reveal_strlit("readc");
        reveal_strlit("exit");
        reveal_strlit("time");
        reveal_strlit("clearAll");
        reveal_strlit("setPixel");
        reveal_strlit("drawLine");
        reveal_strlit("drawCircle");
    }
    let mut v: Vec<BuiltinProcedure> = Vec::new();
    v.push(builtin("printi", &[false], true));
    v.push(builtin("printc", &[false], true));
    v.push(builtin("readi", &[true], false));
    v.push(builtin("readc", &[true], false));
    v.push(builtin("exit", &[], false));
    v.push(builtin("time", &[true], true));
    v.push(builtin("clearAll", &[false], false));
    v.push(builtin("setPixel", &[false, false, false], false));
    v.push(builtin("drawLine", &[false, false, false, false, false], false));
    v.push(builtin("drawCircle", &[false, false, false, false], false));
    proof {
        let s = spec_builtin_procedures();
        assert(v@[0].name@ == s[0].0);
    }
    v
}


/// The predefined names are pairwise distinct.
pub proof fn lemma_builtin_names_distinct()
    ensures
        forall|i: int, j: int| 0 <= i < j < spec_builtin_procedures().len()
            ==> #[trigger] spec_builtin_procedures()[i].0 != #[trigger] spec_builtin_procedures()[j].0,
        forall|i: int| 0 <= i < spec_builtin_procedures().len()
            ==> #[trigger] spec_builtin_procedures()[i].0 != spec_named_types()[0],
{
    let s = spec_builtin_procedures();
    let t = spec_named_types()[0];
    assert forall|i: int, j: int| 0 <= i < j < s.len() implies #[trigger] s[i].0 != #[trigger] s[j].0 by {
        if i == 0 && j == 1 { assert(s[0].0[5] != s[1].0[5]); }
        if i == 0 && j == 2 { assert(s[0].0.len() != s[2].0.len()); }
        if i == 0 && j == 3 { assert(s[0].0.len() != s[3].0.len()); }
        if i == 0 && j == 4 { assert(s[0].0.len() != s[4].0.len()); }
        if i == 0 && j == 5 { assert(s[0].0.len() != s[5].0.len()); }
        if i == 0 && j == 6 { assert(s[0].0.len() != s[6].0.len()); }
        if i == 0 && j == 7 { assert(s[0].0.len() != s[7].0.len()); }
        if i == 0 && j == 8 { assert(s[0].0.len() != s[8].0.len()); }
        if i == 0 && j == 9 { assert(s[0].0.len() != s[9].0.len()); }
        if i == 1 && j == 2 { assert(s[1].0.len() != s[2].0.len()); }
        if i == 1 && j == 3 { assert(s[1].0.len() != s[3].0.len()); }
        if i == 1 && j == 4 { assert(s[1].0.len() != s[4].0.len()); }
        if i == 1 && j == 5 { assert(s[1].0.len() != s[5].0.len()); }
        if i == 1 && j == 6 { assert(s[1].0.len() != s[6].0.len()); }
        if i == 1 && j == 7 { assert(s[1].0.len() != s[7].0.len()); }
        if i == 1 && j == 8 { assert(s[1].0.len() != s[8].0.len()); }
        if i == 1 && j == 9 { assert(s[1].0.len() != s[9].0.len()); }
        if i == 2 && j == 3 { assert(s[2].0[4] != s[3].0[4]); }
        if i == 2 && j == 4 { assert(s[2].0.len() != s[4].0.len()); }
        if i == 2 && j == 5 { assert(s[2].0.len() != s[5].0.len()); }
        if i == 2 && j == 6 { assert(s[2].0.len() != s[6].0.len()); }
        if i == 2 && j == 7 { assert(s[2].0.len() != s[7].0.len()); }
        if i == 2 && j == 8 { assert(s[2].0.len() != s[8].0.len()); }
        if i == 2 && j == 9 { assert(s[2].0.len() != s[9].0.len()); }
        if i == 3 && j == 4 { assert(s[3].0.len() != s[4].0.len()); }
        if i == 3 && j == 5 { assert(s[3].0.len() != s[5].0.len()); }
        if i == 3 && j == 6 { assert(s[3].0.len() != s[6].0.len()); }
        if i == 3 && j == 7 { assert(s[3].0.len() != s[7].0.len()); }
        if i == 3 && j == 8 { assert(s[3].0.len() != s[8].0.len()); }
        if i == 3 && j == 9 { assert(s[3].0.len() != s[9].0.len()); }
        if i == 4 && j == 5 { assert(s[4].0[0] != s[5].0[0]); }
        if i == 4 && j == 6 { assert(s[4].0.len() != s[6].0.len()); }
        if i == 4 && j == 7 { assert(s[4].0.len() != s[7].0.len()); }
        if i == 4 && j == 8 { assert(s[4].0.len() != s[8].0.len()); }
        if i == 4 && j == 9 { assert(s[4].0.len() != s[9].0.len()); }
        if i == 5 && j == 6 { assert(s[5].0.len() != s[6].0.len()); }
        if i == 5 && j == 7 { assert(s[5].0.len() != s[7].0.len()); }
        if i == 5 && j == 8 { assert(s[5].0.len() != s[8].0.len()); }
        if i == 5 && j == 9 { assert(s[5].0.len() != s[9].0.len()); }
        if i == 6 && j == 7 { assert(s[6].0[0] != s[7].0[0]); }
        if i == 6 && j == 8 { assert(s[6].0[0] != s[8].0[0]); }
        if i == 6 && j == 9 { assert(s[6].0.len() != s[9].0.len()); }
        if i == 7 && j == 8 { assert(s[7].0[0] != s[8].0[0]); }
        if i == 7 && j == 9 { assert(s[7].0.len() != s[9].0.len()); }
        if i == 8 && j == 9 { assert(s[8].0.len() != s[9].0.len()); }
    }
    assert forall|i: int| 0 <= i < s.len() implies #[trigger] s[i].0 != t by {
        if i == 0 { assert(s[0].0.len() != t.len()); }
        if i == 1 { assert(s[1].0.len() != t.len()); }
        if i == 2 { assert(s[2].0.len() != t.len()); }
        if i == 3 { assert(s[3].0.len() != t.len()); }
        if i == 4 { assert(s[4].0.len() != t.len()); }
        if i == 5 { assert(s[5].0.len() != t.len()); }
        if i == 6 { assert(s[6].0.len() != t.len()); }
        if i == 7 { assert(s[7].0.len() != t.len()); }
        if i == 8 { assert(s[8].0.len() != t.len()); }
        if i == 9 { assert(s[9].0.len() != t.len()); }
    }
}

} // verus!
