//! The interpreter of three-address code, run block by block over the graphs of the
//! procedures.
use vstd::prelude::*;
use std::time::Instant;
use crate::absyn::Operator;
use crate::blocks::{BlockContent, BlockGraph, find_label, lookup_label, result_text};
use crate::clock::seconds_since;
use crate::env::{Environment, Frame, env_get, frame_get, bound_function, table_entry, is_default, lemma_global_binds, lemma_main_not_builtin};
use crate::quadrupel::{Quadrupel, QuadrupelArg, QuadrupelOp, QuadrupelResult, QuadrupelVar, spec_identifier, spec_is_relop, spec_const_comparison};
use crate::table::{Entry, Parameter, SymbolTable, clone_parameters, scoped_lookup};
use crate::value::{BuiltInProc, BuiltinKind, Output, RuntimeError, Store, Value, ValueFunction, ValueView, value_view, as_number, checked_array_index, get_cell, set_cell};

verus! {

/// The frames below the innermost one, and their number, are as before.
pub open spec fn outer_frames_kept(before: Environment, after: Environment) -> bool {
    after.frames@.len() == before.frames@.len() && after.frames@.drop_last() == before.frames@.drop_last()
}

/// The store grew: old cells kept their place, procedures are as before, and output was
/// only appended to.
pub open spec fn store_grew(before: Store, after: Store) -> bool {
    &&& after.cells@.len() >= before.cells@.len()
    &&& after.functions == before.functions
    &&& after.output@.len() >= before.output@.len()
    &&& after.output@.subrange(0, before.output@.len() as int) == before.output@
}

proof fn lemma_store_grew_trans(a: Store, b: Store, c: Store)
    requires
        store_grew(a, b),
        store_grew(b, c),
    ensures
        store_grew(a, c),
{
    assert(c.output@.subrange(0, a.output@.len() as int) =~= b.output@.subrange(0, a.output@.len() as int));
}

proof fn lemma_store_grew_refl(a: Store)
    ensures
        store_grew(a, a),
{
    assert(a.output@.subrange(0, a.output@.len() as int) =~= a.output@);
}

/// The cells below `n` hold what they held before.
pub open spec fn cells_kept(before: Seq<Value>, after: Seq<Value>) -> bool {
    &&& after.len() >= before.len()
    &&& forall|i: int| 0 <= i < before.len() ==> #[trigger] after[i] == before[i]
}

/// The value of an operand before a step: a constant, or what the cell that the
/// variable is bound to holds. Nothing where the variable is unbound or its cell missing.
pub open spec fn operand_value(a: QuadrupelArg, frames: Seq<Frame>, cells: Seq<Value>) -> Option<ValueView> {
    match a {
        QuadrupelArg::Const(i) => Some(ValueView::Int(i)),
        QuadrupelArg::Var(v) => match env_get(frames, spec_identifier(v)) {
            Some(c) => if c < cells.len() { Some(value_view(cells[c as int])) } else { None },
            None => None,
        },
        QuadrupelArg::Empty => None,
    }
}

proof fn lemma_operand_value_kept(a: QuadrupelArg, frames: Seq<Frame>, c0: Seq<Value>, c1: Seq<Value>)
    requires
        cells_kept(c0, c1),
        operand_value(a, frames, c0) is Some,
    ensures
        operand_value(a, frames, c1) == operand_value(a, frames, c0),
{
}

/// The binding of the result variable, if any, is a cell of the store.
pub open spec fn result_bound_well(res: QuadrupelResult, frames: Seq<Frame>, n: nat) -> bool {
    env_get(frames, result_text(res)) matches Some(c) ==> c < n
}

/// The built-in procedure that `name` is bound to, if it is bound to one.
pub open spec fn bound_builtin(frames: Seq<Frame>, store: Store, name: Seq<char>) -> Option<BuiltInProc> {
    match bound_function(frames, store, name) {
        Some(ValueFunction::BuiltIn(_, b)) => Some(b),
        _ => None,
    }
}

/// What a run of the built-in `b` on the argument cells `args` does to the store `s0`,
/// giving `s1` and the result `r`: the printing built-ins print the number in the first
/// argument (`printc` only a byte), `time` writes a number of seconds into it, and an
/// argument list without a number in front fails.
pub open spec fn builtin_ran(b: BuiltInProc, args: Seq<usize>, s0: Store, s1: Store, r: Result<(), RuntimeError>) -> bool {
    if args.len() > 0 && args[0] < s0.cells@.len() && s0.cells@[args[0] as int] is Int {
        let v = s0.cells@[args[0] as int]->Int_0;
        match b.kind {
            BuiltinKind::PrintInt => r is Ok && s1.output@ == s0.output@.push(Output::Int(v)) && s1.cells == s0.cells,
            BuiltinKind::PrintChar => if 0 <= v < 256 {
                r is Ok && s1.output@ == s0.output@.push(Output::Char(v as u8)) && s1.cells == s0.cells
            } else {
                r == Err::<(), RuntimeError>(RuntimeError::InvalidChar(v)) && s1.cells == s0.cells
            },
            BuiltinKind::Time => s1.output == s0.output && (r is Ok ==> exists|secs: i32| 0 <= secs
                && s1.cells@ == s0.cells@.update(args[0] as int, Value::Int(secs)))
                && (r is Err ==> s1.cells == s0.cells),
        }
    } else {
        r == Err::<(), RuntimeError>(RuntimeError::TypeMismatch) && s1 == s0
    }
}

impl BuiltInProc {
    /// Carries out a built-in procedure on the argument cells: `printi` prints the number
    /// in its argument, `printc` the character whose code is in it (an error where the
    /// number is no byte), `time` writes the whole seconds since `start` into its argument.
    pub fn call(&self, args: &Vec<usize>, store: &mut Store, start: &Instant) -> (r: Result<(), RuntimeError>)
        ensures
            store_grew(*old(store), *final(store)),
            final(store).cells@.len() == old(store).cells@.len(),
            (self.kind == BuiltinKind::PrintInt && r is Ok) ==> (args@.len() > 0
                && old(store).cells@[args@[0] as int] is Int
                && final(store).output@ == old(store).output@.push(Output::Int(old(store).cells@[args@[0] as int]->Int_0))),
            (self.kind == BuiltinKind::PrintChar && r is Ok) ==> (args@.len() > 0
                && old(store).cells@[args@[0] as int] is Int
                && 0 <= old(store).cells@[args@[0] as int]->Int_0 < 256
                && final(store).output@ == old(store).output@.push(Output::Char(old(store).cells@[args@[0] as int]->Int_0 as u8))),
            (self.kind == BuiltinKind::PrintChar && args@.len() > 0 && args@[0] < old(store).cells@.len()
                && old(store).cells@[args@[0] as int] is Int && !(0 <= old(store).cells@[args@[0] as int]->Int_0 < 256))
                ==> r == Err::<(), RuntimeError>(RuntimeError::InvalidChar(old(store).cells@[args@[0] as int]->Int_0)),
            self.kind == BuiltinKind::Time ==> final(store).output == old(store).output,
            (self.kind == BuiltinKind::Time && r is Ok) ==> args@.len() > 0 && exists|secs: i32| 0 <= secs
                && final(store).cells@ == old(store).cells@.update(args@[0] as int, Value::Int(secs)),
            (self.kind != BuiltinKind::Time) ==> final(store).cells == old(store).cells,
            !(args@.len() > 0 && args@[0] < old(store).cells@.len() && old(store).cells@[args@[0] as int] is Int)
                ==> r == Err::<(), RuntimeError>(RuntimeError::TypeMismatch) && *final(store) == *old(store),
            (self.kind == BuiltinKind::PrintInt && args@.len() > 0 && args@[0] < old(store).cells@.len()
                && old(store).cells@[args@[0] as int] is Int) ==> r is Ok,
            (self.kind == BuiltinKind::PrintChar && args@.len() > 0 && args@[0] < old(store).cells@.len()
                && old(store).cells@[args@[0] as int] is Int && 0 <= old(store).cells@[args@[0] as int]->Int_0 < 256) ==> r is Ok,
            builtin_ran(*self, args@, *old(store), *final(store), r),
    {
        proof {
            lemma_store_grew_refl(*store);
        }
        if args.len() == 0 {
            return Err(RuntimeError::TypeMismatch);
        }
        let c = args[0];
        let v = match get_cell(store, c) {
            Ok(Value::Int(i)) => *i,
            _ => return Err(RuntimeError::TypeMismatch),
        };
        match self.kind {
            BuiltinKind::PrintInt => {
                store.output.push(Output::Int(v));
                proof {
                    assert(store.output@.subrange(0, old(store).output@.len() as int) =~= old(store).output@);
                }
                Ok(())
            },
            BuiltinKind::PrintChar => {
                if v < 0 || v > 255 {
                    return Err(RuntimeError::InvalidChar(v));
                }
                store.output.push(Output::Char(v as u8));
                proof {
                    assert(store.output@.subrange(0, old(store).output@.len() as int) =~= old(store).output@);
                }
                Ok(())
            },
            BuiltinKind::Time => {
                let secs = seconds_since(start);
                if secs > 2147483647u64 {
                    return Err(RuntimeError::TimeOverflow);
                }
                let r = set_cell(store, c, Value::Int(secs as i32));
                proof {
                    lemma_store_grew_refl(*store);
                }
                r
            },
        }
    }
}

/// The name of the procedure a `call` calls.
pub fn parse_fun(arg: &QuadrupelArg) -> (r: Result<String, RuntimeError>)
    ensures
        match *arg {
            QuadrupelArg::Var(QuadrupelVar::Spl(name)) => r matches Ok(s) && s@ == name@,
            _ => r matches Err(e) && e is TypeMismatch,
        },
{
    match arg {
        QuadrupelArg::Var(QuadrupelVar::Spl(name)) => Ok(name.clone()),
        _ => Err(RuntimeError::TypeMismatch),
    }
}

/// The name a result field designates: a variable's name or a label.
pub fn parse_result(res: &QuadrupelResult) -> (r: Result<String, RuntimeError>)
    ensures
        match *res {
            QuadrupelResult::Empty => r matches Err(e) && e is TypeMismatch,
            _ => r matches Ok(s) && s@ == result_text(*res),
        },
{
    match res {
        QuadrupelResult::Var(v) => Ok(v.to_identifier()),
        QuadrupelResult::Label(l) => Ok(l.clone()),
        QuadrupelResult::Empty => Err(RuntimeError::TypeMismatch),
    }
}

/// The cell an operand designates: a variable's cell, or a fresh cell holding a constant.
pub fn parse_arg_ref(arg: &QuadrupelArg, env: &mut Environment, store: &mut Store) -> (r: Result<usize, RuntimeError>)
    ensures
        outer_frames_kept(*old(env), *final(env)),
        store_grew(*old(store), *final(store)),
        final(store).output == old(store).output,
        match *arg {
            QuadrupelArg::Const(i) => r == Ok::<usize, RuntimeError>(old(store).cells@.len() as usize)
                && final(store).cells@ == old(store).cells@.push(Value::Int(i)) && *final(env) == *old(env),
            QuadrupelArg::Var(v) => if env_get(old(env).frames@, spec_identifier(v)) is Some {
                r == Ok::<usize, RuntimeError>(env_get(old(env).frames@, spec_identifier(v))->0)
                    && *final(env) == *old(env) && final(store).cells == old(store).cells
            } else {
                match table_entry(old(env).frames@, spec_identifier(v)) {
                    Some(Entry::VariableEntry(ve)) => r matches Ok(c) && c < final(store).cells@.len()
                        && is_default(final(store).cells@[c as int], ve.typ, final(store).cells@)
                        && env_get(final(env).frames@, spec_identifier(v)) == Some(c),
                    _ => r matches Err(RuntimeError::NotFound(n)) && n@ == spec_identifier(v)
                        && *final(env) == *old(env) && final(store).cells == old(store).cells,
                }
            },
            QuadrupelArg::Empty => r matches Err(e) && e is TypeMismatch,
        },
{
    proof {
        lemma_store_grew_refl(*store);
    }
    match arg {
        QuadrupelArg::Var(v) => {
            let name = v.to_identifier();
            match env.get(store, &name) {
                Some(c) => {
                    proof {
                        assert(store.output@.subrange(0, old(store).output@.len() as int) =~= old(store).output@);
                    }
                    Ok(c)
                },
                None => Err(RuntimeError::NotFound(name)),
            }
        },
        QuadrupelArg::Const(i) => {
            let c = Value::new_refcell(store, Value::Int(*i));
            proof {
                assert(store.output@.subrange(0, old(store).output@.len() as int) =~= old(store).output@);
            }
            Ok(c)
        },
        QuadrupelArg::Empty => Err(RuntimeError::TypeMismatch),
    }
}

/// The value an operand designates.
pub fn parse_arg(arg: &QuadrupelArg, env: &mut Environment, store: &mut Store) -> (r: Result<Value, RuntimeError>)
    ensures
        outer_frames_kept(*old(env), *final(env)),
        store_grew(*old(store), *final(store)),
        final(store).output == old(store).output,
        *arg matches QuadrupelArg::Const(i) ==> (r matches Ok(Value::Int(j)) && j == i),
        *arg is Empty ==> (r matches Err(e) && e is TypeMismatch),
        operand_value(*arg, old(env).frames@, old(store).cells@) matches Some(v) ==> (r matches Ok(w) && value_view(w) == v)
            && *final(env) == *old(env) && cells_kept(old(store).cells@, final(store).cells@),
{
    let c = match parse_arg_ref(arg, env, store) {
        Ok(c) => c,
        Err(e) => return Err(e),
    };
    match arg {
        QuadrupelArg::Const(i) => {
            return Ok(Value::Int(*i));
        },
        _ => {},
    }
    match get_cell(store, c) {
        Ok(Value::Int(i)) => Ok(Value::Int(*i)),
        Ok(v) => Ok(v.clone()),
        Err(e) => Err(e),
    }
}

/// The cell bound to `name`, bound to a fresh cell holding `0` in the innermost frame
/// where nothing binds it (so temporaries come into being when first written).
fn result_cell(name: &String, env: &mut Environment, store: &mut Store) -> (r: usize)
    ensures
        outer_frames_kept(*old(env), *final(env)),
        store_grew(*old(store), *final(store)),
        final(store).output == old(store).output,
        cells_kept(old(store).cells@, final(store).cells@),
        old(env).frames@.len() > 0 ==> env_get(final(env).frames@, name@) == Some(r),
        (env_get(old(env).frames@, name@) matches Some(c) ==> c < old(store).cells@.len()) ==> r < final(store).cells@.len(),
        env_get(old(env).frames@, name@) matches Some(c) ==> r == c && *final(env) == *old(env) && final(store).cells == old(store).cells,
{
    proof {
        lemma_store_grew_refl(*store);
    }
    match env.get(store, name) {
        Some(c) => {
            proof {
                assert(store.output@.subrange(0, old(store).output@.len() as int) =~= old(store).output@);
            }
            c
        },
        None => {
            let c = Value::new_refcell(store, Value::Int(0));
            if env.frames.len() > 0 {
                let top = env.frames.len() - 1;
                let mut frame = Frame { vars: Vec::new(), symbol_table: SymbolTable::new() };
                std::mem::swap(&mut frame, &mut env.frames[top]);
                frame.vars.push((name.clone(), c));
                env.frames.set(top, frame);
                proof {
                    assert(env.frames@.drop_last() =~= old(env).frames@.drop_last());
                }
            }
            proof {
                assert(store.output@.subrange(0, old(store).output@.len() as int) =~= old(store).output@);
            }
            c
        },
    }
}

/// Writes a value into the cell of the variable a result field names.
fn write_result(res: &QuadrupelResult, v: Value, env: &mut Environment, store: &mut Store) -> (r: Result<(), RuntimeError>)
    ensures
        outer_frames_kept(*old(env), *final(env)),
        store_grew(*old(store), *final(store)),
        final(store).output == old(store).output,
        (*res is Var && old(env).frames@.len() > 0 && result_bound_well(*res, old(env).frames@, old(store).cells@.len()))
            ==> r is Ok && exists|c: usize| env_get(final(env).frames@, result_text(*res)) == Some(c)
                && c < final(store).cells@.len() && final(store).cells@[c as int] == v,
        match env_get(old(env).frames@, result_text(*res)) {
            Some(c) => (*res is Var && c < old(store).cells@.len())
                ==> r is Ok && *final(env) == *old(env) && final(store).cells@ == old(store).cells@.update(c as int, v),
            None => true,
        },
{
    let name = match parse_result(res) {
        Ok(n) => n,
        Err(e) => {
            proof {
                lemma_store_grew_refl(*store);
            }
            return Err(e);
        },
    };
    let c = result_cell(&name, env, store);
    let ghost mid = *store;
    let ghost gv = v;
    let r = set_cell(store, c, v);
    proof {
        lemma_store_grew_refl(*store);
        assert(store_grew(mid, *store));
        lemma_store_grew_trans(*old(store), mid, *store);
        if *res is Var && old(env).frames@.len() > 0 && result_bound_well(*res, old(env).frames@, old(store).cells@.len()) {
            assert(name@ == result_text(*res));
            assert(c < mid.cells@.len());
            assert(store.cells@[c as int] == gv);
            assert(env_get(env.frames@, result_text(*res)) == Some(c));
        }
    }
    r
}

/// The procedures' graphs and the start time of the run.
pub struct TacContext<'a> {
    pub graphs: &'a Vec<(String, BlockGraph)>,
    pub start: &'a Instant,
}

/// The comparison a conditional jump makes.
fn relop_operator(op: QuadrupelOp) -> (r: Operator)
    requires
        spec_is_relop(op),
    ensures
        r == match op {
            QuadrupelOp::Equ => Operator::Equ,
            QuadrupelOp::Neq => Operator::Neq,
            QuadrupelOp::Lst => Operator::Lst,
            QuadrupelOp::Lse => Operator::Lse,
            QuadrupelOp::Grt => Operator::Grt,
            _ => Operator::Gre,
        },
{
    match op {
        QuadrupelOp::Equ => Operator::Equ,
        QuadrupelOp::Neq => Operator::Neq,
        QuadrupelOp::Lst => Operator::Lst,
        QuadrupelOp::Lse => Operator::Lse,
        QuadrupelOp::Grt => Operator::Grt,
        _ => Operator::Gre,
    }
}

/// The operator of an arithmetic operation.
pub open spec fn arith_operator(op: QuadrupelOp) -> Operator {
    match op {
        QuadrupelOp::Add => Operator::Add,
        QuadrupelOp::Sub => Operator::Sub,
        QuadrupelOp::Mul => Operator::Mul,
        _ => Operator::Div,
    }
}

/// What an arithmetic operation, a negation or a copy writes, from the values of its
/// operands: the value, or an error (overflow, division by zero). Nothing for the other
/// operations, or where an operand is missing or of the wrong kind.
pub open spec fn written_value(op: QuadrupelOp, x: Option<ValueView>, y: Option<ValueView>) -> Option<Result<ValueView, ()>> {
    match op {
        QuadrupelOp::Add | QuadrupelOp::Sub | QuadrupelOp::Mul | QuadrupelOp::Div => match (x, y) {
            (Some(ValueView::Int(a)), Some(ValueView::Int(b))) => Some(match crate::value::arith(arith_operator(op), a, b) {
                Ok(v) => Ok(ValueView::Int(v)),
                Err(_) => Err(()),
            }),
            _ => None,
        },
        QuadrupelOp::Neg => match x {
            Some(ValueView::Int(a)) => Some(match 0i32.checked_sub(a) {
                Some(v) => Ok(ValueView::Int(v)),
                None => Err(()),
            }),
            _ => None,
        },
        QuadrupelOp::Assign => match x {
            Some(v) => Some(Ok(v)),
            None => None,
        },
        _ => None,
    }
}

/// Whether the comparison `op` holds between two numbers.
pub open spec fn comparison_holds(op: QuadrupelOp, a: i32, b: i32) -> bool {
    match op {
        QuadrupelOp::Equ => a == b,
        QuadrupelOp::Neq => a != b,
        QuadrupelOp::Lst => a < b,
        QuadrupelOp::Lse => a <= b,
        QuadrupelOp::Grt => a > b,
        _ => a >= b,
    }
}

/// The element an `ArrayStore` or `ArrayLoad` reaches: the byte offset `i` divided by
/// the size 4 of an element (for an offset that is not negative).
pub open spec fn element_of(i: i32) -> int {
    i as int / 4
}

/// What an `ArrayStore` does where its value and offset are known, the offset is not
/// negative, and its result names an array bound in the frames: it writes the value into
/// the element's cell and changes no other cell, or it fails when the element lies
/// outside the array.
pub open spec fn array_store_effect(q: Quadrupel, frames: Seq<Frame>, cells: Seq<Value>, frames1: Seq<Frame>, cells1: Seq<Value>,
    r: Result<Option<String>, RuntimeError>) -> bool {
    match (operand_value(q.arg1, frames, cells), operand_value(q.arg2, frames, cells), env_get(frames, result_text(q.result))) {
        (Some(v), Some(ValueView::Int(i)), Some(c)) => (q.op == QuadrupelOp::ArrayStore && q.result is Var && 0 <= i
            && c < cells.len() && cells[c as int] is Array) ==> {
            let a = cells[c as int]->Array_0@;
            if element_of(i) < a.len() {
                a[element_of(i)] < cells.len() ==> r == Ok::<Option<String>, RuntimeError>(None) && frames1 == frames
                    && value_view(cells1[a[element_of(i)] as int]) == v
                    && forall|j: int| 0 <= j < cells.len() && j != a[element_of(i)] ==> #[trigger] cells1[j] == cells[j]
            } else {
                r == Err::<Option<String>, RuntimeError>(RuntimeError::IndexOutOfBounds(a.len() as usize, element_of(i) as i32))
                    && forall|j: int| 0 <= j < cells.len() ==> #[trigger] cells1[j] == cells[j]
            }
        },
        _ => true,
    }
}

/// An `ArrayLoad` whose array and offset are known, whose offset is not negative, and
/// whose result names an integer variable bound in the frames that is no reference
/// parameter.
pub open spec fn array_load_applies(q: Quadrupel, frames: Seq<Frame>, cells: Seq<Value>) -> bool {
    match (operand_value(q.arg1, frames, cells), operand_value(q.arg2, frames, cells), env_get(frames, result_text(q.result))) {
        (Some(ValueView::Array(a)), Some(ValueView::Int(i)), Some(c)) => q.op == QuadrupelOp::ArrayLoad && q.result is Var
            && 0 <= i && c < cells.len() && cells[c as int] is Int
            && !(table_entry(frames, result_text(q.result)) matches Some(Entry::VariableEntry(ve)) && ve.is_reference),
        _ => false,
    }
}

/// What such an `ArrayLoad` does: it copies the element into the result's cell and
/// changes no other cell, or it fails when the element lies outside the array.
pub open spec fn array_load_effect(q: Quadrupel, frames: Seq<Frame>, cells: Seq<Value>, frames1: Seq<Frame>, cells1: Seq<Value>,
    r: Result<Option<String>, RuntimeError>) -> bool {
    array_load_applies(q, frames, cells) ==> {
        let a = operand_value(q.arg1, frames, cells)->0->Array_0;
        let i = operand_value(q.arg2, frames, cells)->0->Int_0;
        let c = env_get(frames, result_text(q.result))->0;
        if element_of(i) < a.len() {
            a[element_of(i)] < cells.len() ==> r == Ok::<Option<String>, RuntimeError>(None) && frames1 == frames
                && value_view(cells1[c as int]) == value_view(cells[a[element_of(i)] as int])
                && forall|j: int| 0 <= j < cells.len() && j != c ==> #[trigger] cells1[j] == cells[j]
        } else {
            r == Err::<Option<String>, RuntimeError>(RuntimeError::IndexOutOfBounds(a.len() as usize, element_of(i) as i32))
                && forall|j: int| 0 <= j < cells.len() ==> #[trigger] cells1[j] == cells[j]
        }
    }
}

/// What one quadruple does to the argument queue, the frames and the store, with its
/// outcome `r`, as `eval_quad` states it.
pub open spec fn quad_effect(args0: Vec<usize>, quad: Quadrupel, env0: Environment, store0: Store, fuel: u64,
    args1: Vec<usize>, env1: Environment, store1: Store, r: Result<Option<String>, RuntimeError>) -> bool {
    &&& (outer_frames_kept(env0, env1))
    &&& (store_grew(store0, store1))
    &&& (r matches Ok(Some(l)) ==> (quad.op == QuadrupelOp::Goto || spec_is_relop(quad.op)) && l@ == result_text(quad.result))
    &&& ((quad.op == QuadrupelOp::Goto && !(quad.result is Empty)) ==> (r matches Ok(Some(l)) && l@ == result_text(quad.result)))
    &&& (quad.op == QuadrupelOp::Default ==> r == Ok::<Option<String>, RuntimeError>(None) && env1 == env0 && store1 == store0)
    &&& ((spec_is_relop(quad.op) && quad.arg1 is Const && quad.arg2 is Const && !(quad.result is Empty)) ==> match spec_const_comparison(quad) {
            Some(true) => r matches Ok(Some(l)) && l@ == result_text(quad.result),
            _ => r == Ok::<Option<String>, RuntimeError>(None),
        })
    &&& (quad.op == QuadrupelOp::Param && r is Ok ==> args1@.len() == args0@.len() + 1)
    &&& (quad.op == QuadrupelOp::Call && r is Ok ==> args1@.len() == 0)
    &&& (quad.op == QuadrupelOp::Call ==> match quad.arg1 {
            QuadrupelArg::Var(QuadrupelVar::Spl(name)) => if fuel == 0 {
                r == Err::<Option<String>, RuntimeError>(RuntimeError::OutOfFuel)
            } else {
                &&& args1@.len() == 0
                &&& env1.frames@ =~= env0.frames@
                &&& env_get(env0.frames@, name@) is None ==> (r matches Err(RuntimeError::NotImplemented(n)) && n@ == name@
                    && store1 == store0)
                &&& bound_builtin(env0.frames@, store0, name@) matches Some(b) ==> builtin_ran(b, args0@,
                    store0, store1, match r { Ok(_) => Ok::<(), RuntimeError>(()), Err(e) => Err(e) })
            },
            _ => r matches Err(e) && e is TypeMismatch,
        })
    &&& (quad.op != QuadrupelOp::Param && quad.op != QuadrupelOp::Call ==> args1 == args0)
    &&& (match (quad.op, quad.arg1) {
            (QuadrupelOp::Param, QuadrupelArg::Const(k)) => r == Ok::<Option<String>, RuntimeError>(None)
                && args1@ =~= args0@.push(store0.cells@.len() as usize)
                && store1.cells@ =~= store0.cells@.push(Value::Int(k)) && env1 == env0,
            (QuadrupelOp::Param, QuadrupelArg::Var(v)) => match env_get(env0.frames@, spec_identifier(v)) {
                Some(c) => r == Ok::<Option<String>, RuntimeError>(None) && args1@ =~= args0@.push(c)
                    && store1 == store0 && env1 == env0,
                None => match table_entry(env0.frames@, spec_identifier(v)) {
                    Some(Entry::VariableEntry(ve)) => r == Ok::<Option<String>, RuntimeError>(None)
                        && args1@.len() == args0@.len() + 1
                        && args1@.drop_last() =~= args0@ && args1@.last() < store1.cells@.len()
                        && is_default(store1.cells@[args1@.last() as int], ve.typ, store1.cells@)
                        && env_get(env1.frames@, spec_identifier(v)) == Some(args1@.last()),
                    _ => (r matches Err(RuntimeError::NotFound(n)) && n@ == spec_identifier(v)) && args1 == args0,
                },
            },
            _ => true,
        })
    &&& (match (written_value(quad.op, operand_value(quad.arg1, env0.frames@, store0.cells@),
            operand_value(quad.arg2, env0.frames@, store0.cells@)), env_get(env0.frames@, result_text(quad.result))) {
            (Some(Ok(_)), Some(c)) => (quad.result is Var && c < store0.cells@.len()) ==> env1.frames == env0.frames
                && forall|j: int| 0 <= j < store0.cells@.len() && j != c ==> #[trigger] store1.cells@[j] == store0.cells@[j],
            _ => true,
        })
    &&& (match (operand_value(quad.arg1, env0.frames@, store0.cells@), operand_value(quad.arg2, env0.frames@, store0.cells@)) {
            (Some(x), Some(y)) => (spec_is_relop(quad.op) && quad.result is Label)
                ==> env1.frames == env0.frames && cells_kept(store0.cells@, store1.cells@),
            _ => true,
        })
    &&& (array_store_effect(quad, env0.frames@, store0.cells@, env1.frames@, store1.cells@, r))
    &&& (array_load_effect(quad, env0.frames@, store0.cells@, env1.frames@, store1.cells@, r))
    &&& (match written_value(quad.op, operand_value(quad.arg1, env0.frames@, store0.cells@),
            operand_value(quad.arg2, env0.frames@, store0.cells@)) {
            Some(o) => (quad.result is Var && env0.frames@.len() > 0
                && result_bound_well(quad.result, env0.frames@, store0.cells@.len())) ==> match o {
                Ok(v) => r == Ok::<Option<String>, RuntimeError>(None) && exists|c: usize|
                    env_get(env1.frames@, result_text(quad.result)) == Some(c)
                    && c < store1.cells@.len() && value_view(store1.cells@[c as int]) == v,
                Err(_) => r is Err,
            },
            None => true,
        })
    &&& (match (operand_value(quad.arg1, env0.frames@, store0.cells@), operand_value(quad.arg2, env0.frames@, store0.cells@)) {
            (Some(x), Some(y)) => (spec_is_relop(quad.op) && quad.result is Label && as_number(x) is Some && as_number(y) is Some)
                ==> if comparison_holds(quad.op, as_number(x)->0, as_number(y)->0) {
                r matches Ok(Some(l)) && l@ == result_text(quad.result)
            } else {
                r == Ok::<Option<String>, RuntimeError>(None)
            },
            _ => true,
        })
}

/// Executes one quadruple. Arithmetic writes its result variable; a comparison yields the
/// target label when it holds; a `goto` yields its label; `param` queues an argument
/// cell; `call` runs the procedure with the queued arguments and empties the queue (a
/// procedure given by its graph runs as `eval_function` states it, `proc_ran`).
/// Array offsets are byte offsets: they are divided by 4 to give the element. An element
/// outside the array is a run-time fault of the program: it gives `IndexOutOfBounds` and
/// changes no cell, and the command-line front end aborts on it with "index out of bounds
/// for array length <len>: <index>".
pub fn eval_quad(args: &mut Vec<usize>, quad: &Quadrupel, env: &mut Environment, store: &mut Store, ctx: &TacContext, fuel: u64) -> (r: Result<Option<String>, RuntimeError>)
    ensures
        quad_effect(*old(args), *quad, *old(env), *old(store), fuel, *final(args), *final(env), *final(store), r),
        (quad.op == QuadrupelOp::Call && fuel > 0) ==> match quad.arg1 {
            QuadrupelArg::Var(QuadrupelVar::Spl(name)) => match bound_function(old(env).frames@, *old(store), name@) {
                Some(ValueFunction::Tac(pe, gi)) => {
                    let n = if old(args)@.len() < pe.parameters@.len() { old(args)@.len() as int } else { pe.parameters@.len() as int };
                    let o = match r { Ok(_) => Ok::<(), RuntimeError>(()), Err(e) => Err(e) };
                    &&& !value_args_exist(pe.parameters@, old(args)@, n, old(store).cells@)
                        ==> r == Err::<Option<String>, RuntimeError>(RuntimeError::TypeMismatch)
                    &&& (gi < ctx.graphs@.len() && o != Err::<(), RuntimeError>(RuntimeError::TypeMismatch))
                        ==> proc_ran(ctx.graphs@[gi as int].1, pe.parameters@, old(args)@, old(env).frames@, *old(store), (fuel - 1) as u64, *final(store), o)
                },
                _ => true,
            },
            _ => true,
        },
    decreases fuel, 0nat,
{
    proof {
        lemma_store_grew_refl(*store);
    }
    let ghost s0 = *store;
    match quad.op {
        QuadrupelOp::Add | QuadrupelOp::Sub | QuadrupelOp::Mul | QuadrupelOp::Div => {
            let i = match parse_arg(&quad.arg1, env, store) {
                Ok(v) => v,
                Err(e) => return Err(e),
            };
            let ghost s1 = *store;
            let j = match parse_arg(&quad.arg2, env, store) {
                Ok(v) => v,
                Err(e) => {
                    proof {
                        lemma_store_grew_trans(s0, s1, *store);
                    }
                    return Err(e);
                },
            };
            proof {
                lemma_store_grew_trans(s0, s1, *store);
            }
            let op = match quad.op {
                QuadrupelOp::Add => Operator::Add,
                QuadrupelOp::Sub => Operator::Sub,
                QuadrupelOp::Mul => Operator::Mul,
                _ => Operator::Div,
            };
            let v = match Value::arith(op, &i, &j) {
                Ok(v) => v,
                Err(e) => return Err(e),
            };
            let ghost s2 = *store;
            let r = write_result(&quad.result, v, env, store);
            proof {
                lemma_store_grew_trans(s0, s2, *store);
            }
            match r {
                Ok(()) => Ok(None),
                Err(e) => Err(e),
            }
        },
        QuadrupelOp::Neg => {
            let i = match parse_arg(&quad.arg1, env, store) {
                Ok(v) => v,
                Err(e) => return Err(e),
            };
            let v = match Value::neg(&i) {
                Ok(v) => v,
                Err(e) => return Err(e),
            };
            let ghost s2 = *store;
            let r = write_result(&quad.result, v, env, store);
            proof {
                lemma_store_grew_trans(s0, s2, *store);
            }
            match r {
                Ok(()) => Ok(None),
                Err(e) => Err(e),
            }
        },
        QuadrupelOp::Equ | QuadrupelOp::Neq | QuadrupelOp::Lst | QuadrupelOp::Lse | QuadrupelOp::Grt | QuadrupelOp::Gre => {
            let i = match parse_arg(&quad.arg1, env, store) {
                Ok(v) => v,
                Err(e) => return Err(e),
            };
            let ghost s1 = *store;
            let j = match parse_arg(&quad.arg2, env, store) {
                Ok(v) => v,
                Err(e) => {
                    proof {
                        lemma_store_grew_trans(s0, s1, *store);
                    }
                    return Err(e);
                },
            };
            proof {
                lemma_store_grew_trans(s0, s1, *store);
            }
            let label = match parse_result(&quad.result) {
                Ok(l) => l,
                Err(e) => return Err(e),
            };
            match Value::compare(relop_operator(quad.op), &i, &j) {
                Ok(true) => Ok(Some(label)),
                Ok(false) => Ok(None),
                Err(e) => Err(e),
            }
        },
        QuadrupelOp::Assign => {
            let val = match parse_arg(&quad.arg1, env, store) {
                Ok(v) => v,
                Err(e) => return Err(e),
            };
            let ghost s2 = *store;
            let r = write_result(&quad.result, val, env, store);
            proof {
                lemma_store_grew_trans(s0, s2, *store);
            }
            match r {
                Ok(()) => Ok(None),
                Err(e) => Err(e),
            }
        },
        QuadrupelOp::ArrayLoad => {
            let arr = match parse_arg(&quad.arg1, env, store) {
                Ok(Value::Array(a)) => a,
                Ok(_) => return Err(RuntimeError::TypeMismatch),
                Err(e) => return Err(e),
            };
            let ghost s1 = *store;
            let index = match parse_arg(&quad.arg2, env, store) {
                Ok(Value::Int(i)) => i,
                Ok(_) => {
                    proof {
                        lemma_store_grew_trans(s0, s1, *store);
                    }
                    return Err(RuntimeError::TypeMismatch);
                },
                Err(e) => {
                    proof {
                        lemma_store_grew_trans(s0, s1, *store);
                    }
                    return Err(e);
                },
            };
            proof {
                lemma_store_grew_trans(s0, s1, *store);
            }
            let res_id = match parse_result(&quad.result) {
                Ok(n) => n,
                Err(e) => return Err(e),
            };
            let index = match checked_array_index(index / 4, arr.len()) {
                Ok(i) => i,
                Err(e) => return Err(e),
            };
            let ghost s15 = *store;
            let _ = result_cell(&res_id, env, store);
            proof {
                lemma_store_grew_trans(s0, s15, *store);
            }
            let ghost s2 = *store;
            let (res, is_ref) = match env.get_mut(store, &res_id) {
                Some(p) => p,
                None => {
                    proof {
                        assert(store.output@.subrange(0, s2.output@.len() as int) =~= s2.output@);
                        lemma_store_grew_trans(s0, s2, *store);
                    }
                    return Err(RuntimeError::NotFound(res_id));
                },
            };
            proof {
                assert(store.output@.subrange(0, s2.output@.len() as int) =~= s2.output@);
                lemma_store_grew_trans(s0, s2, *store);
            }
            let ghost s3 = *store;
            let is_int = match get_cell(store, res) {
                Ok(Value::Int(_)) => true,
                Ok(Value::Array(_)) => false,
                _ => return Err(RuntimeError::TypeMismatch),
            };
            if is_int {
                let elem = arr[index];
                if is_ref {
                    if env.frames.len() > 0 {
                        let top = env.frames.len() - 1;
                        let mut frame = Frame { vars: Vec::new(), symbol_table: SymbolTable::new() };
                        std::mem::swap(&mut frame, &mut env.frames[top]);
                        frame.vars.push((res_id, elem));
                        env.frames.set(top, frame);
                        proof {
                            assert(env.frames@.drop_last() =~= old(env).frames@.drop_last());
                        }
                    }
                    Ok(None)
                } else {
                    let v = match get_cell(store, elem) {
                        Ok(v) => v.clone(),
                        Err(e) => return Err(e),
                    };
                    let r = set_cell(store, res, v);
                    proof {
                        lemma_store_grew_refl(*store);
                        assert(store_grew(s3, *store));
                        lemma_store_grew_trans(s0, s3, *store);
                    }
                    match r {
                        Ok(()) => Ok(None),
                        Err(e) => Err(e),
                    }
                }
            } else {
                proof {
                    assert(!array_load_applies(*quad, old(env).frames@, old(store).cells@));
                }
                let mut slice: Vec<usize> = Vec::new();
                let mut k = index;
                while k < arr.len()
                    invariant
                        !array_load_applies(*quad, old(env).frames@, old(store).cells@),
                        index <= k <= arr@.len(),
                        quad.op == QuadrupelOp::ArrayLoad,
                        s0 == *old(store),
                        store_grew(s0, *store),
                        s3 == *store || store_grew(s3, *store),
                        outer_frames_kept(*old(env), *env),
                    decreases arr@.len() - k,
                {
                    if is_ref {
                        slice.push(arr[k]);
                    } else {
                        let v = match get_cell(store, arr[k]) {
                            Ok(v) => v.clone(),
                            Err(e) => return Err(e),
                        };
                        let ghost sb = *store;
                        let c = Value::new_refcell(store, v);
                        proof {
                            assert(store.output@.subrange(0, sb.output@.len() as int) =~= sb.output@);
                            lemma_store_grew_trans(s0, sb, *store);
                        }
                        slice.push(c);
                    }
                    k = k + 1;
                }
                let ghost s4 = *store;
                let r = set_cell(store, res, Value::Array(slice));
                proof {
                    lemma_store_grew_refl(*store);
                    assert(store_grew(s4, *store));
                    lemma_store_grew_trans(s0, s4, *store);
                }
                match r {
                    Ok(()) => Ok(None),
                    Err(e) => Err(e),
                }
            }
        },
        QuadrupelOp::ArrayStore => {
            let value = match parse_arg(&quad.arg1, env, store) {
                Ok(v) => v,
                Err(e) => return Err(e),
            };
            let ghost s1 = *store;
            let index = match parse_arg(&quad.arg2, env, store) {
                Ok(Value::Int(i)) => i,
                Ok(_) => {
                    proof {
                        lemma_store_grew_trans(s0, s1, *store);
                    }
                    return Err(RuntimeError::TypeMismatch);
                },
                Err(e) => {
                    proof {
                        lemma_store_grew_trans(s0, s1, *store);
                    }
                    return Err(e);
                },
            };
            proof {
                lemma_store_grew_trans(s0, s1, *store);
            }
            let arr = match parse_result(&quad.result) {
                Ok(n) => n,
                Err(e) => return Err(e),
            };
            let ghost s2 = *store;
            let cell = match env.get(store, &arr) {
                Some(c) => c,
                None => {
                    proof {
                        assert(store.output@.subrange(0, s2.output@.len() as int) =~= s2.output@);
                        lemma_store_grew_trans(s0, s2, *store);
                    }
                    return Err(RuntimeError::NotFound(arr));
                },
            };
            proof {
                assert(store.output@.subrange(0, s2.output@.len() as int) =~= s2.output@);
                lemma_store_grew_trans(s0, s2, *store);
            }
            let elems = match get_cell(store, cell) {
                Ok(Value::Array(a)) => a.clone(),
                _ => return Err(RuntimeError::TypeMismatch),
            };
            let index = match checked_array_index(index / 4, elems.len()) {
                Ok(i) => i,
                Err(e) => return Err(e),
            };
            let ghost s3 = *store;
            let r = set_cell(store, elems[index], value);
            proof {
                lemma_store_grew_refl(*store);
                assert(store_grew(s3, *store));
                lemma_store_grew_trans(s0, s3, *store);
            }
            match r {
                Ok(()) => Ok(None),
                Err(e) => Err(e),
            }
        },
        QuadrupelOp::Goto => {
            match parse_result(&quad.result) {
                Ok(l) => Ok(Some(l)),
                Err(e) => Err(e),
            }
        },
        QuadrupelOp::Param => {
            let arg = match parse_arg_ref(&quad.arg1, env, store) {
                Ok(c) => c,
                Err(e) => return Err(e),
            };
            args.push(arg);
            Ok(None)
        },
        QuadrupelOp::Call => {
            let fun = match parse_fun(&quad.arg1) {
                Ok(f) => f,
                Err(e) => return Err(e),
            };
            if fuel == 0 {
                return Err(RuntimeError::OutOfFuel);
            }
            let r = eval_function(&fun, args, env, store, ctx, fuel - 1);
            let ghost gr = r;
            args.clear();
            proof {
                if gr is Ok {
                    let u: () = gr->Ok_0;
                    assert(u == ());
                    assert(gr == Ok::<(), RuntimeError>(()));
                }
            }
            match r {
                Ok(()) => Ok(None),
                Err(e) => Err(e),
            }
        },
        QuadrupelOp::Default => Ok(None),
    }
}

/// How many of the first `k` parameters are passed by value.
pub open spec fn value_params_before(params: Seq<Parameter>, k: int) -> nat
    decreases k,
{
    if k <= 0 {
        0
    } else {
        value_params_before(params, k - 1) + if params[k - 1].is_reference { 0nat } else { 1nat }
    }
}

/// The cell the `k`-th parameter is bound to when fresh cells are numbered from `n0`:
/// the argument's own cell for a reference parameter, the next fresh cell for a value
/// parameter.
pub open spec fn param_cell(params: Seq<Parameter>, args: Seq<usize>, n0: int, k: int) -> int {
    if params[k].is_reference {
        args[k] as int
    } else {
        n0 + value_params_before(params, k)
    }
}

proof fn lemma_value_params_mono(params: Seq<Parameter>, j: int, k: int)
    requires
        0 <= j < k,
        !params[j].is_reference,
    ensures
        value_params_before(params, j) + 1 <= value_params_before(params, k),
    decreases k,
{
    if j + 1 < k {
        lemma_value_params_mono(params, j, k - 1);
    }
}

/// Every argument passed by value names an existing cell.
pub open spec fn value_args_exist(params: Seq<Parameter>, args: Seq<usize>, n: int, cells: Seq<Value>) -> bool {
    forall|k: int| 0 <= k < n && !(#[trigger] params[k]).is_reference ==> args[k] < cells.len()
}

/// Stores a copy of the value in cell `a` in a new cell, and returns the new cell.
fn push_copy(store: &mut Store, a: usize) -> (c: usize)
    requires
        a < old(store).cells@.len(),
    ensures
        c == old(store).cells@.len(),
        final(store).cells@.len() == old(store).cells@.len() + 1,
        final(store).cells@.subrange(0, old(store).cells@.len() as int) == old(store).cells@,
        value_view(final(store).cells@[c as int]) == value_view(old(store).cells@[a as int]),
        final(store).functions == old(store).functions,
        final(store).output == old(store).output,
{
    let v = store.cells[a].clone();
    let c = Value::new_refcell(store, v);
    proof {
        assert(store.cells@.subrange(0, c as int) =~= old(store).cells@);
    }
    c
}

/// Binds the parameters to the argument cells, pairwise as far as both lists go: a
/// reference parameter to the argument's cell itself, a value parameter to a fresh cell
/// holding a copy of the argument's value (fresh cells in the order of the parameters).
/// Fails with a type mismatch where an argument passed by value names no cell.
#[verifier::rlimit(40)]
pub fn bind_arguments(params: &Vec<Parameter>, args: &Vec<usize>, store: &mut Store) -> (r: Result<Vec<(String, usize)>, RuntimeError>)
    ensures
        final(store).functions == old(store).functions,
        final(store).output == old(store).output,
        final(store).cells@.len() >= old(store).cells@.len(),
        final(store).cells@.subrange(0, old(store).cells@.len() as int) == old(store).cells@,
        ({
            let n = if args@.len() < params@.len() { args@.len() as int } else { params@.len() as int };
            let n0 = old(store).cells@.len() as int;
            &&& (r is Ok <==> value_args_exist(params@, args@, n, old(store).cells@))
            &&& (r is Err ==> r == Err::<Vec<(String, usize)>, RuntimeError>(RuntimeError::TypeMismatch))
            &&& (r matches Ok(vars) ==> {
                &&& vars@.len() == n
                &&& final(store).cells@.len() == n0 + value_params_before(params@, n)
                &&& forall|k: int| 0 <= k < n ==> (#[trigger] vars@[k]).0@ == params@[k].name@
                    && vars@[k].1 as int == param_cell(params@, args@, n0, k)
                &&& forall|k: int| 0 <= k < n && !(#[trigger] params@[k]).is_reference
                    ==> value_view(final(store).cells@[param_cell(params@, args@, n0, k)]) == value_view(old(store).cells@[args@[k] as int])
            })
        }),
{
    let len0: usize = store.cells.len();
    let ghost n0 = store.cells@.len() as int;
    let ghost c0 = store.cells@;
    let ghost n = if args@.len() < params@.len() { args@.len() as int } else { params@.len() as int };
    let mut vars: Vec<(String, usize)> = Vec::new();
    let mut k: usize = 0;
    while k < args.len() && k < params.len()
        invariant
            n == (if args@.len() < params@.len() { args@.len() as int } else { params@.len() as int }),
            n0 == old(store).cells@.len(),
            n0 == len0,
            c0 == old(store).cells@,
            0 <= k <= n,
            vars@.len() == k,
            store.functions == old(store).functions,
            store.output == old(store).output,
            store.cells@.len() == n0 + value_params_before(params@, k as int),
            store.cells@.subrange(0, n0) == c0,
            value_args_exist(params@, args@, k as int, c0),
            forall|j: int| 0 <= j < k ==> (#[trigger] vars@[j]).0@ == params@[j].name@
                && vars@[j].1 as int == param_cell(params@, args@, n0, j),
            forall|j: int| 0 <= j < k && !(#[trigger] params@[j]).is_reference
                ==> value_view(store.cells@[param_cell(params@, args@, n0, j)]) == value_view(c0[args@[j] as int]),
        decreases n - k,
    {
        let a = args[k];
        if params[k].is_reference {
            vars.push((params[k].name.clone(), a));
        } else {
            if a >= len0 {
                proof {
                    assert(!value_args_exist(params@, args@, n, c0)) by {
                        assert(k < n && !params@[k as int].is_reference && args@[k as int] >= c0.len());
                    }
                }
                return Err(RuntimeError::TypeMismatch);
            }
            proof {
                assert(store.cells@[a as int] == store.cells@.subrange(0, n0)[a as int]);
            }
            let ghost sb = store.cells@;
            let c = push_copy(store, a);
            proof {
                assert(store.cells@.subrange(0, n0) =~= sb.subrange(0, n0));
                assert forall|j: int| 0 <= j < k && !(#[trigger] params@[j]).is_reference
                    implies value_view(store.cells@[param_cell(params@, args@, n0, j)]) == value_view(c0[args@[j] as int]) by {
                    lemma_value_params_mono(params@, j, k as int);
                    let i = param_cell(params@, args@, n0, j);
                    assert(store.cells@.subrange(0, sb.len() as int)[i] == store.cells@[i]);
                }
            }
            vars.push((params[k].name.clone(), c));
        }
        proof {
            assert(value_params_before(params@, k + 1) == value_params_before(params@, k as int)
                + if params@[k as int].is_reference { 0nat } else { 1nat });
        }
        k = k + 1;
    }
    Ok(vars)
}

/// The first `n` bindings of a frame bind the parameters as `bind_arguments` does, the
/// fresh cells numbered from the length of `cells0`, and those cells still hold the
/// copies in `cells1`.
pub open spec fn params_bound(vars: Seq<(String, usize)>, params: Seq<Parameter>, args: Seq<usize>, cells0: Seq<Value>, cells1: Seq<Value>) -> bool {
    let n = if args.len() < params.len() { args.len() as int } else { params.len() as int };
    &&& vars.len() >= n
    &&& forall|k: int| 0 <= k < n ==> (#[trigger] vars[k]).0@ == params[k].name@
        && vars[k].1 as int == param_cell(params, args, cells0.len() as int, k)
    &&& forall|k: int| 0 <= k < n && !(#[trigger] params[k]).is_reference
        ==> param_cell(params, args, cells0.len() as int, k) < cells1.len()
        && value_view(cells1[param_cell(params, args, cells0.len() as int, k)]) == value_view(cells0[args[k] as int])
}

/// A run of the procedure given by the graph `g`, called with the argument cells `args`
/// in the frames `frames` and the store `s0`, that ends with the store `s1` and the
/// outcome `r`: it starts at the entry block with an empty argument queue, `fuel` block
/// entries, and a new innermost frame over `frames` that binds the parameters.
pub open spec fn proc_ran(g: BlockGraph, params: Seq<Parameter>, args: Seq<usize>, frames: Seq<Frame>, s0: Store, fuel: u64, s1: Store, r: Result<(), RuntimeError>) -> bool {
    exists|tr: Seq<RunPoint>, a1: Vec<usize>, e1: Environment| {
        &&& is_run(g, fuel, tr[0], tr)
        &&& tr[0].block == 0 && tr[0].pos == 0 && tr[0].target is None && tr[0].steps == fuel
        &&& tr[0].args@.len() == 0
        &&& tr[0].env.frames@.len() == frames.len() + 1
        &&& tr[0].env.frames@.drop_last() == frames
        &&& params_bound(tr[0].env.frames@.last().vars@, params, args, s0.cells@, tr[0].store.cells@)
        &&& store_grew(s0, tr[0].store)
        &&& #[trigger] run_end(g, fuel, tr.last(), a1, e1, s1, r)
    }
}

/// Runs the procedure named `fun` with the argument cells `args`. A procedure given by
/// its graph runs in a new innermost frame: a reference parameter is bound to its
/// argument's cell, a value parameter to a fresh copy, every other local variable to a
/// fresh flattened default value; the blocks run from the entry block, each quadruple in
/// order, a jump continuing at its label's block, until the exit block. A built-in runs
/// on the arguments directly. Afterwards the frames are as before.
///
/// For a procedure given by its graph the contract states the run (`proc_ran`): the
/// parameters bound as `bind_arguments` binds them, and every block and quadruple after
/// that as `eval_quad` states it. A name bound to no procedure gives `NotImplemented`
/// with the name, the error a program gets for a built-in without implementation such as
/// `clearAll` (the command-line front end aborts on it with "not implemented: SPL-builtin
/// `clearAll()`"). A run that ends in a type mismatch is not described.
pub fn eval_function(fun: &String, args: &mut Vec<usize>, env: &mut Environment, store: &mut Store, ctx: &TacContext, fuel: u64) -> (r: Result<(), RuntimeError>)
    ensures
        final(env).frames@ == old(env).frames@,
        store_grew(*old(store), *final(store)),
        env_get(old(env).frames@, fun@) is None ==> r == Err::<(), RuntimeError>(RuntimeError::NotImplemented(*fun))
            && *final(store) == *old(store),
        bound_builtin(old(env).frames@, *old(store), fun@) matches Some(b) ==> builtin_ran(b, old(args)@, *old(store), *final(store), r),
        bound_function(old(env).frames@, *old(store), fun@) matches Some(ValueFunction::Tac(pe, gi)) ==> {
            let n = if old(args)@.len() < pe.parameters@.len() { old(args)@.len() as int } else { pe.parameters@.len() as int };
            &&& !value_args_exist(pe.parameters@, old(args)@, n, old(store).cells@)
                ==> r == Err::<(), RuntimeError>(RuntimeError::TypeMismatch)
            &&& (gi < ctx.graphs@.len() && r != Err::<(), RuntimeError>(RuntimeError::TypeMismatch))
                ==> proc_ran(ctx.graphs@[gi as int].1, pe.parameters@, old(args)@, old(env).frames@, *old(store), fuel, *final(store), r)
        },
    decreases fuel, 2nat,
{
    proof {
        lemma_store_grew_refl(*store);
    }
    let ghost s0 = *store;
    let ghost e0 = env.frames@;
    let cell = match env.lookup(fun) {
        Some(c) => c,
        None => {
            return Err(RuntimeError::NotImplemented(fun.clone()));
        },
    };
    let fidx = match get_cell(store, cell) {
        Ok(Value::Function(f)) => *f,
        _ => {
            return Err(RuntimeError::NotImplemented(fun.clone()));
        },
    };
    if fidx >= store.functions.len() {
        return Err(RuntimeError::NotImplemented(fun.clone()));
    }
    let (params, table, gidx, builtin) = match &store.functions[fidx] {
        ValueFunction::Tac(e, g) => (clone_parameters(&e.parameters), e.local_table.clone(), *g, None),
        ValueFunction::BuiltIn(e, b) => (clone_parameters(&e.parameters), SymbolTable::new(), 0, Some(*b)),
        ValueFunction::Spl(_, _) => {
            return Err(RuntimeError::TypeMismatch);
        },
    };
    match builtin {
        Some(b) => {
            let ghost s1 = *store;
            let r = b.call(args, store, ctx.start);
            proof {
                lemma_store_grew_trans(s0, s1, *store);
            }
            return r;
        },
        None => {},
    }
    proof {
        assert(bound_builtin(old(env).frames@, *old(store), fun@) is None);
    }
    // the frame: parameters first, then the other local variables
    let ghost sb = *store;
    let mut vars = match bind_arguments(&params, args, store) {
        Ok(v) => v,
        Err(e) => {
            proof {
                assert(store.output@.subrange(0, sb.output@.len() as int) =~= sb.output@);
                lemma_store_grew_trans(s0, sb, *store);
            }
            return Err(e);
        },
    };
    proof {
        assert(store.output@.subrange(0, sb.output@.len() as int) =~= sb.output@);
        lemma_store_grew_trans(s0, sb, *store);
    }
    let ghost vb = vars@;
    let ghost c1 = store.cells@;
    let ghost a0 = *old(args);
    let ghost n = if a0@.len() < params@.len() { a0@.len() as int } else { params@.len() as int };
    proof {
        assert(params_bound(vb, params@, a0@, s0.cells@, c1)) by {
            assert forall|k: int| 0 <= k < n && !(#[trigger] params@[k]).is_reference
                implies param_cell(params@, a0@, s0.cells@.len() as int, k) < c1.len() by {
                lemma_value_params_mono(params@, k, n);
            }
        }
    }
    args.clear();
    let mut t: usize = 0;
    while t < table.entries.len()
        invariant
            env_get(old(env).frames@, fun@) is Some,
            bound_builtin(old(env).frames@, *old(store), fun@) is None,
            s0 == *old(store),
            e0 == old(env).frames@,
            store_grew(s0, *store),
            env.frames@ == e0,
            args@.len() == 0,
            n == (if a0@.len() < params@.len() { a0@.len() as int } else { params@.len() as int }),
            value_args_exist(params@, a0@, n, s0.cells@),
            params_bound(vb, params@, a0@, s0.cells@, c1),
            vars@.len() >= vb.len(),
            forall|k: int| 0 <= k < vb.len() ==> #[trigger] vars@[k] == vb[k],
            store.cells@.len() >= c1.len(),
            forall|i: int| 0 <= i < c1.len() ==> #[trigger] store.cells@[i] == c1[i],
        decreases table.entries@.len() - t,
    {
        let mut is_param = false;
        let mut p: usize = 0;
        while p < params.len()
            invariant
                env_get(old(env).frames@, fun@) is Some,
                bound_builtin(old(env).frames@, *old(store), fun@) is None,
                t < table.entries@.len(),
            decreases params@.len() - p,
        {
            if params[p].name == table.entries[t].0 {
                is_param = true;
            }
            p = p + 1;
        }
        if !is_param {
            match &table.entries[t].1 {
                Entry::VariableEntry(ve) => {
                    let ghost sb = *store;
                    let d = ve.typ.default_value(store);
                    let flat = match d.flatten_value(store, usize::MAX) {
                        Ok(f) => f,
                        Err(e) => {
                            proof {
                                assert(store.output@.subrange(0, sb.output@.len() as int) =~= sb.output@);
                                lemma_store_grew_trans(s0, sb, *store);
                            }
                            return Err(e);
                        },
                    };
                    let ghost sc = store.cells@;
                    let c = Value::new_refcell(store, flat);
                    proof {
                        assert(store.output@.subrange(0, sb.output@.len() as int) =~= sb.output@);
                        lemma_store_grew_trans(s0, sb, *store);
                        assert forall|i: int| 0 <= i < c1.len() implies #[trigger] store.cells@[i] == c1[i] by {
                            assert(store.cells@[i] == sc[i]);
                            assert(sc[i] == sb.cells@[i]);
                        }
                    }
                    vars.push((table.entries[t].0.clone(), c));
                },
                _ => {},
            }
        }
        t = t + 1;
    }
    if gidx >= ctx.graphs.len() {
        return Err(RuntimeError::TypeMismatch);
    }
    proof {
        assert(params_bound(vars@, params@, a0@, s0.cells@, store.cells@)) by {
            assert forall|k: int| 0 <= k < n implies (#[trigger] vars@[k]).0@ == params@[k].name@
                && vars@[k].1 as int == param_cell(params@, a0@, s0.cells@.len() as int, k) by {
                assert(vars@[k] == vb[k]);
            }
            assert forall|k: int| 0 <= k < n && !(#[trigger] params@[k]).is_reference
                implies param_cell(params@, a0@, s0.cells@.len() as int, k) < store.cells@.len()
                && value_view(store.cells@[param_cell(params@, a0@, s0.cells@.len() as int, k)]) == value_view(s0.cells@[a0@[k] as int]) by {
                assert(store.cells@[param_cell(params@, a0@, s0.cells@.len() as int, k)] == c1[param_cell(params@, a0@, s0.cells@.len() as int, k)]);
            }
        }
    }
    env.frames.push(Frame { vars, symbol_table: table });
    let ghost e1 = env.frames@;
    let ghost env1 = *env;
    let ghost args1 = *args;
    let graph = &ctx.graphs[gidx].1;
    let ghost s5 = *store;
    let r = run_blocks(graph, args, env, store, ctx, fuel);
    let ghost e_end = *env;
    proof {
        assert(e1.drop_last() =~= e0);
        assert(env.frames@.drop_last() == e0);
        lemma_store_grew_trans(s0, s5, *store);
        let tr = choose|tr: Seq<RunPoint>| #[trigger] is_run(*graph, fuel, run_start(fuel, args1, env1, s5), tr)
            && run_end(*graph, fuel, tr.last(), *args, *env, *store, r);
        assert(tr[0] == run_start(fuel, args1, env1, s5));
        assert(is_run(*graph, fuel, tr[0], tr));
        assert(proc_ran(*graph, params@, a0@, e0, s0, fuel, *store, r));
    }
    env.frames.pop();
    r
}

/// A point of a run of one activation: the block, the position in its code, the block
/// a jump taken in it leads to, the block entries left, and the argument queue, frames
/// and store.
pub struct RunPoint {
    pub block: usize,
    pub pos: usize,
    pub target: Option<usize>,
    pub steps: u64,
    pub args: Vec<usize>,
    pub env: Environment,
    pub store: Store,
}

/// The first point of a run: the entry block, with `fuel` block entries.
pub open spec fn run_start(fuel: u64, args: Vec<usize>, env: Environment, store: Store) -> RunPoint {
    RunPoint { block: 0, pos: 0, target: None, steps: fuel, args, env, store }
}

/// One step of a run: past the entry block, one quadruple of a code block (which must
/// succeed; a label it yields must name a block, which becomes the block to continue
/// at), or from the end of a code block to the block a jump chose, else the next one.
/// Entering a block spends one of the entries left.
pub open spec fn run_step(g: BlockGraph, fuel: u64, s: RunPoint, t: RunPoint) -> bool {
    &&& s.block < g.blocks@.len()
    &&& (s.pos == 0 ==> s.steps > 0)
    &&& t.steps == (if s.pos == 0 { (s.steps - 1) as u64 } else { s.steps })
    &&& match g.blocks@[s.block as int].content {
        BlockContent::Start => t.block == s.block + 1 && t.pos == 0 && t.target is None
            && t.args == s.args && t.env == s.env && t.store == s.store,
        BlockContent::Stop => false,
        BlockContent::Code(quads) => if s.pos < quads@.len() {
            &&& t.block == s.block
            &&& t.pos == s.pos + 1
            &&& exists|o: Option<String>| #[trigger] quad_effect(s.args, quads@[s.pos as int], s.env, s.store, fuel, t.args, t.env, t.store, Ok(o))
                && match o {
                    Some(l) => lookup_label(g.label_to_id@, l@) is Some && t.target == lookup_label(g.label_to_id@, l@),
                    None => t.target == s.target,
                }
        } else {
            &&& t.block == (match s.target { Some(b) => b, None => (s.block + 1) as usize })
            &&& t.pos == 0
            &&& t.target is None
            &&& t.args == s.args && t.env == s.env && t.store == s.store
        },
    }
}

/// `tr` is a run: it starts at `start` and each point steps to the next.
pub open spec fn is_run(g: BlockGraph, fuel: u64, start: RunPoint, tr: Seq<RunPoint>) -> bool {
    &&& tr.len() >= 1
    &&& tr[0] == start
    &&& forall|i: int| 0 <= i < tr.len() - 1 ==> #[trigger] run_step(g, fuel, tr[i], tr[i + 1])
}

/// How a run that got to `p` ends, with the queue, frames and store `args`, `env`,
/// `store` and the outcome `r`: at the exit block or past the last block (`Ok`), out of
/// block entries, or at a quadruple of `p` that fails or yields a label naming no block.
pub open spec fn run_end(g: BlockGraph, fuel: u64, p: RunPoint, args: Vec<usize>, env: Environment, store: Store, r: Result<(), RuntimeError>) -> bool {
    match r {
        Ok(()) => p.pos == 0 && (p.block >= g.blocks@.len() || (g.blocks@[p.block as int].content is Stop && p.steps > 0))
            && args == p.args && env == p.env && store == p.store,
        Err(e) => {
            ||| (e is OutOfFuel && p.pos == 0 && p.block < g.blocks@.len() && p.steps == 0
                && args == p.args && env == p.env && store == p.store)
            ||| (p.block < g.blocks@.len() && (p.pos == 0 ==> p.steps > 0) && match g.blocks@[p.block as int].content {
                BlockContent::Code(quads) => p.pos < quads@.len() && {
                    ||| quad_effect(p.args, quads@[p.pos as int], p.env, p.store, fuel, args, env, store, Err(e))
                    ||| exists|l: String| #[trigger] quad_effect(p.args, quads@[p.pos as int], p.env, p.store, fuel, args, env, store, Ok(Some(l)))
                        && lookup_label(g.label_to_id@, l@) is None && e == RuntimeError::NotFound(l)
                },
                _ => false,
            })
        },
    }
}

/// Runs the blocks of one activation, from the entry block to the exit block.
fn run_blocks(graph: &BlockGraph, args: &mut Vec<usize>, env: &mut Environment, store: &mut Store, ctx: &TacContext, fuel: u64) -> (r: Result<(), RuntimeError>)
    ensures
        outer_frames_kept(*old(env), *final(env)),
        store_grew(*old(store), *final(store)),
        exists|tr: Seq<RunPoint>| #[trigger] is_run(*graph, fuel, run_start(fuel, *old(args), *old(env), *old(store)), tr)
            && run_end(*graph, fuel, tr.last(), *final(args), *final(env), *final(store), r),
    decreases fuel, 1nat,
{
    proof {
        lemma_store_grew_refl(*store);
    }
    let ghost s0 = *store;
    let ghost start = run_start(fuel, *args, *env, *store);
    let ghost mut tr: Seq<RunPoint> = seq![start];
    let mut next_block: usize = 0;
    let mut steps = fuel;
    while next_block < graph.blocks.len()
        invariant
            store_grew(s0, *store),
            outer_frames_kept(*old(env), *env),
            s0 == *old(store),
            start == run_start(fuel, *old(args), *old(env), *old(store)),
            is_run(*graph, fuel, start, tr),
            tr.last() == (RunPoint { block: next_block, pos: 0, target: None, steps, args: *args, env: *env, store: *store }),
        decreases steps,
    {
        if steps == 0 {
            proof {
                assert(run_end(*graph, fuel, tr.last(), *args, *env, *store, Err(RuntimeError::OutOfFuel)));
            }
            return Err(RuntimeError::OutOfFuel);
        }
        steps = steps - 1;
        match &graph.blocks[next_block].content {
            BlockContent::Start => {
                let ghost t = RunPoint { block: (next_block + 1) as usize, pos: 0, target: None, steps, args: *args, env: *env, store: *store };
                proof {
                    assert(run_step(*graph, fuel, tr.last(), t));
                    lemma_run_push(*graph, fuel, start, tr, t);
                    tr = tr.push(t);
                }
                next_block = next_block + 1;
            },
            BlockContent::Code(quads) => {
                let mut target: Option<usize> = None;
                let mut q: usize = 0;
                while q < quads.len()
                    invariant
                        s0 == *old(store),
                        store_grew(s0, *store),
                        outer_frames_kept(*old(env), *env),
                        start == run_start(fuel, *old(args), *old(env), *old(store)),
                        is_run(*graph, fuel, start, tr),
                        next_block < graph.blocks@.len(),
                        graph.blocks@[next_block as int].content == BlockContent::Code(*quads),
                        q <= quads@.len(),
                        tr.last() == (RunPoint { block: next_block, pos: q, target, steps: if q == 0 { (steps + 1) as u64 } else { steps }, args: *args, env: *env, store: *store }),
                        steps < u64::MAX,
                    decreases quads@.len() - q,
                {
                    let ghost sb = *store;
                    let ghost eb = *env;
                    let ghost ab = *args;
                    let ghost pb = tr.last();
                    let res = eval_quad(args, &quads[q], env, store, ctx, fuel);
                    let ghost gres = res;
                    proof {
                        lemma_store_grew_trans(s0, sb, *store);
                        assert(env.frames@.drop_last() == eb.frames@.drop_last());
                    }
                    match res {
                        Ok(Some(l)) => {
                            match find_label(&graph.label_to_id, &l) {
                                Some(id) => {
                                    target = Some(id);
                                },
                                None => {
                                    proof {
                                        assert(quad_effect(pb.args, quads@[pb.pos as int], pb.env, pb.store, fuel, *args, *env, *store, Ok(Some(l))));
                                        assert(run_end(*graph, fuel, tr.last(), *args, *env, *store, Err(RuntimeError::NotFound(l))));
                                    }
                                    return Err(RuntimeError::NotFound(l));
                                },
                            }
                        },
                        Ok(None) => {},
                        Err(e) => {
                            proof {
                                assert(run_end(*graph, fuel, tr.last(), *args, *env, *store, Err(e)));
                            }
                            return Err(e);
                        },
                    }
                    let ghost t = RunPoint { block: next_block, pos: (q + 1) as usize, target, steps, args: *args, env: *env, store: *store };
                    proof {
                        let o = match gres { Ok(o) => o, Err(_) => None };
                        assert(quad_effect(pb.args, quads@[pb.pos as int], pb.env, pb.store, fuel, t.args, t.env, t.store, Ok(o)));
                        assert(run_step(*graph, fuel, pb, t));
                        lemma_run_push(*graph, fuel, start, tr, t);
                        tr = tr.push(t);
                    }
                    q = q + 1;
                }
                next_block = match target {
                    Some(id) => id,
                    None => next_block + 1,
                };
                let ghost t = RunPoint { block: next_block, pos: 0, target: None, steps, args: *args, env: *env, store: *store };
                proof {
                    assert(run_step(*graph, fuel, tr.last(), t));
                    lemma_run_push(*graph, fuel, start, tr, t);
                    tr = tr.push(t);
                }
            },
            BlockContent::Stop => {
                proof {
                    assert(run_end(*graph, fuel, tr.last(), *args, *env, *store, Ok(())));
                }
                return Ok(());
            },
        }
    }
    proof {
        assert(run_end(*graph, fuel, tr.last(), *args, *env, *store, Ok(())));
    }
    Ok(())
}

proof fn lemma_run_push(g: BlockGraph, fuel: u64, start: RunPoint, tr: Seq<RunPoint>, t: RunPoint)
    requires
        is_run(g, fuel, start, tr),
        run_step(g, fuel, tr.last(), t),
    ensures
        is_run(g, fuel, start, tr.push(t)),
        tr.push(t).last() == t,
{
    let tr2 = tr.push(t);
    assert forall|i: int| 0 <= i < tr2.len() - 1 implies #[trigger] run_step(g, fuel, tr2[i], tr2[i + 1]) by {
        if i < tr.len() - 1 {
            assert(tr2[i] == tr[i] && tr2[i + 1] == tr[i + 1]);
        } else {
            assert(tr2[i] == tr.last() && tr2[i + 1] == t);
        }
    }
}

/// The binding `b` of the `j`-th procedure, named `name`, holds a procedure value for
/// its graph, with the parameters the table gives the name.
pub open spec fn proc_bound(b: (String, usize), j: int, store: Store, table: SymbolTable, name: Seq<char>) -> bool {
    &&& b.1 < store.cells@.len()
    &&& match store.cells@[b.1 as int] {
        Value::Function(f) => f < store.functions@.len() && match store.functions@[f as int] {
            ValueFunction::Tac(e, g) => g == j && match scoped_lookup(table, None, name) {
                Some(Entry::ProcedureEntry(pe)) => e.parameters@ == pe.parameters@,
                _ => false,
            },
            _ => false,
        },
        _ => false,
    }
}

/// A run of `main`, given by the graph `g` with the parameters the table gives it, in a
/// single global frame and a store that has printed nothing, that printed `output` and
/// ended with the outcome `r`.
pub open spec fn main_ran(g: BlockGraph, table: SymbolTable, fuel: u64, output: Seq<Output>, r: Result<(), RuntimeError>) -> bool {
    match scoped_lookup(table, None, seq!['m', 'a', 'i', 'n']) {
        Some(Entry::ProcedureEntry(pe)) => exists|frames: Seq<Frame>, s0: Store, s1: Store| {
            &&& frames.len() == 1
            &&& s0.output@.len() == 0
            &&& #[trigger] proc_ran(g, pe.parameters@, Seq::empty(), frames, s0, fuel, s1, r)
            &&& output == s1.output@
        },
        _ => false,
    }
}

proof fn lemma_frame_get_last(vars: Seq<(String, usize)>, key: Seq<char>, j: int)
    requires
        0 <= j < vars.len(),
        vars[j].0@ == key,
        forall|k: int| j < k < vars.len() ==> (#[trigger] vars[k]).0@ != key,
    ensures
        frame_get(vars, key) == Some(vars[j].1),
    decreases vars.len(),
{
    if j < vars.len() - 1 {
        assert(vars.last() == vars[vars.len() - 1]);
        lemma_frame_get_last(vars.drop_last(), key, j);
    }
}

/// Runs a program given by the graphs of its procedures: binds each procedure in the
/// global frame, after the built-ins, and runs `main`. Returns what the program printed,
/// with the outcome. Where every procedure has its entry in the table, what is printed
/// and the outcome are those of a run of the last procedure named `main` (`main_ran`),
/// unless the outcome is a type mismatch.
pub fn eval_tac(proc_graphs: &Vec<(String, BlockGraph)>, symbol_table: &SymbolTable, start: &Instant, fuel: u64) -> (r: (Vec<Output>, Result<(), RuntimeError>))
    ensures
        (forall|j: int| 0 <= j < proc_graphs@.len() ==> (#[trigger] proc_graphs@[j]).0@ != seq!['m', 'a', 'i', 'n'])
            ==> r.1 is Err && r.0@.len() == 0,
        forall|j: int| #![trigger proc_graphs@[j]] 0 <= j < proc_graphs@.len() && proc_graphs@[j].0@ == seq!['m', 'a', 'i', 'n']
            && (forall|k: int| j < k < proc_graphs@.len() ==> (#[trigger] proc_graphs@[k]).0@ != seq!['m', 'a', 'i', 'n'])
            && (forall|k: int| 0 <= k < proc_graphs@.len() ==> scoped_lookup(*symbol_table, None, (#[trigger] proc_graphs@[k]).0@) matches Some(Entry::ProcedureEntry(_)))
            && r.1 != Err::<(), RuntimeError>(RuntimeError::TypeMismatch)
            ==> main_ran(proc_graphs@[j].1, *symbol_table, fuel, r.0@, r.1),
{
    let mut store = Store { cells: Vec::new(), functions: Vec::new(), output: Vec::new() };
    let mut procs: Vec<(String, usize)> = Vec::new();
    let mut i: usize = 0;
    while i < proc_graphs.len()
        invariant
            store.output@.len() == 0,
            0 <= i <= proc_graphs@.len(),
            procs@.len() == i,
            forall|j: int| 0 <= j < procs@.len() ==> (#[trigger] procs@[j]).0@ == proc_graphs@[j].0@,
            forall|j: int| 0 <= j < procs@.len() ==> proc_bound(#[trigger] procs@[j], j, store, *symbol_table, proc_graphs@[j].0@),
        decreases proc_graphs@.len() - i,
    {
        let name = &proc_graphs[i].0;
        let entry = match symbol_table.lookup(name, None) {
            Some(Entry::ProcedureEntry(p)) => p.clone(),
            _ => {
                proof {
                    assert(!(scoped_lookup(*symbol_table, None, proc_graphs@[i as int].0@) matches Some(Entry::ProcedureEntry(_))));
                }
                return (store.output, Err(RuntimeError::NotFound(name.clone())));
            },
        };
        let ghost st0 = store;
        let fidx = store.functions.len();
        store.functions.push(ValueFunction::Tac(entry, i));
        let c = Value::new_refcell(&mut store, Value::Function(fidx));
        procs.push((name.clone(), c));
        proof {
            assert forall|j: int| 0 <= j < procs@.len() implies proc_bound(#[trigger] procs@[j], j, store, *symbol_table, proc_graphs@[j].0@) by {
                if j < i {
                    assert(proc_bound(procs@[j], j, st0, *symbol_table, proc_graphs@[j].0@));
                    assert(store.cells@[procs@[j].1 as int] == st0.cells@[procs@[j].1 as int]);
                    let f = st0.cells@[procs@[j].1 as int]->Function_0;
                    assert(store.functions@[f as int] == st0.functions@[f as int]);
                }
            }
        }
        i = i + 1;
    }
    let ghost pv = procs@;
    let ghost store_after_procs = store;
    let ghost c0 = store.cells@.len();
    let ghost f0 = store.functions@.len();
    let mut env = Environment::new_global(&mut store, procs, symbol_table.clone());
    let ctx = TacContext { graphs: proc_graphs, start };
    let main = String::from_str("main");
    proof {
        reveal_strlit("main");
        assert(main@ =~= seq!['m', 'a', 'i', 'n']);
        lemma_main_not_builtin();
        let names = |n: Seq<char>| exists|j: int| 0 <= j < proc_graphs@.len() && (#[trigger] proc_graphs@[j]).0@ == n;
        assert forall|j: int| 3 <= j < env.frames@[0].vars@.len() implies names(#[trigger] env.frames@[0].vars@[j].0@) by {
            assert(env.frames@[0].vars@.skip(3)[j - 3] == pv[j - 3]);
            assert(proc_graphs@[j - 3].0@ == pv[j - 3].0@);
        }
        if env_get(env.frames@, main@) is Some {
            lemma_global_binds(env.frames@, main@, names, store.cells@, store.functions@, c0 as int, f0 as int);
        }
    }
    let mut args: Vec<usize> = Vec::new();
    let ghost e_pre = env;
    let ghost s_pre = store;
    let ghost a_pre = args;
    let r = eval_function(&main, &mut args, &mut env, &mut store, &ctx, fuel);
    proof {
        assert forall|j: int| #![trigger proc_graphs@[j]] 0 <= j < proc_graphs@.len() && proc_graphs@[j].0@ == seq!['m', 'a', 'i', 'n']
            && (forall|k: int| j < k < proc_graphs@.len() ==> (#[trigger] proc_graphs@[k]).0@ != seq!['m', 'a', 'i', 'n'])
            && (forall|k: int| 0 <= k < proc_graphs@.len() ==> scoped_lookup(*symbol_table, None, (#[trigger] proc_graphs@[k]).0@) matches Some(Entry::ProcedureEntry(_)))
            && r != Err::<(), RuntimeError>(RuntimeError::TypeMismatch)
            implies main_ran(proc_graphs@[j].1, *symbol_table, fuel, store.output@, r) by {
            let key = seq!['m', 'a', 'i', 'n'];
            let vars = e_pre.frames@[0].vars@;
            assert(vars[3 + j] == vars.skip(3)[j]);
            assert(vars[3 + j] == pv[j]);
            assert forall|k: int| 3 + j < k < vars.len() implies (#[trigger] vars[k]).0@ != key by {
                assert(vars[k] == vars.skip(3)[k - 3]);
                assert(pv[k - 3].0@ == proc_graphs@[k - 3].0@);
            }
            lemma_frame_get_last(vars, key, 3 + j);
            assert(e_pre.frames@.last() == e_pre.frames@[0]);
            assert(env_get(e_pre.frames@, key) == Some(pv[j].1));
            assert(proc_bound(pv[j], j, store_after_procs, *symbol_table, proc_graphs@[j].0@));
            let c = pv[j].1;
            assert(s_pre.cells@[c as int] == store_after_procs.cells@[c as int]);
            let f = store_after_procs.cells@[c as int]->Function_0;
            assert(s_pre.functions@[f as int] == store_after_procs.functions@[f as int]);
            assert(main@ == key);
            assert(a_pre@ =~= Seq::<usize>::empty());
            let pe = scoped_lookup(*symbol_table, None, key)->Some_0->ProcedureEntry_0;
            assert(proc_ran(proc_graphs@[j].1, pe.parameters@, Seq::empty(), e_pre.frames@, s_pre, fuel, store, r));
        }
    }
    (store.output, r)
}

/// A conditional jump of the three-address code compares by the integer order, the
/// first operand against the second, as folding a comparison of constants does.
pub proof fn law_jump_comparison_is_order(a: i32, b: i32, res: QuadrupelResult)
    ensures
        comparison_holds(QuadrupelOp::Equ, a, b) == (a == b),
        comparison_holds(QuadrupelOp::Neq, a, b) == (a != b),
        comparison_holds(QuadrupelOp::Lst, a, b) == (a < b),
        comparison_holds(QuadrupelOp::Lse, a, b) == (a <= b),
        comparison_holds(QuadrupelOp::Grt, a, b) == (a > b),
        comparison_holds(QuadrupelOp::Gre, a, b) == (a >= b),
        forall|op: QuadrupelOp| spec_is_relop(op) ==> spec_const_comparison(crate::quadrupel::mk_quad(op,
            QuadrupelArg::Const(a), QuadrupelArg::Const(b), res)) == Some(#[trigger] comparison_holds(op, a, b)),
{
}

/// Algebraic simplification keeps what a quadruple computes: where an arithmetic
/// operation, a negation or a copy computes a value from its operands' values, the
/// simplified quadruple writes the same result variable and computes the same value from
/// the same frames and cells.
#[verifier::spinoff_prover]
#[verifier::rlimit(50)]
pub proof fn law_simplify_keeps_value(q: Quadrupel, frames: Seq<Frame>, cells: Seq<Value>)
    requires
        written_value(q.op, operand_value(q.arg1, frames, cells), operand_value(q.arg2, frames, cells)) matches Some(Ok(_)),
    ensures
        crate::quadrupel::spec_simplify(q) matches Some(q2) && q2.result == q.result
            && written_value(q2.op, operand_value(q2.arg1, frames, cells), operand_value(q2.arg2, frames, cells))
                == written_value(q.op, operand_value(q.arg1, frames, cells), operand_value(q.arg2, frames, cells)),
{
    let x = operand_value(q.arg1, frames, cells);
    let y = operand_value(q.arg2, frames, cells);
    let w = written_value(q.op, x, y);
    let s = crate::quadrupel::spec_simplify(q);
    if let (QuadrupelArg::Const(a), QuadrupelArg::Const(b)) = (q.arg1, q.arg2) {
        crate::value::law_arith_is_integer_arithmetic(a, b);
    }
    if crate::quadrupel::spec_calc_const(q) is Some {
        assert(s == Some(crate::quadrupel::mk_quad(QuadrupelOp::Assign,
            QuadrupelArg::Const(crate::quadrupel::spec_calc_const(q).unwrap()), QuadrupelArg::Empty, q.result)));
        let q2 = s.unwrap();
        assert(written_value(q2.op, operand_value(q2.arg1, frames, cells), operand_value(q2.arg2, frames, cells)) == w);
    } else if spec_const_comparison(q) is Some {
        assert(false);
    } else if q.op == QuadrupelOp::Neg || q.op == QuadrupelOp::Assign {
        assert(s == Some(q));
    } else {
        lemma_simplify_arith_keeps_value(q, frames, cells);
    }
}

#[verifier::spinoff_prover]
#[verifier::rlimit(50)]
proof fn lemma_simplify_arith_keeps_value(q: Quadrupel, frames: Seq<Frame>, cells: Seq<Value>)
    requires
        written_value(q.op, operand_value(q.arg1, frames, cells), operand_value(q.arg2, frames, cells)) matches Some(Ok(_)),
        crate::quadrupel::spec_calc_const(q) is None,
        spec_const_comparison(q) is None,
        q.op != QuadrupelOp::Neg && q.op != QuadrupelOp::Assign,
    ensures
        crate::quadrupel::spec_simplify(q) matches Some(q2) && q2.result == q.result
            && written_value(q2.op, operand_value(q2.arg1, frames, cells), operand_value(q2.arg2, frames, cells))
                == written_value(q.op, operand_value(q.arg1, frames, cells), operand_value(q.arg2, frames, cells)),
{
    let x = operand_value(q.arg1, frames, cells);
    let y = operand_value(q.arg2, frames, cells);
    {
        let a = x->0->Int_0;
        let b = y->0->Int_0;
        crate::value::law_arith_is_integer_arithmetic(a, b);
        if q.arg1 is Var && q.arg2 is Var && crate::quadrupel::same_arg(q.arg1, q.arg2) {
            assert(spec_identifier(q.arg1->Var_0) == spec_identifier(q.arg2->Var_0));
            assert(x == y);
        }
        if q.op == QuadrupelOp::Div && b == 1 {
            assert(a as int / 1 == a);
            assert((-(a as int)) / 1 == -(a as int));
            assert(crate::value::arith(Operator::Div, a, b) == Ok::<i32, ()>(a));
        }
        if q.op == QuadrupelOp::Div && a == 0 {
            assert(crate::value::arith(Operator::Div, a, b) == Ok::<i32, ()>(0));
        }
        if q.op == QuadrupelOp::Mul && a == 2 {
            crate::value::law_arith_is_integer_arithmetic(b, b);
            assert(crate::value::arith(Operator::Mul, a, b) == crate::value::arith(Operator::Add, b, b));
        }
        if q.op == QuadrupelOp::Mul && b == 2 {
            crate::value::law_arith_is_integer_arithmetic(a, a);
            assert(crate::value::arith(Operator::Mul, a, b) == crate::value::arith(Operator::Add, a, a));
        }
        if q.op == QuadrupelOp::Sub && a == 0 {
            assert(crate::value::arith(Operator::Sub, a, b) == match 0i32.checked_sub(b) { Some(v) => Ok::<i32, ()>(v), None => Err(()) });
        }
    }
}

/// Array offsets are byte offsets of four-byte elements: the offset `4 * k` reaches
/// element `k`, and every offset from `4 * k` to `4 * k + 3` reaches no other element.
pub proof fn law_byte_offsets(k: i32, r: i32)
    requires
        0 <= k,
        0 <= r < 4,
        4 * k + r <= i32::MAX,
    ensures
        element_of((4 * k + r) as i32) == k,
{
}

} // verus!
