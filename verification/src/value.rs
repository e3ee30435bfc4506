//! The values of the interpreters, the store of cells that holds them, and the
//! arithmetic on them.
use vstd::prelude::*;
use crate::table::{Parameter, ProcedureEntry, SymbolTable};
use crate::types::{PrimitiveType, Type};

verus! {

/// A value: an integer, a truth value, an array of cells, or a procedure (an index into
/// the store's procedures).
#[derive(Debug)]
pub enum Value {
    Int(i32),
    Bool(bool),
    Array(Vec<usize>),
    Function(usize),
}

/// Which predefined procedure a built-in stands for.
#[derive(Debug, Clone, Copy, PartialEq, Eq, Structural)]
pub enum BuiltinKind {
    PrintInt,
    PrintChar,
    Time,
}

/// A predefined procedure that the interpreters carry out themselves.
#[derive(Debug, Clone, Copy, PartialEq, Eq, Structural)]
pub struct BuiltInProc {
    pub kind: BuiltinKind,
}

/// A procedure: one of the program given by its abstract syntax (the index of its
/// definition), one given by its block graph (the index of the graph), or a built-in.
#[derive(Debug)]
pub enum ValueFunction {
    Spl(ProcedureEntry, usize),
    Tac(ProcedureEntry, usize),
    BuiltIn(ProcedureEntry, BuiltInProc),
}

/// What a program prints: a number, or a character given by its code.
#[derive(Debug, Clone, Copy, PartialEq, Eq, Structural)]
pub enum Output {
    Int(i32),
    Char(u8),
}

/// Why a run stops early.
#[derive(Debug)]
pub enum RuntimeError {
    /// An array index outside `0 .. len`: the length and the index.
    IndexOutOfBounds(usize, i32),
    DivisionByZero,
    Overflow,
    /// A variable or procedure that is not bound.
    NotFound(String),
    /// A predefined procedure that has no implementation.
    NotImplemented(String),
    /// `printc` of a number that is no byte.
    InvalidChar(i32),
    /// The time does not fit in an `int`.
    TimeOverflow,
    /// A value of the wrong kind, which a checked program never produces.
    TypeMismatch,
    /// The step budget ran out.
    OutOfFuel,
}

/// The cells of a run, the procedures it knows, and what it has printed so far.
pub struct Store {
    pub cells: Vec<Value>,
    pub functions: Vec<ValueFunction>,
    pub output: Vec<Output>,
}

/// The abstract view of a value.
pub enum ValueView {
    Int(i32),
    Bool(bool),
    Array(Seq<usize>),
    Function(usize),
}

/// The view of a value.
pub open spec fn value_view(v: Value) -> ValueView {
    match v {
        Value::Int(i) => ValueView::Int(i),
        Value::Bool(b) => ValueView::Bool(b),
        Value::Array(a) => ValueView::Array(a@),
        Value::Function(f) => ValueView::Function(f),
    }
}

impl Clone for Value {
    fn clone(&self) -> (r: Self)
        ensures
            value_view(r) == value_view(*self),
    {
        match self {
            Value::Int(i) => Value::Int(*i),
            Value::Bool(b) => Value::Bool(*b),
            Value::Array(a) => Value::Array(a.clone()),
            Value::Function(f) => Value::Function(*f),
        }
    }
}

/// The number a comparable value stands for: an integer itself, a truth value as 0 or 1.
pub open spec fn as_number(v: ValueView) -> Option<i32> {
    match v {
        ValueView::Int(i) => Some(i),
        ValueView::Bool(b) => Some(if b { 1i32 } else { 0i32 }),
        _ => None,
    }
}

/// The result of an arithmetic operation on two integers.
pub open spec fn arith(op: crate::absyn::Operator, a: i32, b: i32) -> Result<i32, ()> {
    match op {
        crate::absyn::Operator::Add => match a.checked_add(b) { Some(v) => Ok(v), None => Err(()) },
        crate::absyn::Operator::Sub => match a.checked_sub(b) { Some(v) => Ok(v), None => Err(()) },
        crate::absyn::Operator::Mul => match a.checked_mul(b) { Some(v) => Ok(v), None => Err(()) },
        _ => match a.checked_div(b) { Some(v) => Ok(v), None => Err(()) },
    }
}

impl Value {
    /// The integer a value holds.
    pub fn as_int(&self) -> (r: Result<i32, RuntimeError>)
        ensures
            match r {
                Ok(i) => *self == Value::Int(i),
                Err(e) => !(*self is Int) && e is TypeMismatch,
            },
    {
        match self {
            Value::Int(i) => Ok(*i),
            _ => Err(RuntimeError::TypeMismatch),
        }
    }

    /// The number a comparable value stands for.
    pub fn as_number(&self) -> (r: Result<i32, RuntimeError>)
        ensures
            match r {
                Ok(i) => as_number(value_view(*self)) == Some(i),
                Err(e) => as_number(value_view(*self)) is None && e is TypeMismatch,
            },
    {
        match self {
            Value::Int(i) => Ok(*i),
            Value::Bool(b) => Ok(if *b { 1 } else { 0 }),
            _ => Err(RuntimeError::TypeMismatch),
        }
    }

    /// Adds, subtracts, multiplies or divides two integer values; an overflow or a
    /// division by zero is an error.
    pub fn arith(op: crate::absyn::Operator, a: &Value, b: &Value) -> (r: Result<Value, RuntimeError>)
        ensures
            match (*a, *b) {
                (Value::Int(x), Value::Int(y)) => match arith(op, x, y) {
                    Ok(v) => r matches Ok(Value::Int(w)) && w == v,
                    Err(_) => r matches Err(e) && (if y == 0 && !(op == crate::absyn::Operator::Add
                        || op == crate::absyn::Operator::Sub || op == crate::absyn::Operator::Mul) {
                        e is DivisionByZero
                    } else {
                        e is Overflow
                    }),
                },
                _ => r matches Err(e) && e is TypeMismatch,
            },
    {
        let x = match a.as_int() {
            Ok(x) => x,
            Err(e) => return Err(e),
        };
        let y = match b.as_int() {
            Ok(y) => y,
            Err(e) => return Err(e),
        };
        let res = match op {
            crate::absyn::Operator::Add => x.checked_add(y),
            crate::absyn::Operator::Sub => x.checked_sub(y),
            crate::absyn::Operator::Mul => x.checked_mul(y),
            _ => {
                if y == 0 {
                    return Err(RuntimeError::DivisionByZero);
                }
                x.checked_div(y)
            },
        };
        match res {
            Some(v) => Ok(Value::Int(v)),
            None => Err(RuntimeError::Overflow),
        }
    }

    /// The negation of an integer value; negating the least `int` is an overflow.
    pub fn neg(a: &Value) -> (r: Result<Value, RuntimeError>)
        ensures
            match *a {
                Value::Int(x) => match 0i32.checked_sub(x) {
                    Some(v) => r matches Ok(Value::Int(w)) && w == v,
                    None => r matches Err(e) && e is Overflow,
                },
                _ => r matches Err(e) && e is TypeMismatch,
            },
    {
        let x = match a.as_int() {
            Ok(x) => x,
            Err(e) => return Err(e),
        };
        match 0i32.checked_sub(x) {
            Some(v) => Ok(Value::Int(v)),
            None => Err(RuntimeError::Overflow),
        }
    }

    /// Compares two comparable values by the numbers they stand for.
    pub fn compare(op: crate::absyn::Operator, a: &Value, b: &Value) -> (r: Result<bool, RuntimeError>)
        ensures
            match (as_number(value_view(*a)), as_number(value_view(*b))) {
                (Some(x), Some(y)) => r == Ok::<bool, RuntimeError>(match op {
                    crate::absyn::Operator::Equ => x == y,
                    crate::absyn::Operator::Neq => x != y,
                    crate::absyn::Operator::Lst => x < y,
                    crate::absyn::Operator::Lse => x <= y,
                    crate::absyn::Operator::Grt => x > y,
                    _ => x >= y,
                }),
                _ => r matches Err(e) && e is TypeMismatch,
            },
    {
        let x = match a.as_number() {
            Ok(x) => x,
            Err(e) => return Err(e),
        };
        let y = match b.as_number() {
            Ok(y) => y,
            Err(e) => return Err(e),
        };
        Ok(match op {
            crate::absyn::Operator::Equ => x == y,
            crate::absyn::Operator::Neq => x != y,
            crate::absyn::Operator::Lst => x < y,
            crate::absyn::Operator::Lse => x <= y,
            crate::absyn::Operator::Grt => x > y,
            _ => x >= y,
        })
    }

    /// Stores a value in a new cell and returns the cell.
    pub fn new_refcell(store: &mut Store, value: Value) -> (r: usize)
        ensures
            r == old(store).cells@.len(),
            final(store).cells@ == old(store).cells@.push(value),
            final(store).functions == old(store).functions,
            final(store).output == old(store).output,
    {
        let id = store.cells.len();
        store.cells.push(value);
        id
    }

    /// A built-in procedure value with the given parameters (name and passing mode, all of
    /// type `int`), registered among the store's procedures.
    pub fn new_builtin_proc(store: &mut Store, params: &Vec<(String, bool)>, f: BuiltInProc) -> (r: Value)
        ensures
            r == Value::Function(old(store).functions@.len() as usize),
            final(store).functions@.len() == old(store).functions@.len() + 1,
            final(store).functions@.last() matches ValueFunction::BuiltIn(e, g) && g == f
                && e.parameters@.len() == params@.len()
                && e.local_table.entries@.len() == 0
                && forall|i: int| 0 <= i < params@.len() ==> (#[trigger] e.parameters@[i]).name@ == params@[i].0@
                    && e.parameters@[i].is_reference == params@[i].1
                    && e.parameters@[i].typ == Type::PrimitiveType(PrimitiveType::Int),
            forall|i: int| 0 <= i < old(store).functions@.len() ==> #[trigger] final(store).functions@[i] == old(store).functions@[i],
            final(store).cells == old(store).cells,
            final(store).output == old(store).output,
    {
        let mut ps: Vec<Parameter> = Vec::new();
        let mut i: usize = 0;
        while i < params.len()
            invariant
                0 <= i <= params@.len(),
                ps@.len() == i,
                forall|j: int| 0 <= j < i ==> (#[trigger] ps@[j]).name@ == params@[j].0@
                    && ps@[j].is_reference == params@[j].1 && ps@[j].typ == Type::PrimitiveType(PrimitiveType::Int),
            decreases params@.len() - i,
        {
            ps.push(Parameter::new(params[i].0.clone(), Type::int_type(), params[i].1));
            i = i + 1;
        }
        let id = store.functions.len();
        store.functions.push(ValueFunction::BuiltIn(ProcedureEntry { local_table: SymbolTable::new(), parameters: ps }, f));
        Value::Function(id)
    }
}

impl ValueFunction {
    /// The procedure's entry: its local table and its parameters.
    pub fn entry(&self) -> (r: &ProcedureEntry)
        ensures
            match *self {
                ValueFunction::Spl(p, _) => *r == p,
                ValueFunction::Tac(p, _) => *r == p,
                ValueFunction::BuiltIn(p, _) => *r == p,
            },
    {
        match self {
            ValueFunction::Spl(p, _) => p,
            ValueFunction::Tac(p, _) => p,
            ValueFunction::BuiltIn(p, _) => p,
        }
    }
}

/// The value held in a cell.
pub fn get_cell(store: &Store, id: usize) -> (r: Result<&Value, RuntimeError>)
    ensures
        match r {
            Ok(v) => id < store.cells@.len() && *v == store.cells@[id as int],
            Err(e) => id >= store.cells@.len() && e is TypeMismatch,
        },
{
    if id < store.cells.len() {
        Ok(&store.cells[id])
    } else {
        Err(RuntimeError::TypeMismatch)
    }
}

/// Writes a value into a cell.
pub fn set_cell(store: &mut Store, id: usize, v: Value) -> (r: Result<(), RuntimeError>)
    ensures
        final(store).functions == old(store).functions,
        final(store).output == old(store).output,
        match r {
            Ok(()) => id < old(store).cells@.len() && final(store).cells@ == old(store).cells@.update(id as int, v),
            Err(e) => id >= old(store).cells@.len() && e is TypeMismatch && final(store).cells == old(store).cells,
        },
{
    if id < store.cells.len() {
        store.cells.set(id, v);
        Ok(())
    } else {
        Err(RuntimeError::TypeMismatch)
    }
}

/// The element position an index denotes in an array of length `arr_len`: the index
/// itself; an index outside the array has none, and is not admitted.
pub fn eval_array_index(index: i32, arr_len: usize) -> (r: usize)
    requires
        0 <= index < arr_len,
    ensures
        r == index,
{
    index as usize
}

/// The element position of `index` in an array of length `arr_len` when it lies in
/// `0 .. arr_len`; otherwise the run of the program stops with an error naming both.
pub fn checked_array_index(index: i32, arr_len: usize) -> (r: Result<usize, RuntimeError>)
    ensures
        match r {
            Ok(i) => 0 <= index && index < arr_len && i == index,
            Err(e) => (index < 0 || index >= arr_len) && e == RuntimeError::IndexOutOfBounds(arr_len, index),
        },
{
    if index >= 0 && (index as usize) < arr_len {
        Ok(eval_array_index(index, arr_len))
    } else {
        Err(RuntimeError::IndexOutOfBounds(arr_len, index))
    }
}

/// The interpreters' arithmetic is integer arithmetic: the sum, the difference (the left
/// operand minus the right) and the product wherever it fits in an `int`, an error where
/// it does not; an error for a division by zero, and a quotient truncated toward zero
/// otherwise.
pub proof fn law_arith_is_integer_arithmetic(a: i32, b: i32)
    ensures
        arith(crate::absyn::Operator::Add, a, b)
            == (if i32::MIN <= a + b <= i32::MAX { Ok::<i32, ()>((a + b) as i32) } else { Err(()) }),
        arith(crate::absyn::Operator::Sub, a, b)
            == (if i32::MIN <= a - b <= i32::MAX { Ok::<i32, ()>((a - b) as i32) } else { Err(()) }),
        arith(crate::absyn::Operator::Mul, a, b)
            == (if i32::MIN <= a * b <= i32::MAX { Ok::<i32, ()>((a * b) as i32) } else { Err(()) }),
        arith(crate::absyn::Operator::Div, a, 0) is Err,
        a >= 0 && b > 0 ==> arith(crate::absyn::Operator::Div, a, b) == Ok::<i32, ()>(((a as int) / (b as int)) as i32),
        a < 0 && b > 0 ==> arith(crate::absyn::Operator::Div, a, b) == Ok::<i32, ()>((-((-(a as int)) / (b as int))) as i32),
{
    if a >= 0 && b > 0 {
        assert(0 <= (a as int) / (b as int) <= a) by (nonlinear_arith)
            requires a >= 0, b > 0;
    }
    if a < 0 && b > 0 {
        assert(0 <= (-(a as int)) / (b as int) <= -(a as int)) by (nonlinear_arith)
            requires a < 0, b > 0;
    }
}

/// Folding an arithmetic quadruple of two constants gives what the interpreters compute
/// for its operator on them, and nothing where they fail.
pub proof fn law_fold_agrees_with_interpreters(op: crate::absyn::Operator, a: i32, b: i32, res: crate::quadrupel::QuadrupelResult)
    requires
        op == crate::absyn::Operator::Add || op == crate::absyn::Operator::Sub
            || op == crate::absyn::Operator::Mul || op == crate::absyn::Operator::Div,
    ensures
        crate::quadrupel::spec_calc_const(crate::quadrupel::mk_quad(crate::quadrupel::spec_op_of(op),
            crate::quadrupel::QuadrupelArg::Const(a), crate::quadrupel::QuadrupelArg::Const(b), res))
            == match arith(op, a, b) { Ok(v) => Some(v), Err(_) => None::<i32> },
{
}

} // verus!
