//! The interpreter of the abstract syntax tree.
use vstd::prelude::*;
use std::time::Instant;
use crate::absyn::{
    AssignStatement, BinaryExpression, CallStatement, Definition, Expression, IfStatement, Operator,
    Program, Statement, UnaryExpression, UnaryOperator, Variable, WhileStatement,
};
use crate::env::{Environment, Frame, env_get, frame_get, bound_function, builtin_name, builtin_binding, lemma_global_binds, lemma_main_not_builtin};
use crate::table::{Entry, SymbolTable, clone_parameters, scoped_lookup};
use crate::tac_interp::{outer_frames_kept, store_grew};
use crate::value::{BuiltinKind, Output, RuntimeError, Store, Value, ValueFunction, ValueView, as_number, checked_array_index, get_cell, set_cell, value_view};

verus! {

proof fn lemma_grew_trans(a: Store, b: Store, c: Store)
    requires
        store_grew(a, b),
        store_grew(b, c),
    ensures
        store_grew(a, c),
{
    assert(c.output@.subrange(0, a.output@.len() as int) =~= b.output@.subrange(0, a.output@.len() as int));
}

proof fn lemma_grew_refl(a: Store)
    ensures
        store_grew(a, a),
{
    assert(a.output@.subrange(0, a.output@.len() as int) =~= a.output@);
}

proof fn lemma_outer_trans(a: Environment, b: Environment, c: Environment)
    requires
        outer_frames_kept(a, b),
        outer_frames_kept(b, c),
    ensures
        outer_frames_kept(a, c),
{
}

/// The program and the start time of the run.
pub struct AstContext<'a> {
    pub program: &'a Program,
    pub start: &'a Instant,
}

/// The cell a variable designates, where the names it uses are bound and its indices are
/// scalar expressions: a name's cell, or the element an index selects in the array the
/// inner variable designates; `Err` where the run stops (an index that is no number, or
/// lies outside the array, or an array variable that holds no array). Nothing where it
/// is not so determined.
pub open spec fn var_cell(v: Variable, frames: Seq<Frame>, cells: Seq<Value>) -> Option<Result<usize, ()>>
    decreases v,
{
    match v {
        Variable::NamedVariable(n) => match env_get(frames, n@) {
            Some(c) => Some(Ok(c)),
            None => None,
        },
        Variable::ArrayAccess(aa) => match scalar_eval(aa.index, frames, views_of(cells)) {
            Some(Ok(ValueView::Int(i))) => match var_cell(aa.array, frames, cells) {
                Some(Ok(c)) => if c < cells.len() && cells[c as int] is Array {
                    let a = cells[c as int]->Array_0@;
                    if 0 <= i < a.len() {
                        Some(Ok(a[i as int]))
                    } else {
                        Some(Err(()))
                    }
                } else {
                    Some(Err(()))
                },
                Some(Err(())) => Some(Err(())),
                None => None,
            },
            Some(Ok(_)) => Some(Err(())),
            Some(Err(_)) => Some(Err(())),
            None => None,
        },
    }
}

/// The cell a variable designates: a name's cell, or the element an index selects in an
/// array. An index outside the array is a run-time fault of the program: it gives
/// `IndexOutOfBounds`, on which the command-line front end aborts with "index out of
/// bounds for array length <len>: <index>".
pub fn eval_var(variable: &Variable, env: &mut Environment, store: &mut Store) -> (r: Result<usize, RuntimeError>)
    ensures
        outer_frames_kept(*old(env), *final(env)),
        store_grew(*old(store), *final(store)),
        final(store).output == old(store).output,
        (*variable matches Variable::NamedVariable(n) && env_get(old(env).frames@, n@) is Some) ==> ({
            let n = variable->NamedVariable_0;
            r == Ok::<usize, RuntimeError>(env_get(old(env).frames@, n@)->0)
                && final(env).frames == old(env).frames && final(store).cells == old(store).cells
        }),
        match var_cell(*variable, old(env).frames@, old(store).cells@) {
            Some(Ok(c)) => r == Ok::<usize, RuntimeError>(c) && final(env).frames == old(env).frames
                && final(store).cells == old(store).cells,
            Some(Err(())) => r is Err,
            None => true,
        },
        match *variable {
            Variable::ArrayAccess(aa) => match (scalar_eval(aa.index, old(env).frames@, views_of(old(store).cells@)),
                var_cell(aa.array, old(env).frames@, old(store).cells@)) {
                (Some(Ok(ValueView::Int(i))), Some(Ok(c))) => (c < old(store).cells@.len() && old(store).cells@[c as int] is Array) ==> {
                    let a = old(store).cells@[c as int]->Array_0@;
                    if 0 <= i < a.len() {
                        r == Ok::<usize, RuntimeError>(a[i as int]) && final(env).frames == old(env).frames
                            && final(store).cells == old(store).cells
                    } else {
                        r == Err::<usize, RuntimeError>(RuntimeError::IndexOutOfBounds(a.len() as usize, i))
                    }
                },
                _ => true,
            },
            _ => true,
        },
    decreases variable,
{
    proof {
        lemma_grew_refl(*store);
    }
    match variable {
        Variable::NamedVariable(v) => {
            let r = env.get(store, v);
            proof {
                assert(store.output@.subrange(0, old(store).output@.len() as int) =~= old(store).output@);
            }
            match r {
                Some(c) => Ok(c),
                None => Err(RuntimeError::NotFound(v.clone())),
            }
        },
        Variable::ArrayAccess(array_access) => {
            let ghost s0 = *store;
            let ghost e0 = *env;
            let index = match eval_expression(&array_access.index, env, store) {
                Ok(Value::Int(i)) => i,
                Ok(_) => return Err(RuntimeError::TypeMismatch),
                Err(e) => return Err(e),
            };
            let ghost s1 = *store;
            let ghost e1 = *env;
            let array = eval_var(&array_access.array, env, store);
            proof {
                lemma_grew_trans(s0, s1, *store);
                lemma_outer_trans(e0, e1, *env);
            }
            let array = match array {
                Ok(c) => c,
                Err(e) => return Err(e),
            };
            let cells = match get_cell(store, array) {
                Ok(Value::Array(a)) => a,
                _ => return Err(RuntimeError::TypeMismatch),
            };
            let i = match checked_array_index(index, cells.len()) {
                Ok(i) => i,
                Err(e) => return Err(e),
            };
            Ok(cells[i])
        },
    }
}

/// The value of a binary operation on two values: arithmetic on two integers (an error
/// on overflow or division by zero), or a comparison of the numbers two integers or
/// booleans stand for; an error on operands of other kinds.
pub open spec fn binary_value(op: Operator, x: ValueView, y: ValueView) -> Result<ValueView, ()> {
    match op {
        Operator::Add | Operator::Sub | Operator::Mul | Operator::Div => match (x, y) {
            (ValueView::Int(a), ValueView::Int(b)) => match crate::value::arith(op, a, b) {
                Ok(v) => Ok(ValueView::Int(v)),
                Err(_) => Err(()),
            },
            _ => Err(()),
        },
        _ => match (as_number(x), as_number(y)) {
            (Some(a), Some(b)) => Ok(ValueView::Bool(match op {
                Operator::Equ => a == b,
                Operator::Neq => a != b,
                Operator::Lst => a < b,
                Operator::Lse => a <= b,
                Operator::Grt => a > b,
                _ => a >= b,
            })),
            _ => Err(()),
        },
    }
}

/// The outcome of a binary operation whose operands have the given outcomes, where it is
/// determined: the left operand is evaluated first, and an error stops the evaluation.
pub open spec fn binary_outcome(op: Operator, l: Option<Result<ValueView, ()>>, r: Option<Result<ValueView, ()>>) -> Option<Result<ValueView, ()>> {
    match l {
        Some(Err(_)) => Some(Err(())),
        Some(Ok(x)) => match r {
            Some(Err(_)) => Some(Err(())),
            Some(Ok(y)) => Some(binary_value(op, x, y)),
            None => None,
        },
        None => None,
    }
}

/// The outcome of a negation whose operand has the given outcome, where it is determined.
pub open spec fn unary_outcome(o: Option<Result<ValueView, ()>>) -> Option<Result<ValueView, ()>> {
    match o {
        Some(Ok(ValueView::Int(x))) => Some(match 0i32.checked_sub(x) {
            Some(v) => Ok(ValueView::Int(v)),
            None => Err(()),
        }),
        Some(_) => Some(Err(())),
        None => None,
    }
}

/// The outcome of evaluating an expression, in the frames and cells given, where it reads
/// only names the frames bind: its value, or that it fails. Such an evaluation changes
/// neither the frames nor the cells.
pub open spec fn scalar_eval(e: Expression, frames: Seq<Frame>, cells: Seq<ValueView>) -> Option<Result<ValueView, ()>>
    decreases e,
{
    match e {
        Expression::IntLiteral(i) => Some(Ok(ValueView::Int(i))),
        Expression::VariableExpression(v) => match *v {
            Variable::NamedVariable(n) => match env_get(frames, n@) {
                Some(c) => if c < cells.len() { Some(Ok(cells[c as int])) } else { Some(Err(())) },
                None => None,
            },
            Variable::ArrayAccess(_) => None,
        },
        Expression::UnaryExpression(u) => unary_outcome(scalar_eval(u.operand, frames, cells)),
        Expression::BinaryExpression(b) => binary_outcome(b.operator, scalar_eval(b.left, frames, cells), scalar_eval(b.right, frames, cells)),
    }
}

/// The views of the cells.
pub open spec fn views_of(cells: Seq<Value>) -> Seq<ValueView> {
    cells.map_values(|v: Value| value_view(v))
}

/// A result agrees with a determined outcome.
pub open spec fn agrees(r: Result<Value, RuntimeError>, o: Result<ValueView, ()>) -> bool {
    match o {
        Ok(v) => r matches Ok(w) && value_view(w) == v,
        Err(_) => r is Err,
    }
}

/// The value of an expression: a literal's value, a variable's content, or the result of
/// an operation (an error on overflow, on division by zero, or where an index lies
/// outside its array).
pub fn eval_expression(expression: &Expression, env: &mut Environment, store: &mut Store) -> (r: Result<Value, RuntimeError>)
    ensures
        outer_frames_kept(*old(env), *final(env)),
        store_grew(*old(store), *final(store)),
        final(store).output == old(store).output,
        scalar_eval(*expression, old(env).frames@, views_of(old(store).cells@)) matches Some(o) ==> agrees(r, o)
            && final(env).frames == old(env).frames && final(store).cells == old(store).cells,
    decreases expression,
{
    proof {
        lemma_grew_refl(*store);
    }
    match expression {
        Expression::BinaryExpression(b) => eval_binary(b, env, store),
        Expression::UnaryExpression(u) => eval_unary(u, env, store),
        Expression::IntLiteral(i) => Ok(Value::Int(*i)),
        Expression::VariableExpression(v) => {
            let c = match eval_var(v, env, store) {
                Ok(c) => c,
                Err(e) => return Err(e),
            };
            match get_cell(store, c) {
                Ok(v) => Ok(v.clone()),
                Err(e) => Err(e),
            }
        },
    }
}

/// The value of a binary expression: both operands are evaluated, left first, and
/// combined by the operator.
pub fn eval_binary(binary_expression: &BinaryExpression, env: &mut Environment, store: &mut Store) -> (r: Result<Value, RuntimeError>)
    ensures
        outer_frames_kept(*old(env), *final(env)),
        store_grew(*old(store), *final(store)),
        final(store).output == old(store).output,
        binary_outcome(binary_expression.operator, scalar_eval(binary_expression.left, old(env).frames@, views_of(old(store).cells@)),
            scalar_eval(binary_expression.right, old(env).frames@, views_of(old(store).cells@)))
            matches Some(o) ==> agrees(r, o) && final(env).frames == old(env).frames && final(store).cells == old(store).cells,
    decreases binary_expression,
{
    let ghost s0 = *store;
    let ghost e0 = *env;
    let op1 = match eval_expression(&binary_expression.left, env, store) {
        Ok(v) => v,
        Err(e) => return Err(e),
    };
    let ghost s1 = *store;
    let ghost e1 = *env;
    let op2 = eval_expression(&binary_expression.right, env, store);
    proof {
        lemma_grew_trans(s0, s1, *store);
        lemma_outer_trans(e0, e1, *env);
    }
    let op2 = match op2 {
        Ok(v) => v,
        Err(e) => return Err(e),
    };
    match binary_expression.operator {
        Operator::Add | Operator::Sub | Operator::Mul | Operator::Div => Value::arith(binary_expression.operator, &op1, &op2),
        _ => match Value::compare(binary_expression.operator, &op1, &op2) {
            Ok(b) => Ok(Value::Bool(b)),
            Err(e) => Err(e),
        },
    }
}

/// The value of a unary expression: the negated operand.
pub fn eval_unary(unary: &UnaryExpression, env: &mut Environment, store: &mut Store) -> (r: Result<Value, RuntimeError>)
    ensures
        outer_frames_kept(*old(env), *final(env)),
        store_grew(*old(store), *final(store)),
        final(store).output == old(store).output,
        unary_outcome(scalar_eval(unary.operand, old(env).frames@, views_of(old(store).cells@))) matches Some(o) ==> agrees(r, o)
            && final(env).frames == old(env).frames && final(store).cells == old(store).cells,
    decreases unary,
{
    let op = match eval_expression(&unary.operand, env, store) {
        Ok(v) => v,
        Err(e) => return Err(e),
    };
    match unary.operator {
        UnaryOperator::Minus => Value::neg(&op),
    }
}

/// The cell a named variable is bound to; nothing for an array element or an unbound name.
pub open spec fn named_cell(v: Variable, frames: Seq<Frame>) -> Option<usize> {
    match v {
        Variable::NamedVariable(n) => env_get(frames, n@),
        Variable::ArrayAccess(_) => None,
    }
}

/// What an assignment does where its value is a scalar expression and its target is
/// determined: the target's cell gets the value and no other cell changes, or the run
/// stops.
pub open spec fn assign_effect(s: AssignStatement, frames: Seq<Frame>, cells: Seq<Value>, frames1: Seq<Frame>,
    cells1: Seq<Value>, r: Result<(), RuntimeError>) -> bool {
    match (scalar_eval(s.value, frames, views_of(cells)), var_cell(s.target, frames, cells)) {
        (Some(Ok(v)), Some(Ok(c))) => c < cells.len() ==> r is Ok && frames1 == frames
            && views_of(cells1) == views_of(cells).update(c as int, v),
        (Some(Ok(_)), Some(Err(()))) => r is Err,
        (Some(Err(_)), _) => r is Err,
        _ => true,
    }
}

/// What an assignment to an array element does, where the value, the index and the array
/// are known: the element's cell gets the value and no other cell changes, or the run
/// stops when the index lies outside the array.
pub open spec fn array_assign_effect(s: AssignStatement, frames: Seq<Frame>, cells: Seq<Value>, frames1: Seq<Frame>,
    cells1: Seq<Value>, r: Result<(), RuntimeError>) -> bool {
    match s.target {
        Variable::ArrayAccess(aa) => match (scalar_eval(s.value, frames, views_of(cells)),
            scalar_eval(aa.index, frames, views_of(cells)), named_cell(aa.array, frames)) {
            (Some(Ok(v)), Some(Ok(ValueView::Int(i))), Some(c)) => (c < cells.len() && cells[c as int] is Array) ==> {
                let a = cells[c as int]->Array_0@;
                if 0 <= i < a.len() {
                    a[i as int] < cells.len() ==> r is Ok && frames1 == frames
                        && views_of(cells1) == views_of(cells).update(a[i as int] as int, v)
                } else {
                    r == Err::<(), RuntimeError>(RuntimeError::IndexOutOfBounds(a.len() as usize, i))
                }
            },
            _ => true,
        },
        _ => true,
    }
}

/// Executes an assignment: the value first, then the target's cell is written.
pub fn eval_assign_statement(statement: &AssignStatement, env: &mut Environment, store: &mut Store) -> (r: Result<(), RuntimeError>)
    ensures
        outer_frames_kept(*old(env), *final(env)),
        store_grew(*old(store), *final(store)),
        final(store).output == old(store).output,
        match (scalar_eval(statement.value, old(env).frames@, views_of(old(store).cells@)), named_cell(statement.target, old(env).frames@)) {
            (Some(o), Some(c)) => c < old(store).cells@.len() ==> match o {
                Ok(v) => r is Ok && final(env).frames == old(env).frames && final(store).output == old(store).output
                    && views_of(final(store).cells@) == views_of(old(store).cells@).update(c as int, v),
                Err(_) => r is Err,
            },
            _ => true,
        },
        array_assign_effect(*statement, old(env).frames@, old(store).cells@, final(env).frames@, final(store).cells@, r),
        assign_effect(*statement, old(env).frames@, old(store).cells@, final(env).frames@, final(store).cells@, r),
{
    let ghost s0 = *store;
    let ghost e0 = *env;
    let val = match eval_expression(&statement.value, env, store) {
        Ok(v) => v,
        Err(e) => return Err(e),
    };
    let ghost s1 = *store;
    let ghost e1 = *env;
    let x = eval_var(&statement.target, env, store);
    proof {
        lemma_grew_trans(s0, s1, *store);
        lemma_outer_trans(e0, e1, *env);
    }
    let x = match x {
        Ok(c) => c,
        Err(e) => return Err(e),
    };
    let ghost s2 = *store;
    let r = set_cell(store, x, val);
    proof {
        lemma_grew_refl(*store);
        assert(store_grew(s2, *store));
        lemma_grew_trans(s0, s2, *store);
        if r is Ok {
            assert(views_of(store.cells@) =~= views_of(s2.cells@).update(x as int, value_view(val)));
        }
    }
    r
}

/// The outcome of a statement that reads and writes only names the frames bind (no array
/// elements) and calls no procedure, run with the given fuel: the views of the cells
/// afterwards, or that it fails. Nothing where the statement does anything else.
pub open spec fn scalar_exec(s: Statement, frames: Seq<Frame>, cells: Seq<ValueView>, fuel: nat) -> Option<Result<Seq<ValueView>, ()>>
    decreases fuel, s, 0nat,
{
    match s {
        Statement::AssignStatement(a) => match named_cell(a.target, frames) {
            Some(c) => if c < cells.len() {
                match scalar_eval(a.value, frames, cells) {
                    Some(Ok(v)) => Some(Ok(cells.update(c as int, v))),
                    Some(Err(_)) => Some(Err(())),
                    None => None,
                }
            } else {
                None
            },
            None => None,
        },
        Statement::IfStatement(i) => scalar_if(*i, frames, cells, fuel),
        Statement::WhileStatement(w) => scalar_loop(*w, frames, cells, fuel, fuel),
        Statement::CallStatement(_) => None,
        Statement::EmptyStatement => Some(Ok(cells)),
        Statement::CompoundStatement(v) => scalar_exec_seq(v@, frames, cells, fuel),
    }
}

/// An `if`: a condition that is `true` runs the first branch, `false` the second (or
/// nothing); a condition of another kind fails.
pub open spec fn scalar_if(i: IfStatement, frames: Seq<Frame>, cells: Seq<ValueView>, fuel: nat) -> Option<Result<Seq<ValueView>, ()>>
    decreases fuel, i, 0nat,
{
    match scalar_eval(i.condition, frames, cells) {
        Some(Ok(ValueView::Bool(b))) => if b {
            scalar_exec(i.then_branch, frames, cells, fuel)
        } else {
            match i.else_branch {
                Some(e) => scalar_exec(e, frames, cells, fuel),
                None => Some(Ok(cells)),
            }
        },
        Some(_) => Some(Err(())),
        None => None,
    }
}

/// A run agrees with an outcome: it succeeds with the frames, the output and the views of
/// the cells as the outcome says, or it fails.
pub open spec fn ran_as(o: Result<Seq<ValueView>, ()>, r: Result<(), RuntimeError>, e0: Environment, e1: Environment, s0: Store, s1: Store) -> bool {
    match o {
        Ok(c) => r is Ok && e1.frames == e0.frames && views_of(s1.cells@) == c && s1.output == s0.output,
        Err(_) => r is Err,
    }
}

proof fn lemma_seq_stuck(ss: Seq<Statement>, frames: Seq<Frame>, cells: Seq<ValueView>, fuel: nat, j: int, m: int)
    requires
        0 <= j <= m <= ss.len(),
        !(scalar_exec_seq(ss.take(j), frames, cells, fuel) matches Some(Ok(_))),
    ensures
        scalar_exec_seq(ss.take(m), frames, cells, fuel) == scalar_exec_seq(ss.take(j), frames, cells, fuel),
    decreases m - j,
{
    if m > j {
        lemma_seq_stuck(ss, frames, cells, fuel, j, m - 1);
        assert(ss.take(m).drop_last() =~= ss.take(m - 1));
    }
}

/// Statements in order, each on the cells the previous one left; the first failure stops.
pub open spec fn scalar_exec_seq(ss: Seq<Statement>, frames: Seq<Frame>, cells: Seq<ValueView>, fuel: nat) -> Option<Result<Seq<ValueView>, ()>>
    decreases fuel, ss, 0nat,
{
    if ss.len() == 0 {
        Some(Ok(cells))
    } else {
        match scalar_exec_seq(ss.drop_last(), frames, cells, fuel) {
            Some(Ok(c1)) => scalar_exec(ss.last(), frames, c1, fuel),
            other => other,
        }
    }
}

/// A `while` with at most `steps` more tests of its condition: a condition that is `true`
/// (or the integer 1) runs the body and tests again; running out of tests fails.
pub open spec fn scalar_loop(w: WhileStatement, frames: Seq<Frame>, cells: Seq<ValueView>, fuel: nat, steps: nat) -> Option<Result<Seq<ValueView>, ()>>
    decreases fuel, w, steps,
{
    if steps == 0 {
        Some(Err(()))
    } else {
        match scalar_eval(w.condition, frames, cells) {
            Some(Ok(x)) => {
                let holds = match x {
                    ValueView::Bool(b) => Some(b),
                    ValueView::Int(i) => Some(i == 1),
                    _ => None,
                };
                match holds {
                    Some(true) => match scalar_exec(w.body, frames, cells, fuel) {
                        Some(Ok(c2)) => scalar_loop(w, frames, c2, fuel, (steps - 1) as nat),
                        other => other,
                    },
                    Some(false) => Some(Ok(cells)),
                    None => Some(Err(())),
                }
            },
            Some(Err(_)) => Some(Err(())),
            None => None,
        }
    }
}

/// What a statement does to the frames and the store, with its outcome `r`, as
/// `eval_statement` states it.
pub open spec fn stmt_effect(statement: Statement, env0: Environment, store0: Store, fuel: u64,
    env1: Environment, store1: Store, r: Result<(), RuntimeError>) -> bool {
    &&& (outer_frames_kept(env0, env1))
    &&& (store_grew(store0, store1))
    &&& (statement is EmptyStatement ==> r is Ok && env1 == env0 && store1 == store0)
    &&& (match statement {
            Statement::AssignStatement(a) => array_assign_effect(*a, env0.frames@, store0.cells@,
                env1.frames@, store1.cells@, r)
                && assign_effect(*a, env0.frames@, store0.cells@, env1.frames@, store1.cells@, r),
            _ => true,
        })
    &&& (match statement {
            Statement::CallStatement(c) => if fuel == 0 {
                r == Err::<(), RuntimeError>(RuntimeError::OutOfFuel)
            } else {
                &&& env_get(env0.frames@, c.name@) is None ==> r == Err::<(), RuntimeError>(RuntimeError::NotImplemented(c.name))
                    && env1 == env0 && store1 == store0
                &&& match bound_function(env0.frames@, store0, c.name@) {
                    Some(ValueFunction::BuiltIn(e, b)) => (e.parameters@.len() == 1 && !e.parameters@[0].is_reference
                        && c.arguments@.len() >= 1) ==> match scalar_eval(c.arguments@[0], env0.frames@, views_of(store0.cells@)) {
                        Some(Ok(ValueView::Int(v))) => match b.kind {
                            BuiltinKind::PrintInt => r is Ok && store1.output@ =~= store0.output@.push(Output::Int(v)),
                            BuiltinKind::PrintChar => if 0 <= v < 256 {
                                r is Ok && store1.output@ =~= store0.output@.push(Output::Char(v as u8))
                            } else {
                                r == Err::<(), RuntimeError>(RuntimeError::InvalidChar(v))
                            },
                            BuiltinKind::Time => true,
                        },
                        _ => true,
                    },
                    _ => true,
                }
            },
            _ => true,
        })
    &&& (scalar_exec(statement, env0.frames@, views_of(store0.cells@), fuel as nat) matches Some(o)
            ==> ran_as(o, r, env0, env1, store0, store1))
}

/// Executes a statement in the current frame; a call runs in a new frame that is removed
/// again. `fuel` bounds the depth of calls and the number of loop rounds.
pub fn eval_statement(statement: &Statement, table: &SymbolTable, env: &mut Environment, store: &mut Store, ctx: &AstContext, fuel: u64) -> (r: Result<(), RuntimeError>)
    ensures
        stmt_effect(*statement, *old(env), *old(store), fuel, *final(env), *final(store), r),
    decreases fuel, statement,
{
    proof {
        lemma_grew_refl(*store);
    }
    match statement {
        Statement::AssignStatement(a) => eval_assign_statement(a, env, store),
        Statement::IfStatement(i) => eval_if_statement(i, table, env, store, ctx, fuel),
        Statement::WhileStatement(w) => eval_while_statement(w, table, env, store, ctx, fuel),
        Statement::CallStatement(c) => {
            if fuel == 0 {
                return Err(RuntimeError::OutOfFuel);
            }
            eval_call_statement(c, table, env, store, ctx, fuel - 1)
        },
        Statement::EmptyStatement => Ok(()),
        Statement::CompoundStatement(statements) => {
            let ghost s0 = *store;
            let ghost e0 = *env;
            let ghost ss = statements@;
            let ghost v0 = views_of(s0.cells@);
            let mut k: usize = 0;
            proof {
                assert(ss.take(0) =~= Seq::<Statement>::empty());
            }
            while k < statements.len()
                invariant
                    !(*statement is EmptyStatement),
                    *statement == Statement::CompoundStatement(*statements),
                    ss == statements@,
                    s0 == *old(store),
                    e0 == *old(env),
                    v0 == views_of(s0.cells@),
                    store_grew(s0, *store),
                    outer_frames_kept(e0, *env),
                    0 <= k <= ss.len(),
                    scalar_exec_seq(ss.take(k as int), e0.frames@, v0, fuel as nat) is Some ==>
                        scalar_exec_seq(ss.take(k as int), e0.frames@, v0, fuel as nat) == Some(Ok::<Seq<ValueView>, ()>(views_of(store.cells@)))
                        && env.frames == e0.frames && store.output == s0.output,
                decreases statements@.len() - k,
            {
                proof {
                    assert(decreases_to!(*statement => (*statement)->CompoundStatement_0));
                    assert(decreases_to!(*statements => statements@)) by {
                        broadcast use vstd::std_specs::vec::axiom_vec_decreases_to_view;
                    }
                    assert(decreases_to!(statements@ => statements@[k as int]));
                }
                let ghost sb = *store;
                let ghost eb = *env;
                let r = eval_statement(&statements[k], table, env, store, ctx, fuel);
                proof {
                    lemma_grew_trans(s0, sb, *store);
                    lemma_outer_trans(e0, eb, *env);
                    assert(ss.take(k + 1).drop_last() =~= ss.take(k as int));
                    assert(ss.take(k + 1).last() == ss[k as int]);
                    if !(scalar_exec_seq(ss.take(k + 1), e0.frames@, v0, fuel as nat) matches Some(Ok(_))) {
                        lemma_seq_stuck(ss, e0.frames@, v0, fuel as nat, k + 1, ss.len() as int);
                        assert(ss.take(ss.len() as int) =~= ss);
                    }
                }
                match r {
                    Ok(()) => {},
                    Err(e) => return Err(e),
                }
                k = k + 1;
            }
            proof {
                assert(ss.take(ss.len() as int) =~= ss);
            }
            Ok(())
        },
    }
}

/// Executes an `if`: the condition decides between the branches. Where the condition is
/// a scalar expression with a truth value, the effect is that of the chosen branch as
/// `eval_statement` states it, whatever the branch holds.
pub fn eval_if_statement(statement: &IfStatement, table: &SymbolTable, env: &mut Environment, store: &mut Store, ctx: &AstContext, fuel: u64) -> (r: Result<(), RuntimeError>)
    ensures
        outer_frames_kept(*old(env), *final(env)),
        store_grew(*old(store), *final(store)),
        scalar_if(*statement, old(env).frames@, views_of(old(store).cells@), fuel as nat) matches Some(o)
            ==> ran_as(o, r, *old(env), *final(env), *old(store), *final(store)),
        scalar_eval(statement.condition, old(env).frames@, views_of(old(store).cells@)) matches Some(Ok(ValueView::Bool(b)))
            ==> if b {
                stmt_effect(statement.then_branch, *old(env), *old(store), fuel, *final(env), *final(store), r)
            } else {
                match statement.else_branch {
                    Some(s) => stmt_effect(s, *old(env), *old(store), fuel, *final(env), *final(store), r),
                    None => r is Ok && *final(env) == *old(env) && *final(store) == *old(store),
                }
            },
    decreases fuel, statement,
{
    let ghost s0 = *store;
    let ghost e0 = *env;
    let cond = match eval_expression(&statement.condition, env, store) {
        Ok(Value::Bool(b)) => b,
        Ok(_) => return Err(RuntimeError::TypeMismatch),
        Err(e) => return Err(e),
    };
    let ghost s1 = *store;
    let ghost e1 = *env;
    let r = if cond {
        eval_statement(&statement.then_branch, table, env, store, ctx, fuel)
    } else {
        match &statement.else_branch {
            Some(s) => {
                proof {
                    assert(decreases_to!(*statement => statement.else_branch));
                }
                eval_statement(s, table, env, store, ctx, fuel)
            },
            None => {
                proof {
                    lemma_grew_refl(*store);
                }
                Ok(())
            },
        }
    };
    proof {
        lemma_grew_trans(s0, s1, *store);
        lemma_outer_trans(e0, e1, *env);
    }
    r
}

/// A loop condition at the point `p`, where it is a scalar expression: whether it holds
/// (`true` or the number 1), or an error where it has another value or fails.
pub open spec fn loop_cond(c: Expression, p: (Environment, Store)) -> Option<Result<bool, ()>> {
    match scalar_eval(c, p.0.frames@, views_of(p.1.cells@)) {
        Some(Ok(ValueView::Bool(b))) => Some(Ok(b)),
        Some(Ok(ValueView::Int(i))) => Some(Ok(i == 1)),
        Some(_) => Some(Err(())),
        None => None,
    }
}

/// One round of the loop `w` from `p` to `q` with the outcome `o` of its body: where the
/// condition is scalar, it held at `p` and the body ran from `p`, as `eval_statement`
/// states it.
pub open spec fn loop_round(w: WhileStatement, fuel: u64, p: (Environment, Store), q: (Environment, Store), o: Result<(), RuntimeError>) -> bool {
    match loop_cond(w.condition, p) {
        Some(Ok(true)) => stmt_effect(w.body, p.0, p.1, fuel, q.0, q.1, o),
        None => true,
        _ => false,
    }
}

/// The outcome of round `i` of `n - 1` rounds: the body's failure `r` in the last round
/// where the loop ended in its body, else `Ok`.
pub open spec fn round_outcome(i: int, n: int, in_body: bool, r: Result<(), RuntimeError>) -> Result<(), RuntimeError> {
    if in_body && i + 2 == n { r } else { Ok(()) }
}

/// The loop `w` ran through the points `tr`, at most `fuel` rounds, and ended with the
/// frames and store `env`, `store` and the outcome `r`: in the body of the last round
/// (`in_body`), where the condition does not hold, out of rounds, or where the condition
/// fails. Where the condition is not scalar, a round and the end are not described.
pub open spec fn loop_ran(w: WhileStatement, fuel: u64, tr: Seq<(Environment, Store)>, in_body: bool,
    env: Environment, store: Store, r: Result<(), RuntimeError>) -> bool {
    &&& 1 <= tr.len() <= fuel + 1
    &&& forall|i: int| 0 <= i < tr.len() - 1 ==> #[trigger] loop_round(w, fuel, tr[i], tr[i + 1], round_outcome(i, tr.len() as int, in_body, r))
    &&& in_body ==> tr.len() >= 2 && r is Err && env == tr.last().0 && store == tr.last().1
    &&& !in_body ==> match loop_cond(w.condition, tr.last()) {
        Some(Ok(true)) => r == Err::<(), RuntimeError>(RuntimeError::OutOfFuel) && tr.len() == fuel + 1
            && env == tr.last().0 && store == tr.last().1,
        Some(Ok(false)) => (r is Ok && env == tr.last().0 && store == tr.last().1)
            || (r == Err::<(), RuntimeError>(RuntimeError::OutOfFuel) && tr.len() == fuel + 1 && env == tr.last().0 && store == tr.last().1),
        Some(Err(())) => r is Err,
        None => true,
    }
}

/// The rounds of `tr` all ended in a body that succeeded.
pub open spec fn rounds_done(w: WhileStatement, fuel: u64, tr: Seq<(Environment, Store)>) -> bool {
    &&& 1 <= tr.len() <= fuel + 1
    &&& forall|i: int| 0 <= i < tr.len() - 1 ==> #[trigger] loop_round(w, fuel, tr[i], tr[i + 1], round_outcome(i, tr.len() as int, false, Ok(())))
}

proof fn lemma_loop_end(w: WhileStatement, fuel: u64, tr: Seq<(Environment, Store)>, env: Environment, store: Store, r: Result<(), RuntimeError>)
    requires
        rounds_done(w, fuel, tr),
        match loop_cond(w.condition, tr.last()) {
            Some(Ok(true)) => r == Err::<(), RuntimeError>(RuntimeError::OutOfFuel) && tr.len() == fuel + 1
                && env == tr.last().0 && store == tr.last().1,
            Some(Ok(false)) => (r is Ok && env == tr.last().0 && store == tr.last().1)
                || (r == Err::<(), RuntimeError>(RuntimeError::OutOfFuel) && tr.len() == fuel + 1 && env == tr.last().0 && store == tr.last().1),
            Some(Err(())) => r is Err,
            None => true,
        },
    ensures
        loop_ran(w, fuel, tr, false, env, store, r),
{
    assert forall|i: int| 0 <= i < tr.len() - 1 implies #[trigger] loop_round(w, fuel, tr[i], tr[i + 1], round_outcome(i, tr.len() as int, false, r)) by {
        assert(round_outcome(i, tr.len() as int, false, r) == round_outcome(i, tr.len() as int, false, Ok(())));
    }
}

proof fn lemma_loop_body_failed(w: WhileStatement, fuel: u64, tr: Seq<(Environment, Store)>, env: Environment, store: Store, r: Result<(), RuntimeError>)
    requires
        rounds_done(w, fuel, tr),
        tr.len() <= fuel,
        r is Err,
        loop_round(w, fuel, tr.last(), (env, store), r),
    ensures
        loop_ran(w, fuel, tr.push((env, store)), true, env, store, r),
{
    let t2 = tr.push((env, store));
    assert forall|i: int| 0 <= i < t2.len() - 1 implies #[trigger] loop_round(w, fuel, t2[i], t2[i + 1], round_outcome(i, t2.len() as int, true, r)) by {
        if i < tr.len() - 1 {
            assert(t2[i] == tr[i] && t2[i + 1] == tr[i + 1]);
            assert(round_outcome(i, t2.len() as int, true, r) == round_outcome(i, tr.len() as int, false, Ok(())));
        } else {
            assert(t2[i] == tr.last() && t2[i + 1] == (env, store));
        }
    }
}

proof fn lemma_loop_round(w: WhileStatement, fuel: u64, tr: Seq<(Environment, Store)>, env: Environment, store: Store)
    requires
        rounds_done(w, fuel, tr),
        tr.len() <= fuel,
        loop_round(w, fuel, tr.last(), (env, store), Ok(())),
    ensures
        rounds_done(w, fuel, tr.push((env, store))),
{
    let t2 = tr.push((env, store));
    assert forall|i: int| 0 <= i < t2.len() - 1 implies #[trigger] loop_round(w, fuel, t2[i], t2[i + 1], round_outcome(i, t2.len() as int, false, Ok(()))) by {
        if i < tr.len() - 1 {
            assert(t2[i] == tr[i] && t2[i + 1] == tr[i + 1]);
            assert(round_outcome(i, t2.len() as int, false, Ok(())) == round_outcome(i, tr.len() as int, false, Ok(())));
        } else {
            assert(t2[i] == tr.last() && t2[i + 1] == (env, store));
        }
    }
}

/// Executes a `while`: the body runs as long as the condition holds. The contract gives
/// the run round by round (`loop_ran`): where the condition is scalar, it held before each
/// round and the body ran as `eval_statement` states it, and the loop ends where it does
/// not hold, where a round fails, or after `fuel` rounds.
pub fn eval_while_statement(statement: &WhileStatement, table: &SymbolTable, env: &mut Environment, store: &mut Store, ctx: &AstContext, fuel: u64) -> (r: Result<(), RuntimeError>)
    ensures
        outer_frames_kept(*old(env), *final(env)),
        store_grew(*old(store), *final(store)),
        scalar_loop(*statement, old(env).frames@, views_of(old(store).cells@), fuel as nat, fuel as nat) matches Some(o)
            ==> ran_as(o, r, *old(env), *final(env), *old(store), *final(store)),
        exists|tr: Seq<(Environment, Store)>, in_body: bool| #[trigger] loop_ran(*statement, fuel, tr, in_body, *final(env), *final(store), r)
            && tr[0] == (*old(env), *old(store)),
    decreases fuel, statement,
{
    proof {
        lemma_grew_refl(*store);
    }
    let ghost mut tr: Seq<(Environment, Store)> = seq![(*env, *store)];
    let ghost s0 = *store;
    let ghost e0 = *env;
    let ghost w0 = scalar_loop(*statement, e0.frames@, views_of(s0.cells@), fuel as nat, fuel as nat);
    let mut steps = fuel;
    loop
        invariant
            s0 == *old(store),
            e0 == *old(env),
            w0 == scalar_loop(*statement, e0.frames@, views_of(s0.cells@), fuel as nat, fuel as nat),
            store_grew(s0, *store),
            outer_frames_kept(e0, *env),
            steps <= fuel,
            w0 is Some ==> scalar_loop(*statement, e0.frames@, views_of(store.cells@), fuel as nat, steps as nat) == w0
                && env.frames == e0.frames && store.output == s0.output,
            tr.len() == fuel - steps + 1,
            tr[0] == (e0, s0),
            tr.last() == (*env, *store),
            rounds_done(*statement, fuel, tr),
        decreases steps,
    {
        if steps == 0 {
            proof {
                lemma_loop_end(*statement, fuel, tr, *env, *store, Err(RuntimeError::OutOfFuel));
                assert(loop_ran(*statement, fuel, tr, false, *env, *store, Err(RuntimeError::OutOfFuel)));
            }
            return Err(RuntimeError::OutOfFuel);
        }
        steps = steps - 1;
        let ghost sb = *store;
        let ghost eb = *env;
        let c = eval_expression(&statement.condition, env, store);
        proof {
            lemma_grew_trans(s0, sb, *store);
            lemma_outer_trans(e0, eb, *env);
            if loop_cond(statement.condition, tr.last()) is Some {
                assert(env.frames == eb.frames && store.cells == sb.cells && store.output == sb.output);
                assert(*env == eb);
                assert(*store == sb);
            }
        }
        let holds = match c {
            Ok(Value::Bool(b)) => b,
            Ok(Value::Int(i)) => i == 1,
            Ok(_) => {
                proof {
                    lemma_loop_end(*statement, fuel, tr, *env, *store, Err(RuntimeError::TypeMismatch));
                    assert(loop_ran(*statement, fuel, tr, false, *env, *store, Err(RuntimeError::TypeMismatch)));
                }
                return Err(RuntimeError::TypeMismatch);
            },
            Err(e) => {
                proof {
                    lemma_loop_end(*statement, fuel, tr, *env, *store, Err(e));
                    assert(loop_ran(*statement, fuel, tr, false, *env, *store, Err(e)));
                }
                return Err(e);
            },
        };
        if !holds {
            proof {
                lemma_loop_end(*statement, fuel, tr, *env, *store, Ok(()));
                assert(loop_ran(*statement, fuel, tr, false, *env, *store, Ok(())));
            }
            return Ok(());
        }
        let ghost sc = *store;
        let ghost ec = *env;
        let r = eval_statement(&statement.body, table, env, store, ctx, fuel);
        let ghost gr = r;
        proof {
            lemma_grew_trans(s0, sc, *store);
            lemma_outer_trans(e0, ec, *env);
        }
        match r {
            Ok(()) => {},
            Err(e) => {
                proof {
                    assert(loop_round(*statement, fuel, tr.last(), (*env, *store), gr));
                    lemma_loop_body_failed(*statement, fuel, tr, *env, *store, Err(e));
                    assert(tr.push((*env, *store))[0] == (e0, s0));
                    assert(loop_ran(*statement, fuel, tr.push((*env, *store)), true, *env, *store, Err(e)));
                }
                return Err(e);
            },
        }
        proof {
            let u: () = gr->Ok_0;
            assert(u == ());
            assert(loop_round(*statement, fuel, tr.last(), (*env, *store), gr));
            lemma_loop_round(*statement, fuel, tr, *env, *store);
            tr = tr.push((*env, *store));
        }
    }
}

/// Binds every local variable of a procedure to a fresh cell with its default value.
pub fn eval_local_var(var_name: &String, table: &SymbolTable, store: &mut Store) -> (r: Result<(String, usize), RuntimeError>)
    ensures
        store_grew(*old(store), *final(store)),
        final(store).output == old(store).output,
        r is Ok ==> r->Ok_0.0@ == var_name@ && table@.contains_key(var_name@) && table@[var_name@] is VariableEntry,
        !(table@.contains_key(var_name@) && table@[var_name@] is VariableEntry) ==> r is Err,
{
    proof {
        lemma_grew_refl(*store);
    }
    match table.lookup_local(var_name) {
        Some(Entry::VariableEntry(ve)) => {
            let v = ve.typ.default_value(store);
            let c = Value::new_refcell(store, v);
            proof {
                assert(store.output@.subrange(0, old(store).output@.len() as int) =~= old(store).output@);
            }
            Ok((var_name.clone(), c))
        },
        _ => Err(RuntimeError::TypeMismatch),
    }
}

/// The cell of the first argument of a call, where that argument is a variable's name
/// bound in the frames.
pub open spec fn named_arg_cell(statement: CallStatement, frames: Seq<Frame>) -> Option<usize> {
    if statement.arguments@.len() >= 1 {
        match statement.arguments@[0] {
            Expression::VariableExpression(v) => named_cell(*v, frames),
            _ => None,
        }
    } else {
        None
    }
}

/// What a call of the built-in `time` on a variable does, whatever the clock gives: the
/// variable's cell gets a number of seconds that is not negative, no other cell changes
/// and nothing is printed; where it fails, no cell changes.
pub open spec fn time_call(statement: CallStatement, frames: Seq<Frame>, s0: Store, s1: Store, r: Result<(), RuntimeError>) -> bool {
    match (bound_function(frames, s0, statement.name@), named_arg_cell(statement, frames)) {
        (Some(ValueFunction::BuiltIn(e, b)), Some(c)) => (b.kind == BuiltinKind::Time && e.parameters@.len() == 1
            && e.parameters@[0].is_reference && c < s0.cells@.len()) ==> {
            &&& s1.output == s0.output
            &&& r is Ok ==> exists|secs: i32| 0 <= secs && s1.cells@ == s0.cells@.update(c as int, Value::Int(secs))
            &&& r is Err ==> s1.cells == s0.cells
        },
        _ => true,
    }
}

/// The outcome of the `i`-th of `n - 1` statements run: `r` for the last, else `Ok`.
pub open spec fn nth_outcome(i: int, n: int, r: Result<(), RuntimeError>) -> Result<(), RuntimeError> {
    if i + 2 == n { r } else { Ok(()) }
}

/// The first statements of `body` ran one after the other through the points `tr`
/// (frames and store before and after each), each as `eval_statement` states it with
/// `fuel`: all succeeded but perhaps the last, whose outcome is `r`; `Ok` means that the
/// whole body ran.
pub open spec fn body_ran(body: Seq<Statement>, fuel: u64, tr: Seq<(Environment, Store)>, r: Result<(), RuntimeError>) -> bool {
    &&& 1 <= tr.len() <= body.len() + 1
    &&& forall|i: int| 0 <= i < tr.len() - 1 ==> #[trigger] stmt_effect(body[i], tr[i].0, tr[i].1, fuel, tr[i + 1].0, tr[i + 1].1,
        nth_outcome(i, tr.len() as int, r))
    &&& r is Ok ==> tr.len() == body.len() + 1
    &&& r is Err ==> tr.len() >= 2
}

/// The outcome of a run of statements that stopped at the failure `failed`, if any.
pub open spec fn failed_outcome(failed: Option<RuntimeError>) -> Result<(), RuntimeError> {
    match failed {
        Some(e) => Err(e),
        None => Ok(()),
    }
}

/// Executes a call: the arguments are evaluated (a reference parameter gets its
/// variable's cell, a value parameter a fresh cell with the value), then a procedure of
/// the program runs its body in a new frame with its parameters and fresh local
/// variables, and a built-in runs on the argument cells. Afterwards the frames are as
/// before.
///
/// A name bound to no procedure, such as the built-in `clearAll` that has no
/// implementation, gives `NotImplemented` with the name before any argument is evaluated;
/// the command-line front end aborts on it with "not implemented: SPL-builtin
/// `clearAll()`". The contract states the built-ins in full, and of a procedure of the
/// program that a call that succeeds ran its whole body in a new innermost frame,
/// statement by statement, as `eval_statement` states each (`body_ran`).
pub fn eval_call_statement(statement: &CallStatement, table: &SymbolTable, env: &mut Environment, store: &mut Store, ctx: &AstContext, fuel: u64) -> (r: Result<(), RuntimeError>)
    ensures
        outer_frames_kept(*old(env), *final(env)),
        store_grew(*old(store), *final(store)),
        env_get(old(env).frames@, statement.name@) is None ==> r == Err::<(), RuntimeError>(RuntimeError::NotImplemented(statement.name))
            && *final(env) == *old(env) && *final(store) == *old(store),
        match bound_function(old(env).frames@, *old(store), statement.name@) {
            Some(ValueFunction::BuiltIn(e, b)) => (e.parameters@.len() == 1 && !e.parameters@[0].is_reference
                && statement.arguments@.len() >= 1) ==> match scalar_eval(statement.arguments@[0], old(env).frames@, views_of(old(store).cells@)) {
                Some(Ok(ValueView::Int(v))) => match b.kind {
                    BuiltinKind::PrintInt => r is Ok && final(store).output@ == old(store).output@.push(Output::Int(v)),
                    BuiltinKind::PrintChar => if 0 <= v < 256 {
                        r is Ok && final(store).output@ == old(store).output@.push(Output::Char(v as u8))
                    } else {
                        r == Err::<(), RuntimeError>(RuntimeError::InvalidChar(v))
                    },
                    BuiltinKind::Time => true,
                },
                _ => true,
            },
            _ => true,
        },
        time_call(*statement, old(env).frames@, *old(store), *final(store), r),
        r is Ok ==> match bound_function(old(env).frames@, *old(store), statement.name@) {
            Some(ValueFunction::Spl(_, d)) => d < ctx.program.definitions@.len() && match ctx.program.definitions@[d as int] {
                Definition::ProcedureDefinition(pd) => exists|tr: Seq<(Environment, Store)>| {
                    &&& #[trigger] body_ran(pd.body@, (fuel - 1) as u64, tr, r)
                    &&& tr[0].0.frames@.len() == old(env).frames@.len() + 1
                    &&& store_grew(*old(store), tr[0].1)
                    &&& tr.last().1 == *final(store)
                    &&& tr.last().0.frames@.drop_last() == final(env).frames@
                },
                _ => false,
            },
            _ => true,
        },
    decreases fuel, statement,
{
    proof {
        lemma_grew_refl(*store);
    }
    let ghost s0 = *store;
    let ghost e0 = *env;
    let cell = match env.lookup(&statement.name) {
        Some(c) => c,
        None => return Err(RuntimeError::NotImplemented(statement.name.clone())),
    };
    let fidx = match get_cell(store, cell) {
        Ok(Value::Function(f)) => *f,
        _ => return Err(RuntimeError::NotImplemented(statement.name.clone())),
    };
    if fidx >= store.functions.len() {
        return Err(RuntimeError::NotImplemented(statement.name.clone()));
    }
    let (params, def_idx, builtin) = match &store.functions[fidx] {
        ValueFunction::Spl(e, d) => (clone_parameters(&e.parameters), *d, None),
        ValueFunction::BuiltIn(e, b) => (clone_parameters(&e.parameters), 0, Some(*b)),
        ValueFunction::Tac(_, _) => return Err(RuntimeError::TypeMismatch),
    };
    let ghost bf = bound_function(e0.frames@, s0, statement.name@);
    proof {
        assert(bf == Some(store.functions@[fidx as int]));
    }
    let ghost is_bi = bf matches Some(ValueFunction::BuiltIn(_, _));
    // the arguments, paired with the parameters
    let ghost simple = builtin is Some && params@.len() == 1 && !params@[0].is_reference && statement.arguments@.len() >= 1
        && scalar_eval(statement.arguments@[0], e0.frames@, views_of(s0.cells@)) matches Some(Ok(ValueView::Int(_)));
    let ghost v0: i32 = match scalar_eval(statement.arguments@[0], e0.frames@, views_of(s0.cells@)) {
        Some(Ok(ValueView::Int(v))) => v,
        _ => 0,
    };
    let ghost tref = builtin is Some && params@.len() == 1 && params@[0].is_reference
        && named_arg_cell(*statement, e0.frames@) is Some;
    let ghost c0: usize = match named_arg_cell(*statement, e0.frames@) {
        Some(c) => c,
        None => 0,
    };
    let mut args: Vec<usize> = Vec::new();
    let mut k: usize = 0;
    while k < statement.arguments.len() && k < params.len()
        invariant
            env_get(old(env).frames@, statement.name@) is Some,
            s0 == *old(store),
            e0 == *old(env),
            store_grew(s0, *store),
            outer_frames_kept(e0, *env),
            bf == bound_function(old(env).frames@, *old(store), statement.name@),
            bf matches Some(ValueFunction::BuiltIn(e, b)) ==> builtin == Some(b) && params@ == e.parameters@,
            is_bi == (bf matches Some(ValueFunction::BuiltIn(_, _))),
            !is_bi ==> builtin is None,
            (builtin is Some && params@.len() == 1 && !params@[0].is_reference && statement.arguments@.len() >= 1
                && scalar_eval(statement.arguments@[0], e0.frames@, views_of(s0.cells@)) matches Some(Ok(ValueView::Int(_)))) ==> simple,
            simple ==> params@.len() == 1 && !params@[0].is_reference && statement.arguments@.len() >= 1,
            simple ==> scalar_eval(statement.arguments@[0], e0.frames@, views_of(s0.cells@)) == Some(Ok::<ValueView, ()>(ValueView::Int(v0))),
            simple ==> k <= 1,
            simple && k == 0 ==> args@.len() == 0 && *store == s0 && *env == e0,
            simple && k == 1 ==> args@.len() == 1 && args@[0] < store.cells@.len()
                && store.cells@[args@[0] as int] == Value::Int(v0) && store.output == s0.output,
            tref == (builtin is Some && params@.len() == 1 && params@[0].is_reference
                && named_arg_cell(*statement, e0.frames@) is Some),
            tref ==> named_arg_cell(*statement, e0.frames@) == Some(c0) && k <= 1,
            tref && k == 0 ==> args@.len() == 0 && *store == s0 && *env == e0,
            tref && k == 1 ==> args@ == seq![c0] && store.cells == s0.cells && store.output == s0.output,
        decreases statement.arguments@.len() - k,
    {
        let ghost sb = *store;
        let ghost eb = *env;
        if params[k].is_reference {
            let c = match &statement.arguments[k] {
                Expression::VariableExpression(var) => eval_var(var, env, store),
                _ => Err(RuntimeError::TypeMismatch),
            };
            proof {
                lemma_grew_refl(*store);
                lemma_grew_trans(s0, sb, *store);
                lemma_outer_trans(e0, eb, *env);
            }
            match c {
                Ok(c) => args.push(c),
                Err(e) => return Err(e),
            }
        } else {
            let v = eval_expression(&statement.arguments[k], env, store);
            proof {
                lemma_grew_trans(s0, sb, *store);
                lemma_outer_trans(e0, eb, *env);
            }
            let v = match v {
                Ok(v) => v,
                Err(e) => return Err(e),
            };
            let ghost sc = *store;
            let c = Value::new_refcell(store, v);
            proof {
                assert(store.output@.subrange(0, sc.output@.len() as int) =~= sc.output@);
                lemma_grew_trans(s0, sc, *store);
            }
            args.push(c);
        }
        k = k + 1;
    }
    match builtin {
        Some(b) => {
            let ghost sb = *store;
            let r = b.call(&args, store, ctx.start);
            proof {
                lemma_grew_trans(s0, sb, *store);
            }
            return r;
        },
        None => {},
    }
    // the local table of the procedure
    if env.frames.len() == 0 {
        return Err(RuntimeError::TypeMismatch);
    }
    let local_table = match table.lookup(&statement.name, Some(&env.frames[0].symbol_table)) {
        Some(Entry::ProcedureEntry(p)) => p.local_table.clone(),
        _ => return Err(RuntimeError::TypeMismatch),
    };
    let mut vars: Vec<(String, usize)> = Vec::new();
    let mut j: usize = 0;
    while j < args.len() && j < params.len()
        decreases args@.len() - j,
    {
        vars.push((params[j].name.clone(), args[j]));
        j = j + 1;
    }
    let mut t: usize = 0;
    while t < local_table.entries.len()
        invariant
            env_get(old(env).frames@, statement.name@) is Some,
            bf == bound_function(old(env).frames@, *old(store), statement.name@),
            !is_bi,
            is_bi == (bf matches Some(ValueFunction::BuiltIn(_, _))),
            s0 == *old(store),
            e0 == *old(env),
            store_grew(s0, *store),
            outer_frames_kept(e0, *env),
        decreases local_table.entries@.len() - t,
    {
        let name = &local_table.entries[t].0;
        let mut is_param = false;
        let mut p: usize = 0;
        while p < params.len()
            decreases params@.len() - p,
        {
            if params[p].name == *name {
                is_param = true;
            }
            p = p + 1;
        }
        if !is_param {
            let ghost sb = *store;
            let r = eval_local_var(name, &local_table, store);
            proof {
                lemma_grew_trans(s0, sb, *store);
            }
            match r {
                Ok(b) => vars.push(b),
                Err(e) => return Err(e),
            }
        }
        t = t + 1;
    }
    if def_idx >= ctx.program.definitions.len() {
        return Err(RuntimeError::TypeMismatch);
    }
    let body = match &ctx.program.definitions[def_idx] {
        Definition::ProcedureDefinition(p) => &p.body,
        _ => return Err(RuntimeError::TypeMismatch),
    };
    if fuel == 0 {
        return Err(RuntimeError::OutOfFuel);
    }
    let ghost e1 = env.frames@;
    env.frames.push(Frame { vars, symbol_table: local_table.clone() });
    let ghost e2 = *env;
    let ghost s2 = *store;
    proof {
        lemma_grew_refl(s2);
    }
    let mut failed: Option<RuntimeError> = None;
    let mut i: usize = 0;
    let ghost mut tr: Seq<(Environment, Store)> = seq![(*env, *store)];
    while i < body.len() && failed.is_none()
        invariant
            env_get(old(env).frames@, statement.name@) is Some,
            bf == bound_function(old(env).frames@, *old(store), statement.name@),
            !is_bi,
            is_bi == (bf matches Some(ValueFunction::BuiltIn(_, _))),
            store_grew(s0, s2),
            store_grew(s2, *store),
            outer_frames_kept(e2, *env),
            fuel > 0,
            i <= body@.len(),
            tr.len() == i + 1,
            tr[0] == (e2, s2),
            tr.last() == (*env, *store),
            failed is Some ==> i >= 1,
            forall|j: int| 0 <= j < i ==> #[trigger] stmt_effect(body@[j], tr[j].0, tr[j].1, (fuel - 1) as u64, tr[j + 1].0, tr[j + 1].1,
                nth_outcome(j, tr.len() as int, failed_outcome(failed))),
        decreases body@.len() - i,
    {
        let ghost sb = *store;
        let ghost eb = *env;
        let ghost old_failed = failed;
        let r = eval_statement(&body[i], &local_table, env, store, ctx, fuel - 1);
        let ghost gr = r;
        proof {
            lemma_grew_trans(s2, sb, *store);
            lemma_outer_trans(e2, eb, *env);
        }
        proof {
            assert(old_failed is None);
        }
        match r {
            Ok(()) => {
                proof {
                    assert(gr is Ok);
                    assert(failed is None);
                    let u: () = gr->Ok_0;
                    assert(u == ());
                    assert(gr == Ok::<(), RuntimeError>(()));
                }
            },
            Err(e) => {
                failed = Some(e);
                proof {
                    assert(gr == failed_outcome(failed));
                }
            },
        }
        proof {
            let tr2 = tr.push((*env, *store));
            assert forall|j: int| 0 <= j < i + 1 implies #[trigger] stmt_effect(body@[j], tr2[j].0, tr2[j].1, (fuel - 1) as u64, tr2[j + 1].0, tr2[j + 1].1,
                nth_outcome(j, tr2.len() as int, failed_outcome(failed))) by {
                if j < i {
                    assert(tr2[j] == tr[j] && tr2[j + 1] == tr[j + 1]);
                    assert(nth_outcome(j, tr.len() as int, failed_outcome(old_failed)) == Ok::<(), RuntimeError>(()));
                } else {
                    assert(tr2[j] == (eb, sb) && tr2[j + 1] == (*env, *store));
                    assert(gr == failed_outcome(failed));
                }
            }
            tr = tr2;
        }
        i = i + 1;
    }
    let result = match failed {
        Some(e) => Err(e),
        None => Ok(()),
    };
    proof {
        lemma_grew_trans(s0, s2, *store);
        assert(env.frames@.drop_last() == e1);
        if result is Ok {
            assert(body_ran(body@, (fuel - 1) as u64, tr, result));
        }
    }
    env.frames.pop();
    proof {
        assert(env.frames@ == e1);
    }
    result
}

/// The binding `b` holds a procedure value for a procedure definition of `defs` of the
/// binding's name.
pub open spec fn spl_bound(b: (String, usize), store: Store, defs: Seq<Definition>) -> bool {
    &&& b.1 < store.cells@.len()
    &&& match store.cells@[b.1 as int] {
        Value::Function(f) => f < store.functions@.len() && match store.functions@[f as int] {
            ValueFunction::Spl(_, d) => d < defs.len() && match defs[d as int] {
                Definition::ProcedureDefinition(pd) => pd.name@ == b.0@,
                _ => false,
            },
            _ => false,
        },
        _ => false,
    }
}

/// The name `key` is bound to a procedure value for a procedure definition of `defs`
/// of that name.
pub open spec fn bound_to_proc(frames: Seq<Frame>, store: Store, defs: Seq<Definition>, key: Seq<char>) -> bool {
    match bound_function(frames, store, key) {
        Some(ValueFunction::Spl(_, d)) => d < defs.len() && match defs[d as int] {
            Definition::ProcedureDefinition(pd) => pd.name@ == key,
            _ => false,
        },
        _ => false,
    }
}

proof fn lemma_frame_get_some(vars: Seq<(String, usize)>, key: Seq<char>)
    requires
        frame_get(vars, key) is Some,
    ensures
        exists|m: int| 0 <= m < vars.len() && vars[m].0@ == key && frame_get(vars, key) == Some(vars[m].1),
    decreases vars.len(),
{
    if vars.last().0@ == key {
        assert(vars[vars.len() - 1] == vars.last());
    } else {
        lemma_frame_get_some(vars.drop_last(), key);
        let m = choose|m: int| 0 <= m < vars.drop_last().len() && vars.drop_last()[m].0@ == key
            && frame_get(vars.drop_last(), key) == Some(vars.drop_last()[m].1);
        assert(vars[m] == vars.drop_last()[m]);
    }
}

/// The global environment of a program: the built-ins, then each procedure, bound to a
/// cell that holds it.
pub fn eval_program(program: &Program, symbol_table: &SymbolTable, store: &mut Store) -> (r: Result<Environment, RuntimeError>)
    ensures
        r is Ok <==> forall|i: int| 0 <= i < program.definitions@.len() ==> entered(#[trigger] program.definitions@[i], *symbol_table),
        r matches Err(e) ==> exists|i: int| 0 <= i < program.definitions@.len()
            && !entered(#[trigger] program.definitions@[i], *symbol_table)
            && (forall|j: int| 0 <= j < i ==> entered(#[trigger] program.definitions@[j], *symbol_table))
            && (e matches RuntimeError::NotFound(n) && n@ == def_name_of(program.definitions@[i])),
        r matches Ok(env) ==> env.frames@.len() == 1,
        r matches Ok(env) ==> env.frames@[0].vars@.len() == 3 + proc_names_in(program.definitions@).len()
            && forall|j: int| 0 <= j < proc_names_in(program.definitions@).len()
                ==> (#[trigger] env.frames@[0].vars@[3 + j]).0@ == proc_names_in(program.definitions@)[j],
        final(store).output == old(store).output,
        r matches Ok(env) ==> forall|key: Seq<char>| #[trigger] env_get(env.frames@, key) is Some
            ==> builtin_name(key) || defines_proc(program.definitions@, key),
        r matches Ok(env) ==> forall|key: Seq<char>| !builtin_name(key) && #[trigger] env_get(env.frames@, key) is Some
            ==> bound_to_proc(env.frames@, *final(store), program.definitions@, key),
{
    let mut procs: Vec<(String, usize)> = Vec::new();
    let mut k: usize = 0;
    let ghost defs = program.definitions@;
    proof {
        assert(defs.take(0) =~= Seq::<Definition>::empty());
    }
    while k < program.definitions.len()
        invariant
            defs == program.definitions@,
            0 <= k <= defs.len(),
            store.output == old(store).output,
            forall|j: int| 0 <= j < procs@.len() ==> defines_proc(program.definitions@, #[trigger] procs@[j].0@),
            forall|i: int| 0 <= i < k ==> entered(#[trigger] defs[i], *symbol_table),
            procs@.len() == proc_names_in(defs.take(k as int)).len(),
            forall|j: int| 0 <= j < procs@.len() ==> (#[trigger] procs@[j]).0@ == proc_names_in(defs.take(k as int))[j],
            forall|j: int| 0 <= j < procs@.len() ==> spl_bound(#[trigger] procs@[j], *store, defs),
        decreases program.definitions@.len() - k,
    {
        proof {
            assert(defs.take(k + 1).drop_last() =~= defs.take(k as int));
            assert(defs.take(k + 1).last() == defs[k as int]);
        }
        match &program.definitions[k] {
            Definition::ProcedureDefinition(proc_def) => {
                let entry = match symbol_table.lookup(&proc_def.name, None) {
                    Some(Entry::ProcedureEntry(p)) => p.clone(),
                    _ => {
                        proof {
                            assert(!entered(defs[k as int], *symbol_table));
                        }
                        return Err(RuntimeError::NotFound(proc_def.name.clone()));
                    },
                };
                let ghost st0 = *store;
                let fidx = store.functions.len();
                store.functions.push(ValueFunction::Spl(entry, k));
                let c = Value::new_refcell(store, Value::Function(fidx));
                let ghost p0 = procs@;
                procs.push((proc_def.name.clone(), c));
                proof {
                    assert forall|j: int| 0 <= j < procs@.len() implies spl_bound(#[trigger] procs@[j], *store, defs) by {
                        if j < p0.len() {
                            assert(procs@[j] == p0[j]);
                            assert(spl_bound(p0[j], st0, defs));
                            assert(store.cells@[p0[j].1 as int] == st0.cells@[p0[j].1 as int]);
                            let f = st0.cells@[p0[j].1 as int]->Function_0;
                            assert(store.functions@[f as int] == st0.functions@[f as int]);
                        }
                    }
                    assert forall|j: int| 0 <= j < procs@.len() implies defines_proc(program.definitions@, #[trigger] procs@[j].0@) by {
                        if j < p0.len() {
                            assert(procs@[j] == p0[j]);
                        } else {
                            assert(program.definitions@[k as int] matches Definition::ProcedureDefinition(p) && p.name@ == procs@[j].0@);
                        }
                    }
                }
            },
            Definition::TypeDefinition(_) => {},
        }
        k = k + 1;
    }
    proof {
        assert(defs.take(defs.len() as int) =~= defs);
    }
    let ghost pv = procs@;
    let ghost c0 = store.cells@.len();
    let ghost f0 = store.functions@.len();
    let ghost store_after_procs = *store;
    let env = Environment::new_global(store, procs, symbol_table.clone());
    proof {
        let names = |n: Seq<char>| defines_proc(program.definitions@, n);
        assert forall|j: int| 3 <= j < env.frames@[0].vars@.len() implies names(#[trigger] env.frames@[0].vars@[j].0@) by {
            assert(env.frames@[0].vars@.skip(3)[j - 3] == pv[j - 3]);
        }
        assert forall|key: Seq<char>| #[trigger] env_get(env.frames@, key) is Some
            implies builtin_name(key) || defines_proc(program.definitions@, key) by {
            lemma_global_binds(env.frames@, key, names, store.cells@, store.functions@, c0 as int, f0 as int);
        }
        assert forall|j: int| 0 <= j < proc_names_in(program.definitions@).len()
            implies (#[trigger] env.frames@[0].vars@[3 + j]).0@ == proc_names_in(program.definitions@)[j] by {
            assert(env.frames@[0].vars@.skip(3)[j] == pv[j]);
        }
        assert forall|key: Seq<char>| !builtin_name(key) && #[trigger] env_get(env.frames@, key) is Some
            implies bound_to_proc(env.frames@, *store, program.definitions@, key) by {
            let vars = env.frames@[0].vars@;
            assert(env.frames@.last() == env.frames@[0]);
            assert(env.frames@.drop_last().len() == 0);
            assert(env_get(env.frames@.drop_last(), key) is None);
            assert(frame_get(vars, key) is Some);
            lemma_frame_get_some(vars, key);
            let m = choose|m: int| 0 <= m < vars.len() && vars[m].0@ == key && frame_get(vars, key) == Some(vars[m].1);
            if m < 3 {
                assert(builtin_binding(vars[m], store.cells@, store.functions@, c0 as int, f0 as int, m));
                assert(builtin_name(key));
            }
            assert(vars[m] == vars.skip(3)[m - 3]);
            assert(vars[m] == pv[m - 3]);
            assert(spl_bound(pv[m - 3], store_after_procs, defs));
            let c = pv[m - 3].1;
            assert(store.cells@[c as int] == store_after_procs.cells@[c as int]);
            let f = store_after_procs.cells@[c as int]->Function_0;
            assert(store.functions@[f as int] == store_after_procs.functions@[f as int]);
        }
    }
    Ok(env)
}

/// The definition is of a type, or of a procedure that the table enters as a procedure.
pub open spec fn entered(d: Definition, t: SymbolTable) -> bool {
    match d {
        Definition::ProcedureDefinition(p) => scoped_lookup(t, None, p.name@) matches Some(Entry::ProcedureEntry(_)),
        Definition::TypeDefinition(_) => true,
    }
}

/// The name a definition gives.
pub open spec fn def_name_of(d: Definition) -> Seq<char> {
    match d {
        Definition::ProcedureDefinition(p) => p.name@,
        Definition::TypeDefinition(t) => t.name@,
    }
}

/// The names of the procedures the definitions define, in order.
pub open spec fn proc_names_in(defs: Seq<Definition>) -> Seq<Seq<char>>
    decreases defs.len(),
{
    if defs.len() == 0 {
        Seq::empty()
    } else {
        match defs.last() {
            Definition::ProcedureDefinition(p) => proc_names_in(defs.drop_last()).push(p.name@),
            Definition::TypeDefinition(_) => proc_names_in(defs.drop_last()),
        }
    }
}

/// The program defines a procedure named `name`.
pub open spec fn defines_proc(defs: Seq<Definition>, name: Seq<char>) -> bool {
    exists|i: int| 0 <= i < defs.len() && (#[trigger] defs[i] matches Definition::ProcedureDefinition(p) && p.name@ == name)
}

/// A procedure `main` of `defs` ran its whole body with `fuel` (as `body_ran` says), and
/// what was printed at its end is `output`.
pub open spec fn main_body_ran(defs: Seq<Definition>, fuel: u64, output: Seq<Output>) -> bool {
    exists|d: int, tr: Seq<(Environment, Store)>| {
        &&& 0 <= d < defs.len()
        &&& defs[d] is ProcedureDefinition
        &&& defs[d]->ProcedureDefinition_0.name@ == seq!['m', 'a', 'i', 'n']
        &&& #[trigger] body_ran(defs[d]->ProcedureDefinition_0.body@, fuel, tr, Ok(()))
        &&& output == tr.last().1.output@
    }
}

/// Runs a program from `main`. Returns what it printed, with the outcome. A program
/// without a procedure `main` prints nothing and fails; a run that succeeds printed what
/// the whole body of a procedure `main` printed, run statement by statement
/// (`main_body_ran`).
pub fn start_main(program: &Program, table: &SymbolTable, start: &Instant, fuel: u64) -> (r: (Vec<Output>, Result<(), RuntimeError>))
    ensures
        !defines_proc(program.definitions@, seq!['m', 'a', 'i', 'n']) ==> r.1 is Err && r.0@.len() == 0,
        r.1 is Ok ==> main_body_ran(program.definitions@, (fuel - 1) as u64, r.0@),
{
    let mut store = Store { cells: Vec::new(), functions: Vec::new(), output: Vec::new() };
    let mut env = match eval_program(program, table, &mut store) {
        Ok(env) => env,
        Err(e) => return (store.output, Err(e)),
    };
    let call_stmt = CallStatement { name: String::from_str("main"), arguments: Vec::new() };
    proof {
        reveal_strlit("main");
        assert(call_stmt.name@ =~= seq!['m', 'a', 'i', 'n']);
        lemma_main_not_builtin();
    }
    let ctx = AstContext { program, start };
    let ghost e_pre = env;
    let ghost s_pre = store;
    let r = eval_call_statement(&call_stmt, table, &mut env, &mut store, &ctx, fuel);
    proof {
        if r is Ok {
            let u: () = r->Ok_0;
            assert(u == ());
            assert(r == Ok::<(), RuntimeError>(()));
            let key = seq!['m', 'a', 'i', 'n'];
            assert(env_get(e_pre.frames@, key) is Some);
            assert(bound_to_proc(e_pre.frames@, s_pre, program.definitions@, key));
            let d = bound_function(e_pre.frames@, s_pre, key)->Some_0->Spl_1;
            let pd = program.definitions@[d as int]->ProcedureDefinition_0;
            let tr = choose|tr: Seq<(Environment, Store)>| #[trigger] body_ran(pd.body@, (fuel - 1) as u64, tr, r)
                && tr[0].0.frames@.len() == e_pre.frames@.len() + 1
                && store_grew(s_pre, tr[0].1)
                && tr.last().1 == store
                && tr.last().0.frames@.drop_last() == env.frames@;
            assert(body_ran(program.definitions@[d as int]->ProcedureDefinition_0.body@, (fuel - 1) as u64, tr, Ok(())));
            assert(main_body_ran(program.definitions@, (fuel - 1) as u64, store.output@));
        }
    }
    (store.output, r)
}

/// The AST interpreter computes integer arithmetic and order: on two integers, `+`, `-`
/// (left minus right) and `*` give the exact result where it fits in an `int` and an
/// error otherwise, `/` by zero is an error, and the comparisons give the integer order
/// of the left operand against the right.
pub proof fn law_binary_values(a: i32, b: i32)
    ensures
        binary_value(Operator::Add, ValueView::Int(a), ValueView::Int(b))
            == (if i32::MIN <= a + b <= i32::MAX { Ok::<ValueView, ()>(ValueView::Int((a + b) as i32)) } else { Err(()) }),
        binary_value(Operator::Sub, ValueView::Int(a), ValueView::Int(b))
            == (if i32::MIN <= a - b <= i32::MAX { Ok::<ValueView, ()>(ValueView::Int((a - b) as i32)) } else { Err(()) }),
        binary_value(Operator::Mul, ValueView::Int(a), ValueView::Int(b))
            == (if i32::MIN <= a * b <= i32::MAX { Ok::<ValueView, ()>(ValueView::Int((a * b) as i32)) } else { Err(()) }),
        binary_value(Operator::Div, ValueView::Int(a), ValueView::Int(0)) is Err,
        binary_value(Operator::Equ, ValueView::Int(a), ValueView::Int(b)) == Ok::<ValueView, ()>(ValueView::Bool(a == b)),
        binary_value(Operator::Neq, ValueView::Int(a), ValueView::Int(b)) == Ok::<ValueView, ()>(ValueView::Bool(a != b)),
        binary_value(Operator::Lst, ValueView::Int(a), ValueView::Int(b)) == Ok::<ValueView, ()>(ValueView::Bool(a < b)),
        binary_value(Operator::Lse, ValueView::Int(a), ValueView::Int(b)) == Ok::<ValueView, ()>(ValueView::Bool(a <= b)),
        binary_value(Operator::Grt, ValueView::Int(a), ValueView::Int(b)) == Ok::<ValueView, ()>(ValueView::Bool(a > b)),
        binary_value(Operator::Gre, ValueView::Int(a), ValueView::Int(b)) == Ok::<ValueView, ()>(ValueView::Bool(a >= b)),
{
    crate::value::law_arith_is_integer_arithmetic(a, b);
}

/// The two interpreters agree on every binary operation on two integers: the syntax
/// tree's arithmetic is what the three-address code writes for the operation of the
/// operator, and its comparisons are what a conditional jump of that operation tests.
pub proof fn law_interpreters_agree(op: Operator, a: i32, b: i32)
    ensures
        (op == Operator::Add || op == Operator::Sub || op == Operator::Mul || op == Operator::Div)
            ==> Some(binary_value(op, ValueView::Int(a), ValueView::Int(b)))
                == crate::tac_interp::written_value(crate::quadrupel::spec_op_of(op), Some(ValueView::Int(a)), Some(ValueView::Int(b))),
        !(op == Operator::Add || op == Operator::Sub || op == Operator::Mul || op == Operator::Div)
            ==> binary_value(op, ValueView::Int(a), ValueView::Int(b))
                == Ok::<ValueView, ()>(ValueView::Bool(crate::tac_interp::comparison_holds(crate::quadrupel::spec_op_of(op), a, b))),
{
}

} // verus!
