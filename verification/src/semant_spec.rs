//! What the semantic analysis computes: the types of type expressions, variables and
//! expressions, and the errors it reports, in the order in which it finds them.
use vstd::prelude::*;
use crate::absyn::{
    CallStatement, Definition, Expression, Operator, ParameterDefinition, ProcedureDefinition, Statement,
    TypeExpression, UnaryOperator, Variable, VariableDefinition,
};
use crate::table::{Entry, Parameter, ProcedureEntry, SemanticErrorKind, SymbolTable, TypeEntry, VariableEntry, scoped_lookup};
use crate::types::{ArrayType, PrimitiveType, Type};
use crate::builtins::{spec_builtin_procedures, spec_named_types};

verus! {

/// What the analysis needs to know of a table to resolve type names: for each name,
/// the type it stands for, or `None` where the name is not a type.
pub open spec fn type_view(m: Map<Seq<char>, Entry>) -> Map<Seq<char>, Option<Type>> {
    Map::new(|k: Seq<char>| m.contains_key(k), |k: Seq<char>| match m[k] {
        Entry::TypeEntry(t) => Some(t.typ),
        _ => None,
    })
}

/// Resolves a type name in a local table and then in the enclosing one.
pub open spec fn lookup_type_name(l: Map<Seq<char>, Option<Type>>, u: Option<Map<Seq<char>, Option<Type>>>, n: Seq<char>) -> Result<Type, SemanticErrorKind> {
    if l.contains_key(n) {
        match l[n] {
            Some(t) => Ok(t),
            None => Err(SemanticErrorKind::NotAType),
        }
    } else {
        match u {
            Some(u) => if u.contains_key(n) {
                match u[n] {
                    Some(t) => Ok(t),
                    None => Err(SemanticErrorKind::NotAType),
                }
            } else {
                Err(SemanticErrorKind::TypeNotFound)
            },
            None => Err(SemanticErrorKind::TypeNotFound),
        }
    }
}

/// The type a type expression denotes.
pub open spec fn spec_type_of(te: TypeExpression, l: Map<Seq<char>, Option<Type>>, u: Option<Map<Seq<char>, Option<Type>>>) -> Result<Type, SemanticErrorKind>
    decreases te,
{
    match te {
        TypeExpression::ArrayTypeExpression(a) => match spec_type_of(a.base_type, l, u) {
            Ok(b) => Ok(Type::ArrayType(ArrayType { base_type: Box::new(b), size: a.array_size })),
            Err(k) => Err(k),
        },
        TypeExpression::NamedTypeExpression(n) => lookup_type_name(l, u, n@),
    }
}

/// Entering one variable or parameter into a local table.
pub open spec fn spec_enter_var(m: Map<Seq<char>, Entry>, name: Seq<char>, te: TypeExpression, is_reference: bool, u: Option<Map<Seq<char>, Option<Type>>>) -> Result<Map<Seq<char>, Entry>, SemanticErrorKind> {
    match spec_type_of(te, type_view(m), u) {
        Err(k) => Err(k),
        Ok(t) => if m.contains_key(name) {
            Err(SemanticErrorKind::AlreadyDefined)
        } else {
            Ok(m.insert(name, Entry::VariableEntry(VariableEntry { typ: t, is_reference })))
        },
    }
}

/// Entering the parameters, in order, into a local table.
pub open spec fn spec_enter_params(m: Map<Seq<char>, Entry>, ps: Seq<ParameterDefinition>, u: Option<Map<Seq<char>, Option<Type>>>) -> Result<Map<Seq<char>, Entry>, SemanticErrorKind>
    decreases ps.len(),
{
    if ps.len() == 0 {
        Ok(m)
    } else {
        match spec_enter_params(m, ps.drop_last(), u) {
            Err(k) => Err(k),
            Ok(m2) => spec_enter_var(m2, ps.last().name@, ps.last().type_expression, ps.last().is_reference, u),
        }
    }
}

/// Entering the local variables, in order, into a local table.
pub open spec fn spec_enter_vars(m: Map<Seq<char>, Entry>, vs: Seq<VariableDefinition>, u: Option<Map<Seq<char>, Option<Type>>>) -> Result<Map<Seq<char>, Entry>, SemanticErrorKind>
    decreases vs.len(),
{
    if vs.len() == 0 {
        Ok(m)
    } else {
        match spec_enter_vars(m, vs.drop_last(), u) {
            Err(k) => Err(k),
            Ok(m2) => spec_enter_var(m2, vs.last().name@, vs.last().type_expression, false, u),
        }
    }
}

/// The types of the parameters, resolved in the local table that holds them.
pub open spec fn spec_param_types(m: Map<Seq<char>, Entry>, ps: Seq<ParameterDefinition>, u: Option<Map<Seq<char>, Option<Type>>>) -> Result<Seq<Type>, SemanticErrorKind>
    decreases ps.len(),
{
    if ps.len() == 0 {
        Ok(Seq::empty())
    } else {
        match spec_param_types(m, ps.drop_last(), u) {
            Err(k) => Err(k),
            Ok(ts) => match spec_type_of(ps.last().type_expression, type_view(m), u) {
                Err(k) => Err(k),
                Ok(t) => Ok(ts.push(t)),
            },
        }
    }
}

/// What a procedure definition yields: its local table and the types of its parameters.
pub open spec fn spec_proc(p: ProcedureDefinition, g: Map<Seq<char>, Option<Type>>) -> Result<(Map<Seq<char>, Entry>, Seq<Type>), SemanticErrorKind> {
    match spec_enter_params(Map::empty(), p.parameters@, Some(g)) {
        Err(k) => Err(k),
        Ok(m1) => match spec_param_types(m1, p.parameters@, Some(g)) {
            Err(k) => Err(k),
            Ok(ts) => match spec_enter_vars(m1, p.variables@, Some(g)) {
                Err(k) => Err(k),
                Ok(m2) => Ok((m2, ts)),
            },
        },
    }
}

/// A procedure entry is the one its definition yields.
pub open spec fn proc_entry_matches(pe: ProcedureEntry, p: ProcedureDefinition, g: Map<Seq<char>, Option<Type>>) -> bool {
    &&& spec_proc(p, g) is Ok
    &&& pe.local_table@ == spec_proc(p, g)->Ok_0.0
    &&& pe.parameters@.len() == p.parameters@.len()
    &&& forall|i: int| 0 <= i < pe.parameters@.len() ==> {
        &&& (#[trigger] pe.parameters@[i]).name@ == p.parameters@[i].name@
        &&& pe.parameters@[i].typ == spec_proc(p, g)->Ok_0.1[i]
        &&& pe.parameters@[i].is_reference == p.parameters@[i].is_reference
    }
}

/// The name a global definition introduces.
pub open spec fn def_name(d: Definition) -> Seq<char> {
    match d {
        Definition::ProcedureDefinition(p) => p.name@,
        Definition::TypeDefinition(t) => t.name@,
    }
}

/// Entering one global definition: the type map afterwards.
#[verifier::opaque]
pub open spec fn spec_enter_global(tm: Map<Seq<char>, Option<Type>>, d: Definition) -> Result<Map<Seq<char>, Option<Type>>, SemanticErrorKind> {
    match d {
        Definition::ProcedureDefinition(p) => match spec_proc(*p, tm) {
            Err(k) => Err(k),
            Ok(_) => if tm.contains_key(p.name@) {
                Err(SemanticErrorKind::AlreadyDefined)
            } else {
                Ok(tm.insert(p.name@, None))
            },
        },
        Definition::TypeDefinition(t) => match spec_type_of(t.type_expression, tm, None) {
            Err(k) => Err(k),
            Ok(ty) => if tm.contains_key(t.name@) {
                Err(SemanticErrorKind::AlreadyDefined)
            } else {
                Ok(tm.insert(t.name@, Some(ty)))
            },
        },
    }
}

/// Entering the global definitions in order.
pub open spec fn spec_enter_globals(tm: Map<Seq<char>, Option<Type>>, ds: Seq<Definition>) -> Result<Map<Seq<char>, Option<Type>>, SemanticErrorKind>
    decreases ds.len(),
{
    if ds.len() == 0 {
        Ok(tm)
    } else {
        match spec_enter_globals(tm, ds.drop_last()) {
            Err(k) => Err(k),
            Ok(tm2) => spec_enter_global(tm2, ds.last()),
        }
    }
}

/// The type map after entering `int` and the first `i` predefined procedures into a table
/// whose type map is `base`.
pub open spec fn spec_builtin_types_over(base: Map<Seq<char>, Option<Type>>, i: nat) -> Map<Seq<char>, Option<Type>>
    decreases i,
{
    if i == 0 {
        base.insert(spec_named_types()[0], Some(Type::PrimitiveType(PrimitiveType::Int)))
    } else {
        spec_builtin_types_over(base, (i - 1) as nat).insert(spec_builtin_procedures()[i - 1].0, None)
    }
}

/// The type map of the initial global table.
pub open spec fn spec_builtin_types() -> Map<Seq<char>, Option<Type>> {
    spec_builtin_types_over(Map::empty(), spec_builtin_procedures().len())
}

/// The entry that a global definition puts into the global table, given the type map
/// before it.
#[verifier::opaque]
pub open spec fn global_entry_ok(e: Entry, d: Definition, tm: Map<Seq<char>, Option<Type>>) -> bool {
    match d {
        Definition::ProcedureDefinition(p) => (e is ProcedureEntry) && proc_entry_matches(e->ProcedureEntry_0, *p, tm),
        Definition::TypeDefinition(t) => spec_type_of(t.type_expression, tm, None) is Ok
            && e == Entry::TypeEntry(TypeEntry { typ: spec_type_of(t.type_expression, tm, None)->Ok_0 }),
    }
}

/// Checking a global definition: type definitions need no check; a procedure's body is
/// checked in its local table.
pub open spec fn spec_def_check(d: Definition, g: SymbolTable) -> Result<(), SemanticErrorKind> {
    match d {
        Definition::TypeDefinition(_) => Ok(()),
        Definition::ProcedureDefinition(p) => spec_stmts_check(p.body@, g@[p.name@]->ProcedureEntry_0.local_table, g),
    }
}

/// A global definition after the check: the same up to type annotations in procedure bodies.
pub open spec fn def_rel(a: Definition, b: Definition, g: SymbolTable, annotated: bool) -> bool {
    match (a, b) {
        (Definition::TypeDefinition(x), Definition::TypeDefinition(y)) => x == y,
        (Definition::ProcedureDefinition(x), Definition::ProcedureDefinition(y)) => {
            &&& x.name == y.name
            &&& x.parameters == y.parameters
            &&& x.variables == y.variables
            &&& stmts_rel(x.body@, y.body@, g@[x.name@]->ProcedureEntry_0.local_table, g, annotated)
        },
        _ => false,
    }
}

/// The global table knows the procedure under its name.
pub open spec fn has_proc_entry(g: SymbolTable, name: Seq<char>) -> bool {
    g@.contains_key(name) && (g@[name] is ProcedureEntry)
}

/// The type that a binary operator yields on operands of the given types.
pub open spec fn spec_result_type(op: Operator, l: Type, r: Type) -> Option<Type> {
    if l != Type::PrimitiveType(PrimitiveType::Int) || r != Type::PrimitiveType(PrimitiveType::Int) {
        None
    } else {
        match op {
            Operator::Add | Operator::Sub | Operator::Mul | Operator::Div => Some(Type::PrimitiveType(PrimitiveType::Int)),
            _ => Some(Type::PrimitiveType(PrimitiveType::Bool)),
        }
    }
}

/// The type that a unary operator yields on an operand of the given type.
pub open spec fn spec_unary_result_type(op: UnaryOperator, t: Type) -> Option<Type> {
    if t != Type::PrimitiveType(PrimitiveType::Int) {
        None
    } else {
        Some(Type::PrimitiveType(PrimitiveType::Int))
    }
}

/// Looking a name up in a procedure's local table, then in the global table.
pub open spec fn lookup2(l: SymbolTable, g: SymbolTable, n: Seq<char>) -> Option<Entry> {
    scoped_lookup(l, Some(g), n)
}

/// The type of a variable, or the first error found in it.
pub open spec fn spec_var_type(v: Variable, l: SymbolTable, g: SymbolTable) -> Result<Type, SemanticErrorKind>
    decreases v,
{
    match v {
        Variable::NamedVariable(n) => match lookup2(l, g, n@) {
            None => Err(SemanticErrorKind::UndefinedIdentifier),
            Some(Entry::VariableEntry(e)) => Ok(e.typ),
            Some(_) => Err(SemanticErrorKind::NotAVariable),
        },
        Variable::ArrayAccess(a) => match spec_var_type(a.array, l, g) {
            Err(k) => Err(k),
            Ok(Type::ArrayType(at)) => match spec_expr_type(a.index, l, g) {
                Err(k) => Err(k),
                Ok(it) => if it == Type::PrimitiveType(PrimitiveType::Int) {
                    Ok(*at.base_type)
                } else {
                    Err(SemanticErrorKind::IndexTypeMismatch)
                },
            },
            Ok(_) => Err(SemanticErrorKind::IndexingNonArray),
        },
    }
}

/// The type of an expression, or the first error found in it.
pub open spec fn spec_expr_type(e: Expression, l: SymbolTable, g: SymbolTable) -> Result<Type, SemanticErrorKind>
    decreases e,
{
    match e {
        Expression::BinaryExpression(b) => match spec_expr_type(b.left, l, g) {
            Err(k) => Err(k),
            Ok(lt) => match spec_expr_type(b.right, l, g) {
                Err(k) => Err(k),
                Ok(rt) => match spec_result_type(b.operator, lt, rt) {
                    Some(t) => Ok(t),
                    None => Err(SemanticErrorKind::OperandTypeMismatch),
                },
            },
        },
        Expression::UnaryExpression(u) => match spec_expr_type(u.operand, l, g) {
            Err(k) => Err(k),
            Ok(t) => match spec_unary_result_type(u.operator, t) {
                Some(t) => Ok(t),
                None => Err(SemanticErrorKind::OperandTypeMismatch),
            },
        },
        Expression::IntLiteral(_) => Ok(Type::PrimitiveType(PrimitiveType::Int)),
        Expression::VariableExpression(v) => spec_var_type(*v, l, g),
    }
}

/// The arguments of a call, checked in order against the parameters.
pub open spec fn spec_args_check(args: Seq<Expression>, ps: Seq<Parameter>, l: SymbolTable, g: SymbolTable) -> Result<(), SemanticErrorKind>
    decreases args.len(),
{
    if args.len() == 0 {
        Ok(())
    } else {
        match spec_args_check(args.drop_last(), ps, l, g) {
            Err(k) => Err(k),
            Ok(_) => {
                let i = args.len() - 1;
                match spec_expr_type(args[i], l, g) {
                    Err(k) => Err(k),
                    Ok(t) => if t != ps[i].typ {
                        Err(SemanticErrorKind::ArgumentTypeMismatch)
                    } else if ps[i].is_reference && !(args[i] is VariableExpression) {
                        Err(SemanticErrorKind::ArgumentMustBeAVariable)
                    } else {
                        Ok(())
                    },
                }
            },
        }
    }
}

/// The outcome of checking a statement: the first error found in it, if any.
pub open spec fn spec_stmt_check(s: Statement, l: SymbolTable, g: SymbolTable) -> Result<(), SemanticErrorKind>
    decreases s,
{
    match s {
        Statement::IfStatement(i) => match spec_expr_type(i.condition, l, g) {
            Err(k) => Err(k),
            Ok(t) => if t != Type::PrimitiveType(PrimitiveType::Bool) {
                Err(SemanticErrorKind::IfConditionMustBeBoolean)
            } else {
                match spec_stmt_check(i.then_branch, l, g) {
                    Err(k) => Err(k),
                    Ok(_) => match i.else_branch {
                        Some(e) => spec_stmt_check(e, l, g),
                        None => Ok(()),
                    },
                }
            },
        },
        Statement::EmptyStatement => Ok(()),
        Statement::CallStatement(c) => match lookup2(l, g, c.name@) {
            None => Err(SemanticErrorKind::UndefinedIdentifier),
            Some(Entry::ProcedureEntry(p)) => if c.arguments@.len() != p.parameters@.len() {
                Err(SemanticErrorKind::ArgumentCountMismatch)
            } else {
                spec_args_check(c.arguments@, p.parameters@, l, g)
            },
            Some(_) => Err(SemanticErrorKind::CallOfNonProcedure),
        },
        Statement::WhileStatement(w) => match spec_expr_type(w.condition, l, g) {
            Err(k) => Err(k),
            Ok(t) => if t != Type::PrimitiveType(PrimitiveType::Bool) {
                Err(SemanticErrorKind::WhileConditionMustBeBoolean)
            } else {
                spec_stmt_check(w.body, l, g)
            },
        },
        Statement::AssignStatement(a) => match spec_var_type(a.target, l, g) {
            Err(k) => Err(k),
            Ok(tt) => match spec_expr_type(a.value, l, g) {
                Err(k) => Err(k),
                Ok(vt) => if (tt is ArrayType) || tt != vt {
                    Err(SemanticErrorKind::IllegalAssignment)
                } else {
                    Ok(())
                },
            },
        },
        Statement::CompoundStatement(v) => spec_stmts_check(v@, l, g),
    }
}

/// Checking a list of statements in order.
pub open spec fn spec_stmts_check(ss: Seq<Statement>, l: SymbolTable, g: SymbolTable) -> Result<(), SemanticErrorKind>
    decreases ss,
{
    if ss.len() == 0 {
        Ok(())
    } else {
        match spec_stmts_check(ss.drop_last(), l, g) {
            Err(k) => Err(k),
            Ok(_) => spec_stmt_check(ss.last(), l, g),
        }
    }
}

/// Two variables are the same up to the type annotations; with `annotated` set, every
/// array access of `b` also carries the array type of the variable it indexes, as the
/// analysis computes it for `a`.
pub open spec fn var_rel(a: Variable, b: Variable, l: SymbolTable, g: SymbolTable, annotated: bool) -> bool
    decreases a,
{
    match (a, b) {
        (Variable::NamedVariable(x), Variable::NamedVariable(y)) => x == y,
        (Variable::ArrayAccess(p), Variable::ArrayAccess(q)) => {
            &&& var_rel(p.array, q.array, l, g, annotated)
            &&& expr_rel(p.index, q.index, l, g, annotated)
            &&& annotated ==> match spec_var_type(p.array, l, g) {
                Ok(Type::ArrayType(at)) => q.typ == Some(at),
                _ => false,
            }
        },
        _ => false,
    }
}

/// Two expressions are the same up to the type annotations (see `var_rel`).
pub open spec fn expr_rel(a: Expression, b: Expression, l: SymbolTable, g: SymbolTable, annotated: bool) -> bool
    decreases a,
{
    match (a, b) {
        (Expression::BinaryExpression(x), Expression::BinaryExpression(y)) => x.operator == y.operator
            && expr_rel(x.left, y.left, l, g, annotated) && expr_rel(x.right, y.right, l, g, annotated),
        (Expression::UnaryExpression(x), Expression::UnaryExpression(y)) => x.operator == y.operator
            && expr_rel(x.operand, y.operand, l, g, annotated),
        (Expression::IntLiteral(x), Expression::IntLiteral(y)) => x == y,
        (Expression::VariableExpression(x), Expression::VariableExpression(y)) => var_rel(*x, *y, l, g, annotated),
        _ => false,
    }
}

/// Two argument lists are the same up to the type annotations.
pub open spec fn exprs_rel(a: Seq<Expression>, b: Seq<Expression>, l: SymbolTable, g: SymbolTable, annotated: bool) -> bool
    decreases a,
{
    if a.len() == 0 {
        b.len() == 0
    } else {
        b.len() == a.len() && exprs_rel(a.drop_last(), b.drop_last(), l, g, annotated)
            && expr_rel(a.last(), b.last(), l, g, annotated)
    }
}

/// Two statements are the same up to the type annotations.
pub open spec fn stmt_rel(a: Statement, b: Statement, l: SymbolTable, g: SymbolTable, annotated: bool) -> bool
    decreases a,
{
    match (a, b) {
        (Statement::AssignStatement(x), Statement::AssignStatement(y)) =>
            var_rel(x.target, y.target, l, g, annotated) && expr_rel(x.value, y.value, l, g, annotated),
        (Statement::IfStatement(x), Statement::IfStatement(y)) => {
            &&& expr_rel(x.condition, y.condition, l, g, annotated)
            &&& stmt_rel(x.then_branch, y.then_branch, l, g, annotated)
            &&& match (x.else_branch, y.else_branch) {
                (Some(p), Some(q)) => stmt_rel(p, q, l, g, annotated),
                (None, None) => true,
                _ => false,
            }
        },
        (Statement::WhileStatement(x), Statement::WhileStatement(y)) =>
            expr_rel(x.condition, y.condition, l, g, annotated) && stmt_rel(x.body, y.body, l, g, annotated),
        (Statement::CallStatement(x), Statement::CallStatement(y)) =>
            x.name == y.name && exprs_rel(x.arguments@, y.arguments@, l, g, annotated),
        (Statement::EmptyStatement, Statement::EmptyStatement) => true,
        (Statement::CompoundStatement(x), Statement::CompoundStatement(y)) => stmts_rel(x@, y@, l, g, annotated),
        _ => false,
    }
}

/// Two statement lists are the same up to the type annotations.
pub open spec fn stmts_rel(a: Seq<Statement>, b: Seq<Statement>, l: SymbolTable, g: SymbolTable, annotated: bool) -> bool
    decreases a,
{
    if a.len() == 0 {
        b.len() == 0
    } else {
        b.len() == a.len() && stmts_rel(a.drop_last(), b.drop_last(), l, g, annotated)
            && stmt_rel(a.last(), b.last(), l, g, annotated)
    }
}

/// Arguments that pass the check match their parameters: each has its parameter's type,
/// and each one bound to a reference parameter is a variable.
pub proof fn law_checked_arguments(args: Seq<Expression>, ps: Seq<Parameter>, l: SymbolTable, g: SymbolTable)
    requires
        args.len() <= ps.len(),
        spec_args_check(args, ps, l, g) is Ok,
    ensures
        forall|i: int| 0 <= i < args.len() ==> spec_expr_type(#[trigger] args[i], l, g) == Ok::<Type, SemanticErrorKind>(ps[i].typ),
        forall|i: int| 0 <= i < args.len() && (#[trigger] ps[i]).is_reference ==> args[i] is VariableExpression,
    decreases args.len(),
{
    if args.len() > 0 {
        law_checked_arguments(args.drop_last(), ps, l, g);
        assert forall|i: int| 0 <= i < args.len() - 1 implies args[i] == args.drop_last()[i] by {}
    }
}

/// A call that passes the check names a procedure, passes one argument per parameter,
/// each of its parameter's type, and a variable for each reference parameter.
pub proof fn law_checked_call(c: CallStatement, l: SymbolTable, g: SymbolTable)
    requires
        spec_stmt_check(Statement::CallStatement(Box::new(c)), l, g) is Ok,
    ensures
        lookup2(l, g, c.name@) is Some && lookup2(l, g, c.name@)->0 is ProcedureEntry,
        ({
            let ps = lookup2(l, g, c.name@)->0->ProcedureEntry_0.parameters@;
            &&& c.arguments@.len() == ps.len()
            &&& forall|i: int| 0 <= i < ps.len() ==> spec_expr_type(#[trigger] c.arguments@[i], l, g) == Ok::<Type, SemanticErrorKind>(ps[i].typ)
            &&& forall|i: int| 0 <= i < ps.len() && (#[trigger] ps[i]).is_reference ==> c.arguments@[i] is VariableExpression
        }),
{
    let ps = lookup2(l, g, c.name@)->0->ProcedureEntry_0.parameters@;
    law_checked_arguments(c.arguments@, ps, l, g);
}

/// A checked `if` or `while` has a condition of type `bool`, and a checked assignment
/// gives a variable that is not an array a value of its own type.
pub proof fn law_checked_statements(st: Statement, l: SymbolTable, g: SymbolTable)
    requires
        spec_stmt_check(st, l, g) is Ok,
    ensures
        st matches Statement::IfStatement(i) ==> spec_expr_type(i.condition, l, g)
            == Ok::<Type, SemanticErrorKind>(Type::PrimitiveType(PrimitiveType::Bool)),
        st matches Statement::WhileStatement(w) ==> spec_expr_type(w.condition, l, g)
            == Ok::<Type, SemanticErrorKind>(Type::PrimitiveType(PrimitiveType::Bool)),
        st matches Statement::AssignStatement(a) ==> spec_var_type(a.target, l, g) is Ok
            && !(spec_var_type(a.target, l, g)->Ok_0 is ArrayType)
            && spec_expr_type(a.value, l, g) == spec_var_type(a.target, l, g),
{
}

/// The types of expressions: an operation takes two `int` operands and gives an `int`
/// for `+`, `-`, `*`, `/` and a `bool` for the comparisons, and operands of any other
/// types are refused; a negation takes and gives an `int`; a literal is an `int`; an
/// indexed variable is an array indexed by an `int`, of the array's base type.
pub proof fn law_expression_types(e: Expression, l: SymbolTable, g: SymbolTable)
    ensures
        e matches Expression::BinaryExpression(b) ==> (spec_expr_type(e, l, g) is Ok <==> (
            spec_expr_type(b.left, l, g) == Ok::<Type, SemanticErrorKind>(Type::PrimitiveType(PrimitiveType::Int))
            && spec_expr_type(b.right, l, g) == Ok::<Type, SemanticErrorKind>(Type::PrimitiveType(PrimitiveType::Int)))),
        e matches Expression::BinaryExpression(b) ==> (spec_expr_type(e, l, g) is Ok ==> spec_expr_type(e, l, g)->Ok_0 == (
            if b.operator == Operator::Add || b.operator == Operator::Sub || b.operator == Operator::Mul || b.operator == Operator::Div {
                Type::PrimitiveType(PrimitiveType::Int)
            } else {
                Type::PrimitiveType(PrimitiveType::Bool)
            })),
        e matches Expression::UnaryExpression(u) ==> (spec_expr_type(e, l, g) is Ok <==>
            spec_expr_type(u.operand, l, g) == Ok::<Type, SemanticErrorKind>(Type::PrimitiveType(PrimitiveType::Int))),
        e matches Expression::UnaryExpression(u) ==> (spec_expr_type(e, l, g) is Ok ==>
            spec_expr_type(e, l, g)->Ok_0 == Type::PrimitiveType(PrimitiveType::Int)),
        e is IntLiteral ==> spec_expr_type(e, l, g) == Ok::<Type, SemanticErrorKind>(Type::PrimitiveType(PrimitiveType::Int)),
        e matches Expression::VariableExpression(v) ==> (*v matches Variable::ArrayAccess(a) ==> (spec_expr_type(e, l, g) is Ok ==> (
            spec_var_type(a.array, l, g) matches Ok(Type::ArrayType(at))
            && spec_expr_type(a.index, l, g) == Ok::<Type, SemanticErrorKind>(Type::PrimitiveType(PrimitiveType::Int))
            && spec_expr_type(e, l, g)->Ok_0 == *at.base_type))),
{
    if let Expression::VariableExpression(v) = e {
        assert(spec_expr_type(e, l, g) == spec_var_type(*v, l, g));
        if let Variable::ArrayAccess(a) = *v {
            assert(spec_var_type(*v, l, g) == match spec_var_type(a.array, l, g) {
                Err(k) => Err(k),
                Ok(Type::ArrayType(at)) => match spec_expr_type(a.index, l, g) {
                    Err(k) => Err(k),
                    Ok(it) => if it == Type::PrimitiveType(PrimitiveType::Int) {
                        Ok(*at.base_type)
                    } else {
                        Err(SemanticErrorKind::IndexTypeMismatch)
                    },
                },
                Ok(_) => Err(SemanticErrorKind::IndexingNonArray),
            });
        }
    }
}

} // verus!
