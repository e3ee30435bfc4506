//! Semantic analysis: building the symbol tables and checking the types of a program.
use vstd::prelude::*;
use crate::absyn::{
    Definition, Expression, Operator, ParameterDefinition, ProcedureDefinition, Program, Statement,
    TypeDefinition, TypeExpression, UnaryOperator, Variable, VariableDefinition,
};
use crate::table::{Entry, Parameter, ProcedureEntry, SemanticErrorKind, SymbolTable, TypeEntry, VariableEntry, deref_table};
use crate::types::{ArrayType, PrimitiveType, Type};
use crate::builtins::{named_types, procedures, spec_builtin_procedures, spec_named_types, builtin_params_match, lemma_builtin_names_distinct};
use crate::semant_spec::{
    def_name, expr_rel, exprs_rel, lookup2, proc_entry_matches, spec_args_check, spec_builtin_types,
    spec_builtin_types_over, global_entry_ok, spec_def_check, def_rel, has_proc_entry, spec_enter_global, spec_enter_globals, spec_enter_params, spec_enter_var,
    spec_enter_vars, spec_expr_type, spec_param_types, spec_proc, spec_result_type, spec_stmt_check,
    spec_stmts_check, spec_type_of, spec_unary_result_type, spec_var_type, stmt_rel, stmts_rel, type_view,
    var_rel,
};
use crate::semant_lemmas::{
    lemma_expr_refl, lemma_expr_weaken, lemma_exprs_extend, lemma_exprs_refl, lemma_exprs_weaken,
    lemma_stmt_refl, lemma_stmt_weaken, lemma_stmts_extend, lemma_stmts_refl, lemma_stmts_weaken,
    lemma_var_refl, lemma_var_weaken,
};

verus! {

/// An error found by the semantic analysis.
#[derive(Debug)]
pub struct SemanticError {
    pub msg: String,
    pub kind: SemanticErrorKind,
}

/// A result agrees with what the analysis computes.
pub open spec fn matches_spec<T>(r: Result<T, SemanticError>, s: Result<T, SemanticErrorKind>) -> bool {
    match r {
        Ok(t) => s == Ok::<T, SemanticErrorKind>(t),
        Err(e) => s == Err::<T, SemanticErrorKind>(e.kind),
    }
}

/// The type map of an optional enclosing table.
pub open spec fn opt_type_view(u: Option<&SymbolTable>) -> Option<Map<Seq<char>, Option<Type>>> {
    match u {
        Some(t) => Some(type_view(t@)),
        None => None,
    }
}

/// The name of an error kind, as the message of an error that names no symbol.
pub open spec fn kind_name(kind: SemanticErrorKind) -> Seq<char> {
    match kind {
        SemanticErrorKind::AlreadyDefined => "SymbolAlreadyDefined"@,
        SemanticErrorKind::TypeNotFound => "TypeNotFound"@,
        SemanticErrorKind::NotAType => "NotAType"@,
        SemanticErrorKind::IfConditionMustBeBoolean => "IfConditionMustBeBoolean"@,
        SemanticErrorKind::WhileConditionMustBeBoolean => "WhileConditionMustBeBoolean"@,
        SemanticErrorKind::UndefinedIdentifier => "UndefinedIdentifier"@,
        SemanticErrorKind::CallOfNonProcedure => "CallOfNonProcedure"@,
        SemanticErrorKind::ArgumentCountMismatch => "ArgumentCountMismatch"@,
        SemanticErrorKind::ArgumentTypeMismatch => "ArgumentTypeMismatch"@,
        SemanticErrorKind::ArgumentMustBeAVariable => "ArgumentMustBeAVariable"@,
        SemanticErrorKind::IllegalAssignment => "IllegalAssignment"@,
        SemanticErrorKind::OperandTypeMismatch => "OperandTypeMismatch"@,
        SemanticErrorKind::NotAVariable => "NotAVariable"@,
        SemanticErrorKind::IndexingNonArray => "IndexingNonArray"@,
        SemanticErrorKind::IndexTypeMismatch => "IndexTypeMismatch"@,
        SemanticErrorKind::ProcedureNotInTable => "ProcedureNotInTable"@,
    }
}

/// The message of an error of kind `kind` about the symbol `name`: the symbol is named
/// in the sentence of its kind ("Symbol x already defined", "Type t not found",
/// "t is not a type"); any other kind is named, then the symbol.
pub open spec fn named_message(kind: SemanticErrorKind, name: Seq<char>) -> Seq<char> {
    match kind {
        SemanticErrorKind::AlreadyDefined => "Symbol "@ + name + " already defined"@,
        SemanticErrorKind::TypeNotFound => "Type "@ + name + " not found"@,
        SemanticErrorKind::NotAType => name + " is not a type"@,
        _ => kind_name(kind) + ": "@ + name,
    }
}

impl SemanticError {
    /// An error of the given kind; its message names the kind.
    pub fn new(kind: SemanticErrorKind) -> (r: SemanticError)
        ensures
            r.kind == kind,
            r.msg@ == kind_name(kind),
    {
        let msg = match kind {
            SemanticErrorKind::AlreadyDefined => "SymbolAlreadyDefined",
            SemanticErrorKind::TypeNotFound => "TypeNotFound",
            SemanticErrorKind::NotAType => "NotAType",
            SemanticErrorKind::IfConditionMustBeBoolean => "IfConditionMustBeBoolean",
            SemanticErrorKind::WhileConditionMustBeBoolean => "WhileConditionMustBeBoolean",
            SemanticErrorKind::UndefinedIdentifier => "UndefinedIdentifier",
            SemanticErrorKind::CallOfNonProcedure => "CallOfNonProcedure",
            SemanticErrorKind::ArgumentCountMismatch => "ArgumentCountMismatch",
            SemanticErrorKind::ArgumentTypeMismatch => "ArgumentTypeMismatch",
            SemanticErrorKind::ArgumentMustBeAVariable => "ArgumentMustBeAVariable",
            SemanticErrorKind::IllegalAssignment => "IllegalAssignment",
            SemanticErrorKind::OperandTypeMismatch => "OperandTypeMismatch",
            SemanticErrorKind::NotAVariable => "NotAVariable",
            SemanticErrorKind::IndexingNonArray => "IndexingNonArray",
            SemanticErrorKind::IndexTypeMismatch => "IndexTypeMismatch",
            SemanticErrorKind::ProcedureNotInTable => "ProcedureNotInTable",
        };
        SemanticError { msg: String::from_str(msg), kind }
    }

    /// An error of the given kind about the symbol `name`, which its message names.
    pub fn named(kind: SemanticErrorKind, name: &String) -> (r: SemanticError)
        ensures
            r.kind == kind,
            r.msg@ == named_message(kind, name@),
    {
        let mut msg = String::new();
        match kind {
            SemanticErrorKind::AlreadyDefined => {
                msg.append("Symbol ");
                msg.append(name.as_str());
                msg.append(" already defined");
            },
            SemanticErrorKind::TypeNotFound => {
                msg.append("Type ");
                msg.append(name.as_str());
                msg.append(" not found");
            },
            SemanticErrorKind::NotAType => {
                msg.append(name.as_str());
                msg.append(" is not a type");
            },
            _ => {
                let k = SemanticError::new(kind);
                msg.append(k.msg.as_str());
                msg.append(": ");
                msg.append(name.as_str());
            },
        }
        SemanticError { msg, kind }
    }
}

impl Operator {
    /// The type the operator yields on operands of the given types; `None` unless both are `int`.
    pub fn result_type(self, left_type: &Type, right_type: &Type) -> (r: Option<Type>)
        ensures
            r == spec_result_type(self, *left_type, *right_type),
    {
        if !left_type.is_int() || !right_type.is_int() {
            return None;
        }
        match self {
            Operator::Add | Operator::Sub | Operator::Mul | Operator::Div => Some(Type::int_type()),
            _ => Some(Type::bool_type()),
        }
    }
}

impl UnaryOperator {
    /// The type the operator yields on an operand of the given type; `None` unless it is `int`.
    pub fn result_type(self, right_type: &Type) -> (r: Option<Type>)
        ensures
            r == spec_unary_result_type(self, *right_type),
    {
        if !right_type.is_int() {
            return None;
        }
        Some(Type::int_type())
    }
}

/// The type a type expression denotes, its names resolved in `table` and then in `upper`.
pub fn type_expression_to_type(type_ex: &TypeExpression, table: &SymbolTable, upper: Option<&SymbolTable>) -> (r: Result<Type, SemanticError>)
    ensures
        matches_spec(r, spec_type_of(*type_ex, type_view(table@), opt_type_view(upper))),
    decreases type_ex,
{
    match type_ex {
        TypeExpression::ArrayTypeExpression(a) => {
            match type_expression_to_type(&a.base_type, table, upper) {
                Ok(b) => Ok(Type::ArrayType(ArrayType { base_type: Box::new(b), size: a.array_size })),
                Err(e) => Err(e),
            }
        },
        TypeExpression::NamedTypeExpression(n) => {
            match table.lookup(n, upper) {
                None => Err(SemanticError::named(SemanticErrorKind::TypeNotFound, n)),
                Some(Entry::TypeEntry(t)) => Ok(t.typ.clone()),
                Some(_) => Err(SemanticError::named(SemanticErrorKind::NotAType, n)),
            }
        },
    }
}

fn enter_variable(name: &String, te: &TypeExpression, is_reference: bool, table: &mut SymbolTable, upper: Option<&SymbolTable>) -> (r: Result<(), SemanticError>)
    ensures
        match spec_enter_var(old(table)@, name@, *te, is_reference, opt_type_view(upper)) {
            Ok(m) => r is Ok && final(table)@ == m,
            Err(k) => r is Err && r->Err_0.kind == k && final(table)@ == old(table)@,
        },
{
    let typ = match type_expression_to_type(te, table, upper) {
        Ok(t) => t,
        Err(e) => return Err(e),
    };
    match table.enter(name.clone(), Entry::VariableEntry(VariableEntry { typ, is_reference })) {
        Ok(()) => Ok(()),
        Err(k) => Err(SemanticError::named(k, name)),
    }
}

/// Enters a local variable; its type is resolved in `table` and then in `upper`.
pub fn enter_var_def(def: &VariableDefinition, table: &mut SymbolTable, upper: Option<&SymbolTable>) -> (r: Result<(), SemanticError>)
    ensures
        match spec_enter_var(old(table)@, def.name@, def.type_expression, false, opt_type_view(upper)) {
            Ok(m) => r is Ok && final(table)@ == m,
            Err(k) => r is Err && r->Err_0.kind == k && final(table)@ == old(table)@,
        },
{
    enter_variable(&def.name, &def.type_expression, false, table, upper)
}

/// Enters a formal parameter, keeping its passing mode.
pub fn enter_param_def(def: &ParameterDefinition, table: &mut SymbolTable, upper: Option<&SymbolTable>) -> (r: Result<(), SemanticError>)
    ensures
        match spec_enter_var(old(table)@, def.name@, def.type_expression, def.is_reference, opt_type_view(upper)) {
            Ok(m) => r is Ok && final(table)@ == m,
            Err(k) => r is Err && r->Err_0.kind == k && final(table)@ == old(table)@,
        },
{
    enter_variable(&def.name, &def.type_expression, def.is_reference, table, upper)
}

/// The entry of a type definition; its type is resolved in the global table.
pub fn enter_type_def(def: &TypeDefinition, table: &SymbolTable) -> (r: Result<(String, Entry), SemanticError>)
    ensures
        match spec_type_of(def.type_expression, type_view(table@), None) {
            Ok(t) => r is Ok && r->Ok_0.0@ == def.name@ && r->Ok_0.1 == Entry::TypeEntry(TypeEntry { typ: t }),
            Err(k) => r is Err && r->Err_0.kind == k,
        },
{
    match type_expression_to_type(&def.type_expression, table, None) {
        Ok(t) => Ok((def.name.clone(), Entry::TypeEntry(TypeEntry { typ: t }))),
        Err(e) => Err(e),
    }
}

/// The entry of a procedure definition: a local table that holds its parameters and then
/// its variables (types resolved locally, then in the global `table`), and its parameter list.
pub fn enter_procedure_def(def: &ProcedureDefinition, table: &SymbolTable) -> (r: Result<(String, Entry), SemanticError>)
    ensures
        match spec_proc(*def, type_view(table@)) {
            Ok(_) => r is Ok && r->Ok_0.0@ == def.name@ && (r->Ok_0.1 is ProcedureEntry)
                && proc_entry_matches(r->Ok_0.1->ProcedureEntry_0, *def, type_view(table@)),
            Err(k) => r is Err && r->Err_0.kind == k,
        },
{
    let ghost g = type_view(table@);
    let ghost ps = def.parameters@;
    let mut local_table = SymbolTable::new();
    let mut i: usize = 0;
    while i < def.parameters.len()
        invariant
            i <= ps.len(),
            ps == def.parameters@,
            g == type_view(table@),
            spec_enter_params(Map::empty(), ps.take(i as int), Some(g)) == Ok::<Map<Seq<char>, Entry>, SemanticErrorKind>(local_table@),
        decreases ps.len() - i,
    {
        proof {
            assert(ps.take(i + 1).drop_last() =~= ps.take(i as int));
        }
        match enter_param_def(&def.parameters[i], &mut local_table, Some(table)) {
            Ok(()) => {},
            Err(e) => {
                proof {
                    assert(ps.take(ps.len() as int) =~= ps);
                    lemma_fold_err_params(ps, i as int, g, e.kind);
                }
                return Err(e);
            },
        }
        i = i + 1;
    }
    proof {
        assert(ps.take(ps.len() as int) =~= ps);
    }
    let ghost m1 = local_table@;
    let mut parameters: Vec<Parameter> = Vec::new();
    let mut j: usize = 0;
    while j < def.parameters.len()
        invariant
            j <= ps.len(),
            ps == def.parameters@,
            g == type_view(table@),
            m1 == local_table@,
            spec_enter_params(Map::empty(), ps, Some(g)) == Ok::<Map<Seq<char>, Entry>, SemanticErrorKind>(m1),
            spec_param_types(m1, ps.take(j as int), Some(g)) is Ok,
            parameters@.len() == j,
            forall|k: int| 0 <= k < j ==> {
                &&& (#[trigger] parameters@[k]).name@ == ps[k].name@
                &&& parameters@[k].typ == spec_param_types(m1, ps.take(j as int), Some(g))->Ok_0[k]
                &&& parameters@[k].is_reference == ps[k].is_reference
            },
            spec_param_types(m1, ps.take(j as int), Some(g))->Ok_0.len() == j,
        decreases ps.len() - j,
    {
        proof {
            assert(ps.take(j + 1).drop_last() =~= ps.take(j as int));
        }
        let p = &def.parameters[j];
        match type_expression_to_type(&p.type_expression, &local_table, Some(table)) {
            Ok(t) => {
                parameters.push(Parameter::new(p.name.clone(), t, p.is_reference));
            },
            Err(e) => {
                proof {
                    lemma_fold_err_types(m1, ps, j as int, g, e.kind);
                }
                return Err(e);
            },
        }
        j = j + 1;
    }
    proof {
        assert(ps.take(ps.len() as int) =~= ps);
    }
    let ghost vs = def.variables@;
    let mut k: usize = 0;
    while k < def.variables.len()
        invariant
            k <= vs.len(),
            vs == def.variables@,
            ps == def.parameters@,
            g == type_view(table@),
            spec_enter_params(Map::empty(), ps, Some(g)) == Ok::<Map<Seq<char>, Entry>, SemanticErrorKind>(m1),
            spec_param_types(m1, ps, Some(g)) is Ok,
            spec_enter_vars(m1, vs.take(k as int), Some(g)) == Ok::<Map<Seq<char>, Entry>, SemanticErrorKind>(local_table@),
        decreases vs.len() - k,
    {
        proof {
            assert(vs.take(k + 1).drop_last() =~= vs.take(k as int));
        }
        match enter_var_def(&def.variables[k], &mut local_table, Some(table)) {
            Ok(()) => {},
            Err(e) => {
                proof {
                    lemma_fold_err_vars(m1, vs, k as int, g, e.kind);
                }
                return Err(e);
            },
        }
        k = k + 1;
    }
    proof {
        assert(vs.take(vs.len() as int) =~= vs);
    }
    Ok((def.name.clone(), Entry::ProcedureEntry(ProcedureEntry { local_table, parameters })))
}

proof fn lemma_fold_err_params(ps: Seq<ParameterDefinition>, i: int, g: Map<Seq<char>, Option<Type>>, k: SemanticErrorKind)
    requires
        0 <= i < ps.len(),
        spec_enter_params(Map::empty(), ps.take(i + 1), Some(g)) == Err::<Map<Seq<char>, Entry>, SemanticErrorKind>(k),
    ensures
        spec_enter_params(Map::empty(), ps, Some(g)) == Err::<Map<Seq<char>, Entry>, SemanticErrorKind>(k),
    decreases ps.len() - i,
{
    if i + 1 < ps.len() {
        assert(ps.take(i + 2).drop_last() =~= ps.take(i + 1));
        lemma_fold_err_params(ps, i + 1, g, k);
    } else {
        assert(ps.take(i + 1) =~= ps);
    }
}

proof fn lemma_fold_err_vars(m: Map<Seq<char>, Entry>, vs: Seq<VariableDefinition>, i: int, g: Map<Seq<char>, Option<Type>>, k: SemanticErrorKind)
    requires
        0 <= i < vs.len(),
        spec_enter_vars(m, vs.take(i + 1), Some(g)) == Err::<Map<Seq<char>, Entry>, SemanticErrorKind>(k),
    ensures
        spec_enter_vars(m, vs, Some(g)) == Err::<Map<Seq<char>, Entry>, SemanticErrorKind>(k),
    decreases vs.len() - i,
{
    if i + 1 < vs.len() {
        assert(vs.take(i + 2).drop_last() =~= vs.take(i + 1));
        lemma_fold_err_vars(m, vs, i + 1, g, k);
    } else {
        assert(vs.take(i + 1) =~= vs);
    }
}

proof fn lemma_fold_err_types(m: Map<Seq<char>, Entry>, ps: Seq<ParameterDefinition>, i: int, g: Map<Seq<char>, Option<Type>>, k: SemanticErrorKind)
    requires
        0 <= i < ps.len(),
        spec_param_types(m, ps.take(i + 1), Some(g)) == Err::<Seq<Type>, SemanticErrorKind>(k),
    ensures
        spec_param_types(m, ps, Some(g)) == Err::<Seq<Type>, SemanticErrorKind>(k),
    decreases ps.len() - i,
{
    if i + 1 < ps.len() {
        assert(ps.take(i + 2).drop_last() =~= ps.take(i + 1));
        lemma_fold_err_types(m, ps, i + 1, g, k);
    } else {
        assert(ps.take(i + 1) =~= ps);
    }
}


/// Enters the predefined type `int` and the predefined procedures (each with an empty
/// local table) into the global table.
pub fn init_symbol_table(table: &mut SymbolTable)
    requires
        !old(table)@.contains_key(spec_named_types()[0]),
        forall|i: int| 0 <= i < spec_builtin_procedures().len()
            ==> !old(table)@.contains_key(#[trigger] spec_builtin_procedures()[i].0),
    ensures
        type_view(final(table)@) == spec_builtin_types_over(type_view(old(table)@), spec_builtin_procedures().len()),
        forall|k: Seq<char>| #[trigger] old(table)@.contains_key(k) ==> final(table)@.contains_key(k) && final(table)@[k] == old(table)@[k],
        final(table)@[spec_named_types()[0]] == Entry::TypeEntry(TypeEntry { typ: Type::PrimitiveType(PrimitiveType::Int) }),
        forall|i: int| 0 <= i < spec_builtin_procedures().len() ==> {
            &&& final(table)@.contains_key(#[trigger] spec_builtin_procedures()[i].0)
            &&& final(table)@[spec_builtin_procedures()[i].0] is ProcedureEntry
            &&& final(table)@[spec_builtin_procedures()[i].0]->ProcedureEntry_0.local_table@ == Map::<Seq<char>, Entry>::empty()
            &&& builtin_params_match(final(table)@[spec_builtin_procedures()[i].0]->ProcedureEntry_0.parameters@, spec_builtin_procedures()[i].1)
        },
{
    proof {
        lemma_builtin_names_distinct();
    }
    let ghost old_map = table@;
    let types = named_types();
    let int_name = types[0].clone();
    match table.enter(int_name, Entry::TypeEntry(TypeEntry { typ: Type::int_type() })) {
        Ok(()) => {},
        Err(_) => {},
    }
    proof {
        assert(type_view(table@) =~= spec_builtin_types_over(type_view(old_map), 0));
    }
    let procs = procedures();
    let mut i: usize = 0;
    while i < procs.len()
        invariant
            i <= procs@.len(),
            procs@.len() == spec_builtin_procedures().len(),
            forall|j: int| 0 <= j < procs@.len() ==> {
                &&& (#[trigger] procs@[j]).name@ == spec_builtin_procedures()[j].0
                &&& builtin_params_match(procs@[j].parameters@, spec_builtin_procedures()[j].1)
            },
            forall|a: int, b: int| 0 <= a < b < spec_builtin_procedures().len()
                ==> #[trigger] spec_builtin_procedures()[a].0 != #[trigger] spec_builtin_procedures()[b].0,
            forall|a: int| 0 <= a < spec_builtin_procedures().len()
                ==> #[trigger] spec_builtin_procedures()[a].0 != spec_named_types()[0],
            forall|a: int| 0 <= a < spec_builtin_procedures().len()
                ==> !old_map.contains_key(#[trigger] spec_builtin_procedures()[a].0),
            type_view(table@) == spec_builtin_types_over(type_view(old_map), i as nat),
            forall|k: Seq<char>| #[trigger] old_map.contains_key(k) ==> table@.contains_key(k) && table@[k] == old_map[k],
            table@[spec_named_types()[0]] == Entry::TypeEntry(TypeEntry { typ: Type::PrimitiveType(PrimitiveType::Int) }),
            table@.contains_key(spec_named_types()[0]),
            forall|k: Seq<char>| #[trigger] table@.contains_key(k) ==> old_map.contains_key(k) || k == spec_named_types()[0]
                || exists|j: int| 0 <= j < i && spec_builtin_procedures()[j].0 == k,
            forall|j: int| 0 <= j < i ==> {
                &&& table@.contains_key(#[trigger] spec_builtin_procedures()[j].0)
                &&& table@[spec_builtin_procedures()[j].0] is ProcedureEntry
                &&& table@[spec_builtin_procedures()[j].0]->ProcedureEntry_0.local_table@ == Map::<Seq<char>, Entry>::empty()
                &&& builtin_params_match(table@[spec_builtin_procedures()[j].0]->ProcedureEntry_0.parameters@, spec_builtin_procedures()[j].1)
            },
        decreases procs@.len() - i,
    {
        let ghost before = table@;
        let ghost name = spec_builtin_procedures()[i as int].0;
        assert(procs@[i as int].name@ == name);
        proof {
            if before.contains_key(name) {
                if !old_map.contains_key(name) && name != spec_named_types()[0] {
                    let j = choose|j: int| 0 <= j < i && spec_builtin_procedures()[j].0 == name;
                    assert(spec_builtin_procedures()[j].0 != spec_builtin_procedures()[i as int].0);
                }
            }
        }
        let entry = Entry::ProcedureEntry(ProcedureEntry {
            local_table: SymbolTable::new(),
            parameters: crate::table::clone_parameters(&procs[i].parameters),
        });
        match table.enter(procs[i].name.clone(), entry) {
            Ok(()) => {},
            Err(_) => {},
        }
        proof {
            assert(type_view(table@) =~= spec_builtin_types_over(type_view(old_map), (i + 1) as nat));
            assert forall|k: Seq<char>| #[trigger] table@.contains_key(k) implies old_map.contains_key(k) || k == spec_named_types()[0]
                || exists|j: int| 0 <= j < i + 1 && spec_builtin_procedures()[j].0 == k by {
                if k == name {
                    assert(spec_builtin_procedures()[i as int].0 == k);
                } else {
                    assert(before.contains_key(k));
                }
            }
            assert forall|j: int| 0 <= j < i + 1 implies {
                &&& table@.contains_key(#[trigger] spec_builtin_procedures()[j].0)
                &&& table@[spec_builtin_procedures()[j].0] is ProcedureEntry
                &&& table@[spec_builtin_procedures()[j].0]->ProcedureEntry_0.local_table@ == Map::<Seq<char>, Entry>::empty()
                &&& builtin_params_match(table@[spec_builtin_procedures()[j].0]->ProcedureEntry_0.parameters@, spec_builtin_procedures()[j].1)
            } by {
                if j < i {
                    assert(spec_builtin_procedures()[j].0 != spec_builtin_procedures()[i as int].0);
                }
            }
        }
        i = i + 1;
    }
}

/// Enters one global definition into the global table.
pub fn enter_global_def(def: &Definition, table: &mut SymbolTable) -> (r: Result<(), SemanticError>)
    ensures
        match spec_enter_global(type_view(old(table)@), *def) {
            Ok(tm) => {
                &&& r is Ok
                &&& type_view(final(table)@) == tm
                &&& final(table)@.dom() == old(table)@.dom().insert(def_name(*def))
                &&& forall|k: Seq<char>| #[trigger] old(table)@.contains_key(k) ==> final(table)@[k] == old(table)@[k]
                &&& global_entry_ok(final(table)@[def_name(*def)], *def, type_view(old(table)@))
            },
            Err(k) => r is Err && r->Err_0.kind == k && final(table)@ == old(table)@,
        },
{
    proof {
        reveal(global_entry_ok);
        reveal(spec_enter_global);
    }
    let ghost m = table@;
    let (name, entry) = match def {
        Definition::ProcedureDefinition(p) => match enter_procedure_def(p, table) {
            Ok(x) => x,
            Err(e) => return Err(e),
        },
        Definition::TypeDefinition(t) => match enter_type_def(t, table) {
            Ok(x) => x,
            Err(e) => return Err(e),
        },
    };
    let ghost e = entry;
    match table.enter(name.clone(), entry) {
        Ok(()) => {
            proof {
                assert(type_view(table@) =~= type_view(m).insert(def_name(*def), match e {
                    Entry::TypeEntry(t) => Some(t.typ),
                    _ => None,
                }));
                assert(table@.dom() =~= m.dom().insert(def_name(*def)));
            }
            Ok(())
        },
        Err(k) => Err(SemanticError::named(k, &name)),
    }
}

proof fn lemma_fold_err_globals(tm: Map<Seq<char>, Option<Type>>, ds: Seq<Definition>, i: int, k: SemanticErrorKind)
    requires
        0 <= i < ds.len(),
        spec_enter_globals(tm, ds.take(i + 1)) == Err::<Map<Seq<char>, Option<Type>>, SemanticErrorKind>(k),
    ensures
        spec_enter_globals(tm, ds) == Err::<Map<Seq<char>, Option<Type>>, SemanticErrorKind>(k),
    decreases ds.len() - i,
{
    if i + 1 < ds.len() {
        assert(ds.take(i + 2).drop_last() =~= ds.take(i + 1));
        lemma_fold_err_globals(tm, ds, i + 1, k);
    } else {
        assert(ds.take(i + 1) =~= ds);
    }
}

/// Builds the global symbol table of a program: the predefined names, then each global
/// definition in order. Fails with the first error found.
#[verifier::rlimit(80)]
#[verifier::spinoff_prover]
pub fn build_symbol_table(program: &Program) -> (r: Result<SymbolTable, SemanticError>)
    ensures
        match spec_enter_globals(spec_builtin_types(), program.definitions@) {
            Ok(tm) => {
                &&& r is Ok
                &&& type_view(r->Ok_0@) == tm
                &&& forall|i: int| 0 <= i < program.definitions@.len() ==> global_entry_ok(
                    r->Ok_0@[def_name(#[trigger] program.definitions@[i])],
                    program.definitions@[i],
                    spec_enter_globals(spec_builtin_types(), program.definitions@.take(i))->Ok_0,
                )
            },
            Err(k) => r is Err && r->Err_0.kind == k,
        },
{
    let mut table = SymbolTable::new();
    init_symbol_table(&mut table);
    proof {
        assert(type_view(Map::<Seq<char>, Entry>::empty()) =~= Map::<Seq<char>, Option<Type>>::empty());
    }
    let ghost ds = program.definitions@;
    let ghost b = spec_builtin_types();
    let mut i: usize = 0;
    while i < program.definitions.len()
        invariant
            ds == program.definitions@,
            b == spec_builtin_types(),
            i <= ds.len(),
            forall|j: int| 0 <= j <= i ==> (#[trigger] spec_enter_globals(b, ds.take(j))) is Ok,
            spec_enter_globals(b, ds.take(i as int)) == Ok::<Map<Seq<char>, Option<Type>>, SemanticErrorKind>(type_view(table@)),
            forall|j: int| 0 <= j < i ==> table@.contains_key(def_name(#[trigger] ds[j]))
                && global_entry_ok(table@[def_name(ds[j])], ds[j], spec_enter_globals(b, ds.take(j))->Ok_0),
        decreases ds.len() - i,
    {
        let ghost before = table@;
        proof {
            assert(ds.take(i + 1).drop_last() =~= ds.take(i as int));
        }
        match enter_global_def(&program.definitions[i], &mut table) {
            Ok(()) => {},
            Err(e) => {
                proof {
                    lemma_fold_err_globals(b, ds, i as int, e.kind);
                }
                return Err(e);
            },
        }
        proof {
            assert forall|j: int| 0 <= j < i + 1 implies table@.contains_key(def_name(#[trigger] ds[j]))
                && global_entry_ok(table@[def_name(ds[j])], ds[j], spec_enter_globals(b, ds.take(j))->Ok_0) by {
                if j < i {
                    assert(before.contains_key(def_name(ds[j])));
                }
            }
            assert forall|j: int| 0 <= j <= i + 1 implies (#[trigger] spec_enter_globals(b, ds.take(j))) is Ok by {
                if j <= i {
                }
            }
        }
        i = i + 1;
    }
    proof {
        assert(ds.take(ds.len() as int) =~= ds);
    }
    Ok(table)
}

} // verus!
